use bitterasm::resolver::{SymbolKind as Declared, SymbolTable};
use bitterasm::token::Span as LexSpan;
use bitterasm_lsp::analysis::{after_stage, results_kept, AnalysisStage, KeptResults, StageAction};
use bitterasm_lsp::backend::{
    definition_step, hover_contents, hover_text, import_at, pub_label_span, to_lsp_diagnostic,
    CompilerDiagnostic, DefinitionStep, DiagnosticSeverity, Label, LabelDecl, Severity,
};
use bitterasm_lsp::compiler::SymbolKind;
use bitterasm_lsp::lexeme::Span;
use bitterasm_lsp::position::Position;

fn label(source: usize, start: usize, end: usize, primary: bool) -> Label {
    Label { source, span: Span { start, end }, primary }
}

fn diagnostic(severity: Severity, labels: Vec<Label>) -> CompilerDiagnostic {
    CompilerDiagnostic { severity, lint: Some("unused_import".to_string()), message: "msg".to_string(), labels }
}

#[test]
fn diagnostics_anchor_at_the_primary_label() {
    let text = "ab\ncd";
    let diag = diagnostic(Severity::Warning, vec![label(0, 0, 1, false), label(0, 3, 5, true)]);
    let lsp = to_lsp_diagnostic(&diag, 0, Some(text)).unwrap();
    assert_eq!(lsp.range.start, Position { line: 1, character: 0 });
    assert_eq!(lsp.range.end, Position { line: 1, character: 2 });
    assert_eq!(lsp.severity, DiagnosticSeverity::Warning);
    assert_eq!(lsp.code, Some("unused_import".to_string()));
    assert_eq!(lsp.source, "bitterasm");
    assert_eq!(lsp.message, "msg");
}

#[test]
fn diagnostics_without_primary_anchor_at_the_first_label() {
    let diag = diagnostic(Severity::Note, vec![label(0, 1, 2, false), label(0, 3, 4, false)]);
    let lsp = to_lsp_diagnostic(&diag, 0, Some("ab\ncd")).unwrap();
    assert_eq!(lsp.range.start, Position { line: 0, character: 1 });
    assert_eq!(lsp.severity, DiagnosticSeverity::Information);
}

#[test]
fn diagnostics_in_other_files_or_without_labels_are_skipped() {
    let elsewhere = diagnostic(Severity::Error, vec![label(1, 0, 1, true)]);
    assert!(to_lsp_diagnostic(&elsewhere, 0, Some("ab")).is_none());
    let unlabeled = diagnostic(Severity::Error, vec![]);
    assert!(to_lsp_diagnostic(&unlabeled, 0, Some("ab")).is_none());
    let no_text = diagnostic(Severity::Error, vec![label(0, 0, 1, true)]);
    assert!(to_lsp_diagnostic(&no_text, 0, None).is_none());
}

#[test]
fn severities_map_to_lsp_severities() {
    let cases = [
        (Severity::Error, DiagnosticSeverity::Error),
        (Severity::Warning, DiagnosticSeverity::Warning),
        (Severity::Note, DiagnosticSeverity::Information),
        (Severity::Help, DiagnosticSeverity::Hint),
    ];
    for (severity, expected) in cases {
        let mut diag = diagnostic(severity, vec![label(0, 0, 1, true)]);
        diag.lint = None;
        let lsp = to_lsp_diagnostic(&diag, 0, Some("ab")).unwrap();
        assert_eq!(lsp.severity, expected);
        assert_eq!(lsp.code, None);
    }
}

#[test]
fn hover_shows_kind_and_name() {
    assert_eq!(hover_contents(SymbolKind::Struct, "Reg"), "```basm\nStruct Reg\n```");
    assert_eq!(hover_contents(SymbolKind::ExternLabel, "target"), "```basm\nExternLabel target\n```");
}

#[test]
fn hover_text_looks_up_the_name_under_the_cursor() {
    let mut symbols = SymbolTable::new();
    symbols.insert("Reg".to_string(), Declared::Struct, LexSpan::new(0, 0), 0).unwrap();
    let text = "x Reg(i)\n";
    let at_reg = Position { line: 0, character: 3 };
    assert_eq!(hover_text(text, at_reg, Some(&symbols)), Some("```basm\nStruct Reg\n```".to_string()));
    assert_eq!(hover_text(text, Position { line: 0, character: 0 }, Some(&symbols)), None);
    assert_eq!(hover_text(text, at_reg, None), None);
}

#[test]
fn definition_steps_follow_the_symbol_kind() {
    let mut symbols = SymbolTable::new();
    symbols.insert("Reg".to_string(), Declared::Struct, LexSpan::new(4, 7), 0).unwrap();
    symbols.insert("target".to_string(), Declared::ExternLabel, LexSpan::new(9, 15), 0).unwrap();
    assert_eq!(definition_step(Some(&symbols), "Reg"), DefinitionStep::Declared(Span { start: 4, end: 7 }));
    assert_eq!(definition_step(Some(&symbols), "target"), DefinitionStep::ExternalLabel);
    assert_eq!(definition_step(Some(&symbols), "nothing"), DefinitionStep::Unknown);
    assert_eq!(definition_step(None, "Reg"), DefinitionStep::Unknown);
}

#[test]
fn only_public_labels_of_that_name_are_definitions() {
    let labels = vec![
        LabelDecl { name: "target".to_string(), is_pub: false, span: Span { start: 0, end: 7 } },
        LabelDecl { name: "other".to_string(), is_pub: true, span: Span { start: 8, end: 14 } },
        LabelDecl { name: "target".to_string(), is_pub: true, span: Span { start: 15, end: 26 } },
    ];
    assert_eq!(pub_label_span(&labels, "target"), Some(Span { start: 15, end: 26 }));
    assert_eq!(pub_label_span(&labels, "missing"), None);
}

#[test]
fn import_under_the_cursor() {
    let spans = [Span { start: 5, end: 12 }, Span { start: 30, end: 40 }];
    assert_eq!(import_at(&spans, 5), Some(0));
    assert_eq!(import_at(&spans, 12), Some(0));
    assert_eq!(import_at(&spans, 35), Some(1));
    assert_eq!(import_at(&spans, 20), None);
}

#[test]
fn analysis_stops_at_the_first_reported_failure() {
    assert_eq!(
        after_stage(AnalysisStage::LoadEntry, false),
        StageAction { report_error: true, next: AnalysisStage::Done }
    );
    assert_eq!(
        after_stage(AnalysisStage::LoadSources, false),
        StageAction { report_error: false, next: AnalysisStage::LoadModules }
    );
    assert_eq!(
        after_stage(AnalysisStage::CollectSymbols, true),
        StageAction { report_error: false, next: AnalysisStage::EvaluateConsts }
    );
    assert_eq!(
        after_stage(AnalysisStage::EvaluateConsts, false),
        StageAction { report_error: true, next: AnalysisStage::Done }
    );
    let mut stage = AnalysisStage::LoadEntry;
    let mut steps = 0;
    while stage != AnalysisStage::Done {
        stage = after_stage(stage, true).next;
        steps += 1;
    }
    assert_eq!(steps, 7);
}

#[test]
fn an_analysis_keeps_what_it_got_to() {
    let nothing = KeptResults { imports: false, symbols: false };
    let imports_only = KeptResults { imports: true, symbols: false };
    let everything = KeptResults { imports: true, symbols: true };
    assert_eq!(results_kept(AnalysisStage::LoadEntry, true), nothing);
    assert_eq!(results_kept(AnalysisStage::LoadModules, true), imports_only);
    assert_eq!(results_kept(AnalysisStage::CollectSymbols, true), imports_only);
    // a failed constant evaluation still keeps the collected symbols
    assert_eq!(results_kept(AnalysisStage::EvaluateConsts, true), everything);
    assert_eq!(results_kept(AnalysisStage::EvaluateConsts, false), everything);
}
