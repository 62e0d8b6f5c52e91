//! The decisions the language server makes when it answers a request:
//! which compiler diagnostics it publishes and where, and what it shows on
//! hover. The server itself (its document maps and its LSP transport) runs
//! them.

use vstd::prelude::*;

use bitterasm::resolver::SymbolTable;

use crate::analysis::{first_name_at, identifier_at, names_from};
use crate::compiler::{find_symbol, lexed, symbol_named, SymbolKind};
use crate::lexeme::Span;
use crate::position::{
    is_boundary, offset_of_position, offset_to_position, position_of_offset, position_to_offset, Position,
};
use crate::text::{byte_len, line_of};

verus! {

/// Severity of a compiler diagnostic.
#[derive(Clone, Copy, Debug, PartialEq, Eq, Structural)]
pub enum Severity {
    Error,
    Warning,
    Note,
    Help,
}

/// Severity of an LSP diagnostic.
#[derive(Clone, Copy, Debug, PartialEq, Eq, Structural)]
pub enum DiagnosticSeverity {
    Error,
    Warning,
    Information,
    Hint,
}

/// A label of a compiler diagnostic: the source it points into, the byte
/// span there, and whether it is the primary label.
#[derive(Clone, Copy, Debug, PartialEq, Eq, Structural)]
pub struct Label {
    pub source: usize,
    pub span: Span,
    pub primary: bool,
}

/// A diagnostic as the compiler reports it: severity, the name of the lint
/// that raised it (if a lint did), message, and labels.
#[derive(Clone, Debug)]
pub struct CompilerDiagnostic {
    pub severity: Severity,
    pub lint: Option<String>,
    pub message: String,
    pub labels: Vec<Label>,
}

/// A range between two positions of a document.
#[derive(Clone, Copy, Debug, PartialEq, Eq, Structural)]
pub struct Range {
    pub start: Position,
    pub end: Position,
}

/// A diagnostic as the server publishes it.
#[derive(Clone, Debug)]
pub struct LspDiagnostic {
    pub range: Range,
    pub severity: DiagnosticSeverity,
    pub code: Option<String>,
    pub source: String,
    pub message: String,
}

/// The label a diagnostic is anchored at: its first primary label, else
/// its first label.
pub open spec fn anchor_label(labels: Seq<Label>) -> Option<Label> {
    if exists|i: int| 0 <= i < labels.len() && (#[trigger] labels[i]).primary {
        let i = choose|i: int|
            0 <= i < labels.len() && (#[trigger] labels[i]).primary && forall|j: int|
                0 <= j < i ==> !(#[trigger] labels[j]).primary;
        Some(labels[i])
    } else if labels.len() > 0 {
        Some(labels[0])
    } else {
        None
    }
}

pub open spec fn lsp_severity(severity: Severity) -> DiagnosticSeverity {
    match severity {
        Severity::Error => DiagnosticSeverity::Error,
        Severity::Warning => DiagnosticSeverity::Warning,
        Severity::Note => DiagnosticSeverity::Information,
        Severity::Help => DiagnosticSeverity::Hint,
    }
}

/// A byte offset that `offset_to_position` accepts for `cs`.
pub open spec fn convertible(cs: Seq<char>, o: int) -> bool {
    o >= byte_len(cs) || is_boundary(cs, o)
}

/// The label a diagnostic is anchored at (see `anchor_label`).
pub fn anchor(labels: &[Label]) -> (label: Option<Label>)
    ensures
        label == anchor_label(labels@),
{
    let mut i: usize = 0;
    while i < labels.len()
        invariant
            i <= labels@.len(),
            forall|j: int| 0 <= j < i ==> !(#[trigger] labels@[j]).primary,
        decreases labels@.len() - i,
    {
        if labels[i].primary {
            proof {
                let k = choose|k: int|
                    0 <= k < labels@.len() && (#[trigger] labels@[k]).primary && forall|j: int|
                        0 <= j < k ==> !(#[trigger] labels@[j]).primary;
                assert(k == i) by {
                    if k < i {
                    } else if k > i {
                        assert(!labels@[i as int].primary);
                    }
                }
            }
            return Some(labels[i]);
        }
        i = i + 1;
    }
    if labels.len() > 0 {
        Some(labels[0])
    } else {
        None
    }
}

/// The LSP diagnostic for `diagnostic`, anchored at its primary label (else
/// its first). A diagnostic whose anchor points into another source than
/// the entry file is skipped (`None`), as is one without labels or whose
/// entry file text is not at hand.
pub fn to_lsp_diagnostic(
    diagnostic: &CompilerDiagnostic,
    entry_source: usize,
    entry_text: Option<&str>,
) -> (lsp: Option<LspDiagnostic>)
    requires
        match (anchor_label(diagnostic.labels@), entry_text) {
            (Some(label), Some(text)) => label.source == entry_source ==> {
                &&& byte_len(text@) <= usize::MAX
                &&& convertible(text@, label.span.start as int)
                &&& convertible(text@, label.span.end as int)
            },
            _ => true,
        },
    ensures
        match (anchor_label(diagnostic.labels@), entry_text) {
            (Some(label), Some(text)) => if label.source == entry_source {
                lsp matches Some(d) && {
                    &&& d.range.start == position_of_offset(text@, label.span.start as int)
                    &&& d.range.end == position_of_offset(text@, label.span.end as int)
                    &&& d.severity == lsp_severity(diagnostic.severity)
                    &&& match (d.code, diagnostic.lint) {
                        (Some(code), Some(lint)) => code@ == lint@,
                        (None, None) => true,
                        _ => false,
                    }
                    &&& d.source@ == "bitterasm"@
                    &&& d.message@ == diagnostic.message@
                }
            } else {
                lsp is None
            },
            _ => lsp is None,
        },
{
    let label = anchor(diagnostic.labels.as_slice())?;
    if label.source != entry_source {
        return None;
    }
    let text = entry_text?;
    let range = Range {
        start: offset_to_position(text, label.span.start),
        end: offset_to_position(text, label.span.end),
    };
    let severity = match diagnostic.severity {
        Severity::Error => DiagnosticSeverity::Error,
        Severity::Warning => DiagnosticSeverity::Warning,
        Severity::Note => DiagnosticSeverity::Information,
        Severity::Help => DiagnosticSeverity::Hint,
    };
    let code = match &diagnostic.lint {
        Some(lint) => Some(lint.clone()),
        None => None,
    };
    Some(
        LspDiagnostic {
            range,
            severity,
            code,
            source: String::from_str("bitterasm"),
            message: diagnostic.message.clone(),
        },
    )
}

/// How `Debug` spells a declaration kind.
pub open spec fn kind_name(kind: SymbolKind) -> Seq<char> {
    match kind {
        SymbolKind::Struct => "Struct"@,
        SymbolKind::Enum => "Enum"@,
        SymbolKind::TypeAlias => "TypeAlias"@,
        SymbolKind::Const => "Const"@,
        SymbolKind::Macro => "Macro"@,
        SymbolKind::Label => "Label"@,
        SymbolKind::ExternLabel => "ExternLabel"@,
    }
}

/// The hover text for a declaration: its kind and name in a `basm` code
/// block.
pub open spec fn hover_markdown(kind: SymbolKind, name: Seq<char>) -> Seq<char> {
    "```basm\n"@ + kind_name(kind) + " "@ + name + "\n```"@
}

/// Law: no two declaration kinds are spelled alike, each by a capitalised
/// word of letters alone (as `Debug` spells a unit variant).
pub proof fn law_kind_names_distinct(k1: SymbolKind, k2: SymbolKind)
    ensures
        kind_name(k1) == kind_name(k2) ==> k1 == k2,
        kind_name(k1).len() > 0,
        'A' <= kind_name(k1)[0] <= 'Z',
        forall|i: int| 0 <= i < kind_name(k1).len() ==> (#[trigger] kind_name(k1)[i] != ' ' && kind_name(k1)[i] != '\n'),
{
    reveal_strlit("Struct");
    reveal_strlit("Enum");
    reveal_strlit("TypeAlias");
    reveal_strlit("Const");
    reveal_strlit("Macro");
    reveal_strlit("Label");
    reveal_strlit("ExternLabel");
    if kind_name(k1) == kind_name(k2) && k1 != k2 {
        assert(kind_name(k1).len() == kind_name(k2).len());
        assert(kind_name(k1)[0] == kind_name(k2)[0]);
    }
}

/// Law: hovering over the same name declared with two different kinds
/// shows two different texts, so the hover tells the kind.
pub proof fn law_hover_tells_kinds_apart(k1: SymbolKind, k2: SymbolKind, name: Seq<char>)
    ensures
        hover_markdown(k1, name) == hover_markdown(k2, name) ==> k1 == k2,
{
    if hover_markdown(k1, name) == hover_markdown(k2, name) {
        let head = "```basm\n"@;
        let tail = " "@ + name + "\n```"@;
        let a = kind_name(k1);
        let b = kind_name(k2);
        assert(hover_markdown(k1, name) =~= head + (a + tail));
        assert(hover_markdown(k2, name) =~= head + (b + tail));
        assert(a.len() == b.len());
        assert((head + (a + tail)).subrange(head.len() as int, (head.len() + a.len()) as int) =~= a);
        assert((head + (b + tail)).subrange(head.len() as int, (head.len() + b.len()) as int) =~= b);
        law_kind_names_distinct(k1, k2);
    }
}

fn kind_text(kind: SymbolKind) -> (text: &'static str)
    ensures
        text@ == kind_name(kind),
{
    match kind {
        SymbolKind::Struct => "Struct",
        SymbolKind::Enum => "Enum",
        SymbolKind::TypeAlias => "TypeAlias",
        SymbolKind::Const => "Const",
        SymbolKind::Macro => "Macro",
        SymbolKind::Label => "Label",
        SymbolKind::ExternLabel => "ExternLabel",
    }
}

/// The hover text for a declaration of kind `kind` named `name`.
pub fn hover_contents(kind: SymbolKind, name: &str) -> (text: String)
    ensures
        text@ == hover_markdown(kind, name@),
{
    let text = String::from_str("```basm\n");
    let text = text.concat(kind_text(kind));
    let text = text.concat(" ");
    let text = text.concat(name);
    text.concat("\n```")
}

/// What hovering at `position` in `text` shows, given the symbols of the
/// file's last analysis: the kind and name of the declaration named at
/// that position, if there is one.
pub fn hover_text(text: &str, position: Position, symbols: Option<&SymbolTable>) -> (hover: Option<String>)
    requires
        byte_len(text@) <= usize::MAX,
        position.line as int != line_of(text@) + 1,
    ensures
        match lexed(text@) {
            None => hover is None,
            Some(lexemes) => match first_name_at(names_from(lexemes, 0), offset_of_position(text@, position)) {
                None => hover is None,
                Some(name) => match symbols {
                    None => hover is None,
                    Some(table) => match symbol_named(*table, name) {
                        None => hover is None,
                        Some(s) => hover matches Some(h) && h@ == hover_markdown(s.kind, name),
                    },
                },
            },
        },
{
    let offset = position_to_offset(text, position);
    let name = identifier_at(text, offset)?;
    let table = symbols?;
    let symbol = find_symbol(table, name.as_str())?;
    Some(hover_contents(symbol.kind, symbol.name.as_str()))
}

/// Where the declaration of a name is to be found.
#[derive(Clone, Copy, Debug, PartialEq, Eq, Structural)]
pub enum DefinitionStep {
    /// The symbol table has no declaration of that name.
    Unknown,
    /// An imported public label: declared in another file, to be read.
    ExternalLabel,
    /// Declared at this span of one of the analyzed sources.
    Declared(Span),
}

/// The first step of resolving `name` to its declaration.
pub fn definition_step(symbols: Option<&SymbolTable>, name: &str) -> (step: DefinitionStep)
    ensures
        match symbols {
            None => step == DefinitionStep::Unknown,
            Some(table) => match symbol_named(*table, name@) {
                None => step == DefinitionStep::Unknown,
                Some(s) => step == if s.kind == SymbolKind::ExternLabel {
                    DefinitionStep::ExternalLabel
                } else {
                    DefinitionStep::Declared(s.span)
                },
            },
        },
{
    let table = match symbols {
        Some(table) => table,
        None => return DefinitionStep::Unknown,
    };
    match find_symbol(table, name) {
        None => DefinitionStep::Unknown,
        Some(symbol) => if symbol.kind == SymbolKind::ExternLabel {
            DefinitionStep::ExternalLabel
        } else {
            DefinitionStep::Declared(symbol.span)
        },
    }
}

/// A label declared at the top level of a file.
#[derive(Clone, Debug)]
pub struct LabelDecl {
    pub name: String,
    pub is_pub: bool,
    pub span: Span,
}

/// The span of the first public label named `name` among `labels`.
pub open spec fn pub_label_span_of(labels: Seq<LabelDecl>, name: Seq<char>) -> Option<Span>
    decreases labels.len(),
{
    if labels.len() == 0 {
        None
    } else if labels[0].is_pub && labels[0].name@ == name {
        Some(labels[0].span)
    } else {
        pub_label_span_of(labels.drop_first(), name)
    }
}

/// Where the public label `name` is declared among the labels of its
/// declaring file.
pub fn pub_label_span(labels: &[LabelDecl], name: &str) -> (span: Option<Span>)
    ensures
        span == pub_label_span_of(labels@, name@),
{
    let wanted = String::from_str(name);
    let mut i: usize = 0;
    proof {
        assert(labels@.skip(0) =~= labels@);
    }
    while i < labels.len()
        invariant
            i <= labels@.len(),
            wanted@ == name@,
            pub_label_span_of(labels@, name@) == pub_label_span_of(labels@.skip(i as int), name@),
        decreases labels@.len() - i,
    {
        proof {
            assert(labels@.skip(i as int).drop_first() =~= labels@.skip(i + 1));
            assert(labels@.skip(i as int)[0] == labels@[i as int]);
        }
        if labels[i].is_pub && labels[i].name == wanted {
            return Some(labels[i].span);
        }
        i = i + 1;
    }
    proof {
        assert(labels@.skip(i as int) =~= Seq::<LabelDecl>::empty());
    }
    None
}

/// The first of `module_spans` (the module paths of a file's imports) that
/// covers `offset` or touches it at either edge.
pub open spec fn import_at_spec(module_spans: Seq<Span>, offset: int) -> Option<int>
    decreases module_spans.len(),
{
    if module_spans.len() == 0 {
        None
    } else if module_spans[0].start <= offset && offset <= module_spans[0].end {
        Some(0)
    } else {
        match import_at_spec(module_spans.drop_first(), offset) {
            Some(i) => Some(i + 1),
            None => None,
        }
    }
}

/// The index of the import whose module path is under `offset`.
pub fn import_at(module_spans: &[Span], offset: usize) -> (index: Option<usize>)
    ensures
        match index {
            Some(i) => import_at_spec(module_spans@, offset as int) == Some(i as int),
            None => import_at_spec(module_spans@, offset as int) is None,
        },
{
    let mut i: usize = 0;
    while i < module_spans.len()
        invariant
            i <= module_spans@.len(),
            forall|j: int| 0 <= j < i ==> !(module_spans@[j].start <= offset && offset <= module_spans@[j].end),
        decreases module_spans@.len() - i,
    {
        if module_spans[i].start <= offset && offset <= module_spans[i].end {
            proof {
                lemma_import_at_first(module_spans@, offset as int, i as int);
            }
            return Some(i);
        }
        i = i + 1;
    }
    proof {
        lemma_import_at_none(module_spans@, offset as int);
    }
    None
}

proof fn lemma_import_at_first(spans: Seq<Span>, offset: int, i: int)
    requires
        0 <= i < spans.len(),
        spans[i].start <= offset && offset <= spans[i].end,
        forall|j: int| 0 <= j < i ==> !(spans[j].start <= offset && offset <= spans[j].end),
    ensures
        import_at_spec(spans, offset) == Some(i),
    decreases i,
{
    if i > 0 {
        lemma_import_at_first(spans.drop_first(), offset, i - 1);
    }
}

proof fn lemma_import_at_none(spans: Seq<Span>, offset: int)
    requires
        forall|j: int| 0 <= j < spans.len() ==> !(spans[j].start <= offset && offset <= spans[j].end),
    ensures
        import_at_spec(spans, offset) is None,
    decreases spans.len(),
{
    if spans.len() > 0 {
        lemma_import_at_none(spans.drop_first(), offset);
    }
}

} // verus!
