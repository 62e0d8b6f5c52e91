use bitterasm::resolver::{SymbolKind as Declared, SymbolTable};
use bitterasm::token::Span as LexSpan;
use bitterasm_lsp::compiler::{find_symbol, SymbolKind};
use bitterasm_lsp::lexeme::{Lexeme, LexemeKind, Span};
use bitterasm_lsp::position::offset_to_position;
use bitterasm_lsp::semantic::{
    encode, highlight, legend, tokenize, SemanticToken, SemanticTokenModifier, SemanticTokenType,
    EVENT, MACRO, READONLY, TYPE, VARIABLE,
};

fn token(delta_line: u32, delta_start: u32, length: u32, token_type: u32, modifiers: u32) -> SemanticToken {
    SemanticToken { delta_line, delta_start, length, token_type, token_modifiers_bitset: modifiers }
}

fn table(entries: &[(&str, Declared)]) -> SymbolTable {
    let mut table = SymbolTable::new();
    for (name, kind) in entries {
        table.insert(name.to_string(), kind.clone(), LexSpan::new(0, 0), 0).unwrap();
    }
    table
}

#[test]
fn legend_lists_types_in_index_order() {
    let legend = legend();
    assert_eq!(
        legend.token_types,
        vec![
            SemanticTokenType::Macro,
            SemanticTokenType::Type,
            SemanticTokenType::Variable,
            SemanticTokenType::Event
        ]
    );
    assert_eq!(legend.token_modifiers, vec![SemanticTokenModifier::Readonly]);
    assert_eq!((MACRO, TYPE, VARIABLE, EVENT, READONLY), (0, 1, 2, 3, 1));
}

#[test]
fn encode_uses_deltas_from_the_previous_start() {
    let source = "ab cd\n  ef";
    let raw = [(0, 2, 0, 0), (3, 5, 1, 0), (8, 10, 2, 1)];
    assert_eq!(
        encode(source, &raw),
        vec![token(0, 0, 2, 0, 0), token(0, 3, 2, 1, 0), token(1, 2, 2, 2, 1)]
    );
}

#[test]
fn encode_measures_in_utf16_units() {
    // "😀x y": '😀' is 4 bytes, 2 units.
    let source = "😀x y";
    let raw = [(0, 5, 3, 0), (6, 7, 3, 0)];
    assert_eq!(encode(source, &raw), vec![token(0, 0, 3, 3, 0), token(0, 4, 1, 3, 0)]);
}

#[test]
fn encode_of_nothing_is_nothing() {
    assert_eq!(encode("abc", &[]), vec![]);
}

#[test]
fn no_symbol_table_means_no_tokens() {
    assert_eq!(tokenize("macro m() {}\n", None), vec![]);
}

#[test]
fn unlexable_text_means_no_tokens() {
    let symbols = table(&[("abc", Declared::Macro)]);
    assert_eq!(tokenize("abc \\q", Some(&symbols)), vec![]);
}

#[test]
fn declared_names_are_upgraded_by_kind() {
    let symbols = table(&[
        ("Reg", Declared::Struct),
        ("emit_it", Declared::Macro),
        ("WIDTH", Declared::Const),
        ("Mode", Declared::Enum),
        ("Word", Declared::TypeAlias),
    ]);
    let source = "emit_it Reg\nWIDTH other Mode Word\n";
    assert_eq!(
        tokenize(source, Some(&symbols)),
        vec![
            token(0, 0, 7, MACRO, 0),
            token(0, 8, 3, TYPE, 0),
            token(1, 0, 5, VARIABLE, READONLY),
            token(0, 12, 4, TYPE, 0),
            token(0, 5, 4, TYPE, 0),
        ]
    );
}

#[test]
fn dotted_labels_highlight_as_one_token() {
    let symbols = table(&[(".skip", Declared::Label), ("jmp_to", Declared::Macro)]);
    let text = "jmp_to .skip\n.skip:\n";
    let tokens = tokenize(text, Some(&symbols));
    assert_eq!(tokens, vec![token(0, 0, 6, MACRO, 0), token(0, 7, 5, EVENT, 0), token(1, 0, 5, EVENT, 0)]);
    assert!(tokens.iter().any(|t| t.token_type == 3 && t.length == 5));
}

#[test]
fn imported_labels_highlight_as_events() {
    let mut symbols = SymbolTable::new();
    symbols.insert("target".to_string(), Declared::ExternLabel, LexSpan::new(0, 0), 0).unwrap();
    let tokens = tokenize("jmp target\n", Some(&symbols));
    assert_eq!(tokens, vec![token(0, 4, 6, EVENT, 0)]);
}

#[test]
fn highlight_takes_the_lexemes_as_given() {
    let symbols = table(&[("b", Declared::Macro)]);
    let lexemes = vec![
        Lexeme { kind: LexemeKind::Identifier("a".to_string()), span: Span { start: 0, end: 1 } },
        Lexeme { kind: LexemeKind::Identifier("b".to_string()), span: Span { start: 2, end: 3 } },
    ];
    assert_eq!(highlight("a b", &lexemes, &symbols), vec![token(0, 2, 1, MACRO, 0)]);
    // spans that do not fall on character boundaries cannot be encoded
    let bad = vec![Lexeme { kind: LexemeKind::Identifier("b".to_string()), span: Span { start: 1, end: 3 } }];
    assert_eq!(highlight("é b", &bad, &symbols), vec![]);
}

#[test]
fn find_symbol_reports_kind_name_and_span() {
    let mut symbols = SymbolTable::new();
    symbols.insert("Reg".to_string(), Declared::Struct, LexSpan::new(4, 7), 0).unwrap();
    let found = find_symbol(&symbols, "Reg").unwrap();
    assert_eq!(found.kind, SymbolKind::Struct);
    assert_eq!(found.name, "Reg");
    assert_eq!(found.span, Span { start: 4, end: 7 });
    assert!(find_symbol(&symbols, "Other").is_none());
}

#[test]
fn decoding_the_stream_gives_each_start_position() {
    let source = "é😀 Reg\n\n  WIDTH Reg 😀Mode\n";
    let raw = [(7, 10, 1, 0), (14, 19, 2, 1), (20, 23, 1, 0), (28, 32, 1, 0)];
    let tokens = encode(source, &raw);
    let (mut line, mut column) = (0u32, 0u32);
    for (token, entry) in tokens.iter().zip(raw.iter()) {
        if token.delta_line == 0 {
            column += token.delta_start;
        } else {
            line += token.delta_line;
            column = token.delta_start;
        }
        let expected = offset_to_position(source, entry.0);
        assert_eq!((line, column), (expected.line, expected.character));
    }
    assert_eq!(tokens.len(), raw.len());
}
