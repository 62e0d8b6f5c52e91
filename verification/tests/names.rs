use bitterasm_lsp::analysis::{identifier_at, name_at, names};
use bitterasm_lsp::lexeme::{ends_value, word_text, Lexeme, LexemeKind, Span};

fn lexeme(kind: LexemeKind, start: usize, end: usize) -> Lexeme {
    Lexeme { kind, span: Span { start, end } }
}

fn ident(name: &str, start: usize) -> Lexeme {
    lexeme(LexemeKind::Identifier(name.to_string()), start, start + name.len())
}

fn texts(lexemes: &[Lexeme]) -> Vec<String> {
    names(lexemes).into_iter().map(|(name, _)| name).collect()
}

#[test]
fn member_access_stays_member_access() {
    // x str.len
    let lexemes = vec![
        ident("x", 0),
        ident("str", 2),
        lexeme(LexemeKind::Dot, 5, 6),
        ident("len", 6),
    ];
    assert_eq!(texts(&lexemes), vec!["x", "str", "len"]);
}

#[test]
fn a_dot_glued_to_a_word_is_a_dotted_label() {
    // jmp .loop
    let lexemes = vec![ident("jmp", 0), lexeme(LexemeKind::Dot, 4, 5), ident("loop", 5)];
    let found = names(&lexemes);
    assert_eq!(found.len(), 2);
    assert_eq!(found[1].0, ".loop");
    assert_eq!(found[1].1, Span { start: 4, end: 9 });
}

#[test]
fn a_keyword_after_a_dot_forms_a_label_too() {
    // .skip:
    let lexemes = vec![
        lexeme(LexemeKind::Dot, 0, 1),
        lexeme(LexemeKind::Keyword("skip".to_string()), 1, 5),
        lexeme(LexemeKind::Other, 5, 6),
    ];
    assert_eq!(texts(&lexemes), vec![".skip"]);
}

#[test]
fn a_dot_with_a_gap_is_not_a_label() {
    // jmp . loop
    let lexemes = vec![ident("jmp", 0), lexeme(LexemeKind::Dot, 4, 5), ident("loop", 6)];
    assert_eq!(texts(&lexemes), vec!["jmp", "loop"]);
}

#[test]
fn a_dot_after_a_closing_bracket_is_member_access() {
    // (a).b
    let lexemes = vec![
        lexeme(LexemeKind::Other, 0, 1),
        ident("a", 1),
        lexeme(LexemeKind::RParen, 2, 3),
        lexeme(LexemeKind::Dot, 3, 4),
        ident("b", 4),
    ];
    assert_eq!(texts(&lexemes), vec!["a", "b"]);
}

#[test]
fn value_ends_and_words() {
    assert!(ends_value(&LexemeKind::Integer("1".to_string())));
    assert!(ends_value(&LexemeKind::Str("s".to_string())));
    assert!(ends_value(&LexemeKind::RBrace));
    assert!(!ends_value(&LexemeKind::Dot));
    assert!(!ends_value(&LexemeKind::Keyword("skip".to_string())));
    assert_eq!(word_text(&LexemeKind::Keyword("type".to_string())), Some("type".to_string()));
    assert_eq!(word_text(&LexemeKind::Identifier("x".to_string())), Some("x".to_string()));
    assert_eq!(word_text(&LexemeKind::Other), None);
}

#[test]
fn the_name_at_a_cursor_touches_it_at_either_edge() {
    let lexemes = vec![ident("ab", 0), ident("cd", 3)];
    assert_eq!(name_at(&lexemes, 0), Some("ab".to_string()));
    assert_eq!(name_at(&lexemes, 2), Some("ab".to_string()));
    assert_eq!(name_at(&lexemes, 3), Some("cd".to_string()));
    assert_eq!(name_at(&lexemes, 9), None);
}

#[test]
fn identifier_at_reads_the_source_text() {
    let text = "jmp_to .skip\n.skip:\nmacro jmp_to(target: int) {\n    @emit target\n}\n";
    let offset = text.find(".skip").unwrap() + 3;
    assert_eq!(identifier_at(text, offset).as_deref(), Some(".skip"));
    let idx = text.find("target").unwrap() + 1;
    assert_eq!(identifier_at(text, idx).as_deref(), Some("target"));
    assert_eq!(identifier_at("x str.len", 5).as_deref(), Some("str"));
    assert_eq!(identifier_at("x str.len", 7).as_deref(), Some("len"));
}

#[test]
fn identifier_at_is_none_for_text_that_does_not_lex() {
    assert_eq!(identifier_at("abc \\q", 1), None);
}
