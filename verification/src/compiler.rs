//! The BitterASM compiler's lexer and symbol table, as the server calls
//! them: every item here is trusted, its contract taken from the
//! `bitterasm` crate's source.

use vstd::prelude::*;

use bitterasm::resolver::SymbolTable;

use crate::lexeme::{well_spanned, Span, Lexeme, LexemeKind};

verus! {

#[verifier::external_type_specification]
#[verifier::external_body]
pub struct ExLexerToken(bitterasm::token::Token);

#[verifier::external_type_specification]
#[verifier::external_body]
pub struct ExSymbolTable(bitterasm::resolver::SymbolTable);

/// The kind of a top-level declaration in a symbol table.
#[derive(Clone, Copy, Debug, PartialEq, Eq, Structural)]
pub enum SymbolKind {
    Struct,
    Enum,
    TypeAlias,
    Const,
    Macro,
    Label,
    ExternLabel,
}

/// A declaration in a symbol table: its kind, its name, and the span of
/// the declaration in the source that declares it.
#[derive(Clone, Debug)]
pub struct Symbol {
    pub kind: SymbolKind,
    pub name: String,
    pub span: Span,
}

/// The tokens that `bitterasm::lexer::lex` yields for `source`, or `None`
/// where it reports a lex error.
pub uninterp spec fn lexed(source: Seq<char>) -> Option<Seq<Lexeme>>;

/// The ids that a symbol table's `lookup` gives, by name.
pub uninterp spec fn symbol_ids(table: SymbolTable) -> Map<Seq<char>, usize>;

/// The declarations of a symbol table, by id.
pub uninterp spec fn symbol_entries(table: SymbolTable) -> Map<usize, Symbol>;

/// The declaration that a symbol table finds under `name`, if any.
pub open spec fn symbol_named(table: SymbolTable, name: Seq<char>) -> Option<Symbol> {
    if symbol_ids(table).dom().contains(name) {
        Some(symbol_entries(table)[symbol_ids(table)[name]])
    } else {
        None
    }
}

/// Converts one token of `bitterasm::lexer::lex` into the server's token,
/// calling `bitterasm::token::TokenKind::word_text` for the keywords;
/// nothing is claimed of the result.
#[verifier::external_body]
fn token_from_lexer(token: &bitterasm::token::Token) -> Lexeme {
    let kind = match &token.kind {
        bitterasm::token::TokenKind::Identifier(name) => LexemeKind::Identifier(name.clone()),
        bitterasm::token::TokenKind::Integer(digits) => LexemeKind::Integer(digits.clone()),
        bitterasm::token::TokenKind::String(text) => LexemeKind::Str(text.clone()),
        bitterasm::token::TokenKind::Dot => LexemeKind::Dot,
        bitterasm::token::TokenKind::RParen => LexemeKind::RParen,
        bitterasm::token::TokenKind::RBracket => LexemeKind::RBracket,
        bitterasm::token::TokenKind::RBrace => LexemeKind::RBrace,
        other => other.word_text().map_or(LexemeKind::Other, |word| LexemeKind::Keyword(word.to_string())),
    };
    Lexeme { kind, span: Span { start: token.span.start, end: token.span.end } }
}

/// Calls `bitterasm::lexer::lex`. Claims that the same source always lexes
/// to the same tokens (`lexed`), `None` exactly on a lex error, and that the
/// tokens are laid out as the lexer's source shows: it only ever moves its
/// position forward by whole characters (`advance` adds `len_utf8`), and
/// spans each token from the position where it began to the position where
/// it ended (`push`). Which tokens a source lexes to is left unsaid.
#[verifier::external_body]
pub(crate) fn lex(source: &str) -> (tokens: Option<Vec<Lexeme>>)
    ensures
        match tokens {
            Some(ts) => lexed(source@) == Some(ts@) && well_spanned(source@, ts@),
            None => lexed(source@) is None,
        },
{
    bitterasm::lexer::lex(source).ok().map(|tokens| tokens.iter().map(token_from_lexer).collect())
}

/// Calls `SymbolTable::lookup`: the id registered first under `name`, if
/// any. Every such id was registered together with a declaration of that
/// very name (`insert` and `extend_from` both key the declaration by its
/// own name), so it names a declaration of the table.
#[verifier::external_body]
pub(crate) fn lookup(table: &SymbolTable, name: &str) -> (id: Option<usize>)
    ensures
        match id {
            Some(i) => {
                &&& symbol_ids(*table).dom().contains(name@)
                &&& symbol_ids(*table)[name@] == i
                &&& symbol_entries(*table).dom().contains(i)
                &&& symbol_entries(*table)[i].name@ == name@
            },
            None => !symbol_ids(*table).dom().contains(name@),
        },
{
    table.lookup(name).map(|id| id.0)
}

/// Calls `SymbolTable::get`: the declaration with id `id`, its kind, name
/// and span copied out.
#[verifier::external_body]
pub(crate) fn symbol(table: &SymbolTable, id: usize) -> (s: Symbol)
    requires
        symbol_entries(*table).dom().contains(id),
    ensures
        s == symbol_entries(*table)[id],
{
    let symbol = table.get(bitterasm::resolver::SymbolId(id));
    let kind = match symbol.kind {
        bitterasm::resolver::SymbolKind::Struct => SymbolKind::Struct,
        bitterasm::resolver::SymbolKind::Enum => SymbolKind::Enum,
        bitterasm::resolver::SymbolKind::TypeAlias => SymbolKind::TypeAlias,
        bitterasm::resolver::SymbolKind::Const => SymbolKind::Const,
        bitterasm::resolver::SymbolKind::Macro => SymbolKind::Macro,
        bitterasm::resolver::SymbolKind::Label => SymbolKind::Label,
        bitterasm::resolver::SymbolKind::ExternLabel => SymbolKind::ExternLabel,
    };
    Symbol { kind, name: symbol.name.clone(), span: Span { start: symbol.span.start, end: symbol.span.end } }
}

/// The declaration that `table` finds under `name`, if any.
pub fn find_symbol(table: &SymbolTable, name: &str) -> (s: Option<Symbol>)
    ensures
        s == symbol_named(*table, name@),
        s matches Some(found) ==> found.name@ == name@,
{
    match lookup(table, name) {
        Some(id) => Some(symbol(table, id)),
        None => None,
    }
}

} // verus!
