//! The tokens of a BitterASM source text, as far as the language server
//! reads them: identifiers, keywords (by their text), the literals and
//! closing brackets that can end a value, and the `.` of dotted labels.

use vstd::prelude::*;

use crate::position::is_boundary;

verus! {

/// A half-open `[start, end)` byte range into a source text.
#[derive(Clone, Copy, Debug, PartialEq, Eq, Structural)]
pub struct Span {
    pub start: usize,
    pub end: usize,
}

/// The kind of a token; every kind the server does not tell apart is
/// `Other`.
#[derive(Clone, Debug)]
pub enum LexemeKind {
    Identifier(String),
    Integer(String),
    Str(String),
    /// A keyword, with its source text (`skip`, `type`, ...).
    Keyword(String),
    Dot,
    RParen,
    RBracket,
    RBrace,
    Other,
}

#[derive(Clone, Debug)]
pub struct Lexeme {
    pub kind: LexemeKind,
    pub span: Span,
}

/// Tokens laid out over `cs` as a lexer lays them: each span runs between
/// two character boundaries, and each token ends no later than the next
/// one starts.
pub open spec fn well_spanned(cs: Seq<char>, ts: Seq<Lexeme>) -> bool {
    &&& forall|i: int|
        0 <= i < ts.len() ==> {
            &&& is_boundary(cs, #[trigger] ts[i].span.start as int)
            &&& is_boundary(cs, ts[i].span.end as int)
            &&& ts[i].span.start <= ts[i].span.end
        }
    &&& forall|i: int, j: int| 0 <= i < j < ts.len() ==> #[trigger] ts[i].span.end <= #[trigger] ts[j].span.start
}

/// The source text of a word-shaped token: an identifier or a keyword.
pub open spec fn word_of(kind: LexemeKind) -> Option<Seq<char>> {
    match kind {
        LexemeKind::Identifier(name) => Some(name@),
        LexemeKind::Keyword(word) => Some(word@),
        _ => None,
    }
}

/// Tokens that can end a value, so that a `.` glued after them is member
/// access rather than the start of a dotted label.
pub open spec fn is_value_end(kind: LexemeKind) -> bool {
    match kind {
        LexemeKind::Identifier(_) | LexemeKind::Integer(_) | LexemeKind::Str(_) | LexemeKind::RParen
        | LexemeKind::RBracket | LexemeKind::RBrace => true,
        _ => false,
    }
}

/// The text of a word-shaped token, if `kind` is one.
pub fn word_text(kind: &LexemeKind) -> (word: Option<String>)
    ensures
        match word {
            Some(w) => word_of(*kind) == Some(w@),
            None => word_of(*kind) is None,
        },
{
    match kind {
        LexemeKind::Identifier(name) => Some(name.clone()),
        LexemeKind::Keyword(word) => Some(word.clone()),
        _ => None,
    }
}

/// Whether a token of this kind ends a value.
pub fn ends_value(kind: &LexemeKind) -> (b: bool)
    ensures
        b == is_value_end(*kind),
{
    match kind {
        LexemeKind::Identifier(_) | LexemeKind::Integer(_) | LexemeKind::Str(_) | LexemeKind::RParen
        | LexemeKind::RBracket | LexemeKind::RBrace => true,
        _ => false,
    }
}

} // verus!
