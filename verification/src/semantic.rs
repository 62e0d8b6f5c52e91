//! Semantic-token highlighting, only for what a TextMate grammar cannot
//! know: which plain identifier (or dotted label) names a real top-level
//! macro, type, struct, enum, const, or label, per a resolved symbol table.
//! Without a symbol table there is nothing to upgrade and no token at all.

use vstd::prelude::*;

use bitterasm::resolver::SymbolTable;

use crate::analysis::{lemma_names_well_spanned, names, names_from, names_view};
use crate::compiler::{find_symbol, lex, lexed, symbol_named, SymbolKind};
use crate::index::TextIndex;
use crate::lexeme::{Lexeme, Span};
use crate::position::{
    char_index_at, is_boundary, lemma_char_index_monotone, lemma_char_index_of_boundary,
    position_of_offset,
};
use crate::text::{
    byte_len, column_of, lemma_byte_len_prefix_le, lemma_line_column_bounded, lemma_line_monotone,
    lemma_same_line, lemma_unit_len_monotone, line_of, unit_len,
};

verus! {

/// Index of the `macro` token type in the legend.
pub const MACRO: u32 = 0;

/// Index of the `type` token type in the legend.
pub const TYPE: u32 = 1;

/// Index of the `variable` token type in the legend.
pub const VARIABLE: u32 = 2;

/// Index of the `event` token type in the legend.
pub const EVENT: u32 = 3;

/// Bit of the `readonly` token modifier in a modifier set.
pub const READONLY: u32 = 1;

/// One entry of the LSP semantic-tokens wire format: the token's start as a
/// delta from the previous token's start (line delta, then UTF-16 column
/// delta, absolute when the line changed), its UTF-16 length, and its type
/// and modifiers as indices into the legend.
#[derive(Clone, Copy, Debug, PartialEq, Eq, Structural)]
pub struct SemanticToken {
    pub delta_line: u32,
    pub delta_start: u32,
    pub length: u32,
    pub token_type: u32,
    pub token_modifiers_bitset: u32,
}

/// The token types the server announces.
#[derive(Clone, Copy, Debug, PartialEq, Eq, Structural)]
pub enum SemanticTokenType {
    Macro,
    Type,
    Variable,
    Event,
}

/// The token modifiers the server announces.
#[derive(Clone, Copy, Debug, PartialEq, Eq, Structural)]
pub enum SemanticTokenModifier {
    Readonly,
}

/// The legend that gives meaning to token type indices and modifier bits.
pub struct SemanticTokensLegend {
    pub token_types: Vec<SemanticTokenType>,
    pub token_modifiers: Vec<SemanticTokenModifier>,
}

pub open spec fn legend_types() -> Seq<SemanticTokenType> {
    seq![
        SemanticTokenType::Macro,
        SemanticTokenType::Type,
        SemanticTokenType::Variable,
        SemanticTokenType::Event,
    ]
}

pub open spec fn legend_modifiers() -> Seq<SemanticTokenModifier> {
    seq![SemanticTokenModifier::Readonly]
}

/// The legend: the four token types in index order, and `readonly` as
/// modifier bit 0.
pub fn legend() -> (legend: SemanticTokensLegend)
    ensures
        legend.token_types@ == legend_types(),
        legend.token_modifiers@ == legend_modifiers(),
{
    let mut token_types: Vec<SemanticTokenType> = Vec::new();
    token_types.push(SemanticTokenType::Macro);
    token_types.push(SemanticTokenType::Type);
    token_types.push(SemanticTokenType::Variable);
    token_types.push(SemanticTokenType::Event);
    let mut token_modifiers: Vec<SemanticTokenModifier> = Vec::new();
    token_modifiers.push(SemanticTokenModifier::Readonly);
    proof {
        assert(token_types@ =~= legend_types());
        assert(token_modifiers@ =~= legend_modifiers());
    }
    SemanticTokensLegend { token_types, token_modifiers }
}

/// Token type and modifier set for a name declared with kind `kind`.
pub open spec fn token_style(kind: SymbolKind) -> (u32, u32) {
    match kind {
        SymbolKind::Macro => (MACRO, 0),
        SymbolKind::Struct | SymbolKind::Enum | SymbolKind::TypeAlias => (TYPE, 0),
        SymbolKind::Const => (VARIABLE, READONLY),
        SymbolKind::Label | SymbolKind::ExternLabel => (EVENT, 0),
    }
}

/// The legend type meant for names declared with kind `kind`.
pub open spec fn meant_type(kind: SymbolKind) -> SemanticTokenType {
    match kind {
        SymbolKind::Macro => SemanticTokenType::Macro,
        SymbolKind::Struct | SymbolKind::Enum | SymbolKind::TypeAlias => SemanticTokenType::Type,
        SymbolKind::Const => SemanticTokenType::Variable,
        SymbolKind::Label | SymbolKind::ExternLabel => SemanticTokenType::Event,
    }
}

fn upgrade_from_symbols(name: &str, symbols: &SymbolTable) -> (style: Option<(u32, u32)>)
    ensures
        style == match symbol_named(*symbols, name@) {
            Some(s) => Some(token_style(s.kind)),
            None => None,
        },
{
    let symbol = find_symbol(symbols, name)?;
    Some(
        match symbol.kind {
            SymbolKind::Macro => (MACRO, 0),
            SymbolKind::Struct | SymbolKind::Enum | SymbolKind::TypeAlias => (TYPE, 0),
            SymbolKind::Const => (VARIABLE, READONLY),
            SymbolKind::Label | SymbolKind::ExternLabel => (EVENT, 0),
        },
    )
}

/// The names among `names` that `table` declares, in order, each as its
/// byte span with its token type and modifiers.
pub open spec fn styled(names: Seq<(Seq<char>, Span)>, table: SymbolTable) -> Seq<(usize, usize, u32, u32)>
    decreases names.len(),
{
    if names.len() == 0 {
        seq![]
    } else {
        let rest = styled(names.drop_last(), table);
        let span = names.last().1;
        match symbol_named(table, names.last().0) {
            Some(s) => rest.push((span.start, span.end, token_style(s.kind).0, token_style(s.kind).1)),
            None => rest,
        }
    }
}

/// Line of the character boundary at byte offset `o`.
pub open spec fn line_at(cs: Seq<char>, o: int) -> int {
    line_of(cs.take(char_index_at(cs, o))) as int
}

/// UTF-16 column of the character boundary at byte offset `o`.
pub open spec fn column_at(cs: Seq<char>, o: int) -> int {
    column_of(cs.take(char_index_at(cs, o))) as int
}

/// UTF-16 length of the text between byte offsets `s` and `e`.
pub open spec fn units_between(cs: Seq<char>, s: int, e: int) -> int {
    unit_len(cs.take(char_index_at(cs, e))) - unit_len(cs.take(char_index_at(cs, s)))
}

/// Spans placed as a lexer places them: on character boundaries, each start
/// no later than its end, starts in order.
pub open spec fn well_placed(cs: Seq<char>, raw: Seq<(usize, usize, u32, u32)>) -> bool {
    &&& forall|i: int|
        0 <= i < raw.len() ==> {
            &&& is_boundary(cs, #[trigger] raw[i].0 as int)
            &&& is_boundary(cs, raw[i].1 as int)
            &&& raw[i].0 <= raw[i].1
        }
    &&& forall|i: int| 0 < i < raw.len() ==> #[trigger] raw[i - 1].0 <= raw[i].0
}

/// Whether the line and the UTF-16 column of every span's start fit the 32
/// bits of the wire format.
pub open spec fn starts_fit(cs: Seq<char>, raw: Seq<(usize, usize, u32, u32)>) -> bool {
    forall|i: int|
        0 <= i < raw.len() ==> line_at(cs, #[trigger] raw[i].0 as int) <= u32::MAX && column_at(
            cs,
            raw[i].0 as int,
        ) <= u32::MAX
}

/// Spans that can be encoded: well placed, with every start's line and
/// column fitting 32 bits.
pub open spec fn encodable(cs: Seq<char>, raw: Seq<(usize, usize, u32, u32)>) -> bool {
    well_placed(cs, raw) && starts_fit(cs, raw)
}

/// Entry `i` of the encoding of `raw`.
pub open spec fn encoded_token(cs: Seq<char>, raw: Seq<(usize, usize, u32, u32)>, i: int) -> SemanticToken {
    let line = line_at(cs, raw[i].0 as int);
    let column = column_at(cs, raw[i].0 as int);
    let prev_line = if i == 0 { 0 } else { line_at(cs, raw[i - 1].0 as int) };
    let prev_column = if i == 0 { 0 } else { column_at(cs, raw[i - 1].0 as int) };
    SemanticToken {
        delta_line: (line - prev_line) as u32,
        delta_start: if line == prev_line { (column - prev_column) as u32 } else { column as u32 },
        length: units_between(cs, raw[i].0 as int, raw[i].1 as int) as u32,
        token_type: raw[i].2,
        token_modifiers_bitset: raw[i].3,
    }
}

/// The wire-format encoding of the spans `raw` of text `cs`.
pub open spec fn encoded(cs: Seq<char>, raw: Seq<(usize, usize, u32, u32)>) -> Seq<SemanticToken> {
    Seq::new(raw.len(), |i: int| encoded_token(cs, raw, i))
}

proof fn lemma_boundary_bounds(cs: Seq<char>, o: int)
    requires
        is_boundary(cs, o),
    ensures
        0 <= o <= byte_len(cs),
        0 <= char_index_at(cs, o) <= cs.len(),
        byte_len(cs.take(char_index_at(cs, o))) == o,
        line_of(cs.take(char_index_at(cs, o))) <= byte_len(cs),
        column_of(cs.take(char_index_at(cs, o))) <= byte_len(cs),
        unit_len(cs.take(char_index_at(cs, o))) <= byte_len(cs),
{
    let k = choose|k: int| 0 <= k <= cs.len() && byte_len(#[trigger] cs.take(k)) == o;
    lemma_char_index_of_boundary(cs, k);
    lemma_byte_len_prefix_le(cs, k);
    lemma_line_column_bounded(cs.take(k));
}

fn encode_indexed(index: &TextIndex, raw: &[(usize, usize, u32, u32)], Ghost(cs): Ghost<Seq<char>>) -> (tokens: Vec<SemanticToken>)
    requires
        index.describes(cs),
        encodable(cs, raw@),
    ensures
        tokens@ == encoded(cs, raw@),
{
    let mut result: Vec<SemanticToken> = Vec::with_capacity(raw.len());
    let mut prev_line: u32 = 0;
    let mut prev_char: u32 = 0;
    let mut i: usize = 0;
    while i < raw.len()
        invariant
            index.describes(cs),
            encodable(cs, raw@),
            i <= raw@.len(),
            result@ == encoded(cs, raw@).take(i as int),
            i == 0 ==> prev_line == 0 && prev_char == 0,
            i > 0 ==> prev_line == line_at(cs, raw@[i - 1].0 as int) && prev_char == column_at(cs, raw@[i - 1].0 as int),
        decreases raw@.len() - i,
    {
        let (start, end, ty, modifiers) = raw[i];
        let ks = index.char_index_of(start, Ghost(cs));
        let ke = index.char_index_of(end, Ghost(cs));
        proof {
            lemma_boundary_bounds(cs, start as int);
            lemma_boundary_bounds(cs, end as int);
            lemma_char_index_monotone(cs, start as int, end as int);
            lemma_unit_len_monotone(cs, ks as int, ke as int);
            if i > 0 {
                let prev = raw@[i - 1].0 as int;
                assert(raw@[i as int - 1].0 <= raw@[i as int].0);
                lemma_boundary_bounds(cs, prev);
                lemma_char_index_monotone(cs, prev, start as int);
                lemma_line_monotone(cs, char_index_at(cs, prev), ks as int);
                if char_index_at(cs, prev) < ks && line_at(cs, prev) == line_at(cs, start as int) {
                    lemma_same_line(cs, char_index_at(cs, prev), ks as int);
                }
            }
        }
        let line = index.lines[ks] as u32;
        let char_start = index.cols[ks] as u32;
        let length = (index.units[ke] - index.units[ks]) as u32;
        let delta_line = line - prev_line;
        let delta_char = if delta_line == 0 {
            char_start - prev_char
        } else {
            char_start
        };
        result.push(
            SemanticToken {
                delta_line,
                delta_start: delta_char,
                length,
                token_type: ty,
                token_modifiers_bitset: modifiers,
            },
        );
        proof {
            assert(result@ =~= encoded(cs, raw@).take(i + 1));
        }
        prev_line = line;
        prev_char = char_start;
        i = i + 1;
    }
    proof {
        assert(encoded(cs, raw@).take(i as int) =~= encoded(cs, raw@));
    }
    result
}

/// Converts absolute byte spans of `source` into the LSP semantic-tokens
/// wire format (see `SemanticToken`).
pub fn encode(source: &str, raw: &[(usize, usize, u32, u32)]) -> (tokens: Vec<SemanticToken>)
    requires
        byte_len(source@) <= usize::MAX,
        encodable(source@, raw@),
    ensures
        tokens@ == encoded(source@, raw@),
{
    let index = TextIndex::build(source);
    encode_indexed(&index, raw, Ghost(source@))
}

/// The highlighting of `cs` from its lexemes `lexemes`: the declared names
/// among them, encoded; none when their spans cannot be encoded.
pub open spec fn highlighted(cs: Seq<char>, lexemes: Seq<Lexeme>, table: SymbolTable) -> Seq<SemanticToken> {
    let raw = styled(names_from(lexemes, 0), table);
    if encodable(cs, raw) {
        encoded(cs, raw)
    } else {
        seq![]
    }
}

fn is_boundary_in(index: &TextIndex, o: usize, Ghost(cs): Ghost<Seq<char>>) -> (b: bool)
    requires
        index.describes(cs),
    ensures
        b == is_boundary(cs, o as int),
{
    let k = index.char_index_of(o, Ghost(cs));
    if index.bytes[k] == o {
        true
    } else {
        proof {
            if is_boundary(cs, o as int) {
                let j = choose|j: int| 0 <= j <= cs.len() && byte_len(#[trigger] cs.take(j)) == o;
                lemma_char_index_of_boundary(cs, j);
            }
        }
        false
    }
}

fn check_encodable(index: &TextIndex, raw: &[(usize, usize, u32, u32)], Ghost(cs): Ghost<Seq<char>>) -> (ok: bool)
    requires
        index.describes(cs),
    ensures
        ok == encodable(cs, raw@),
{
    let mut i: usize = 0;
    while i < raw.len()
        invariant
            index.describes(cs),
            i <= raw@.len(),
            forall|j: int|
                0 <= j < i ==> {
                    &&& is_boundary(cs, #[trigger] raw@[j].0 as int)
                    &&& is_boundary(cs, raw@[j].1 as int)
                    &&& raw@[j].0 <= raw@[j].1
                    &&& line_at(cs, raw@[j].0 as int) <= u32::MAX
                    &&& column_at(cs, raw@[j].0 as int) <= u32::MAX
                },
            forall|j: int| 0 < j < i ==> #[trigger] raw@[j - 1].0 <= raw@[j].0,
        decreases raw@.len() - i,
    {
        let (start, end, _, _) = raw[i];
        if !is_boundary_in(index, start, Ghost(cs)) || !is_boundary_in(index, end, Ghost(cs)) || start > end {
            return false;
        }
        if i > 0 && raw[i - 1].0 > start {
            return false;
        }
        let k = index.char_index_of(start, Ghost(cs));
        if index.lines[k] > 0xFFFF_FFFF || index.cols[k] > 0xFFFF_FFFF {
            proof {
                assert(index.lines@[k as int] == line_at(cs, start as int));
                assert(index.cols@[k as int] == column_at(cs, start as int));
            }
            return false;
        }
        proof {
            assert(index.lines@[k as int] == line_at(cs, start as int));
            assert(index.cols@[k as int] == column_at(cs, start as int));
        }
        i = i + 1;
    }
    true
}

/// Highlights the names among `lexemes` (the lexemes of `source`) that
/// `symbols` declares.
pub fn highlight(source: &str, lexemes: &[Lexeme], symbols: &SymbolTable) -> (tokens: Vec<SemanticToken>)
    requires
        byte_len(source@) <= usize::MAX,
    ensures
        tokens@ == highlighted(source@, lexemes@, *symbols),
{
    let found = names(lexemes);
    let mut raw: Vec<(usize, usize, u32, u32)> = Vec::new();
    let mut i: usize = 0;
    while i < found.len()
        invariant
            i <= found@.len(),
            names_view(found@) == names_from(lexemes@, 0),
            raw@ == styled(names_view(found@).take(i as int), *symbols),
        decreases found@.len() - i,
    {
        let name = &found[i].0;
        let span = found[i].1;
        proof {
            assert(names_view(found@).take(i + 1).drop_last() =~= names_view(found@).take(i as int));
            assert(names_view(found@)[i as int] == (name@, span));
        }
        match upgrade_from_symbols(name.as_str(), symbols) {
            Some(style) => raw.push((span.start, span.end, style.0, style.1)),
            None => {},
        }
        i = i + 1;
    }
    proof {
        assert(names_view(found@).take(i as int) =~= names_view(found@));
    }
    let index = TextIndex::build(source);
    if check_encodable(&index, raw.as_slice(), Ghost(source@)) {
        encode_indexed(&index, raw.as_slice(), Ghost(source@))
    } else {
        Vec::new()
    }
}

/// Spans of names that lie on character boundaries, each starting no later
/// than it ends and in the order of their starts, stay well placed when only
/// the declared ones are kept; none of those starts after the last name.
proof fn lemma_styled_encodable(cs: Seq<char>, names: Seq<(Seq<char>, Span)>, table: SymbolTable)
    requires
        forall|k: int|
            0 <= k < names.len() ==> {
                &&& is_boundary(cs, #[trigger] names[k].1.start as int)
                &&& is_boundary(cs, names[k].1.end as int)
                &&& names[k].1.start <= names[k].1.end
            },
        forall|a: int, b: int| 0 <= a < b < names.len() ==> #[trigger] names[a].1.start <= #[trigger] names[b].1.start,
    ensures
        well_placed(cs, styled(names, table)),
        names.len() > 0 ==> forall|k: int|
            0 <= k < styled(names, table).len() ==> #[trigger] styled(names, table)[k].0 <= names.last().1.start,
    decreases names.len(),
{
    if names.len() > 0 {
        let shorter = names.drop_last();
        assert forall|a: int, b: int| 0 <= a < b < shorter.len() implies #[trigger] shorter[a].1.start
            <= #[trigger] shorter[b].1.start by {
            assert(shorter[a] == names[a] && shorter[b] == names[b]);
        }
        assert forall|k: int| 0 <= k < shorter.len() implies {
            &&& is_boundary(cs, #[trigger] shorter[k].1.start as int)
            &&& is_boundary(cs, shorter[k].1.end as int)
            &&& shorter[k].1.start <= shorter[k].1.end
        } by {
            assert(shorter[k] == names[k]);
        }
        lemma_styled_encodable(cs, shorter, table);
        let rest = styled(shorter, table);
        assert(forall|i: int| 0 <= i < rest.len() ==> is_boundary(cs, #[trigger] rest[i].0 as int));
        let last = names.last();
        if shorter.len() > 0 {
            assert(shorter.last().1.start <= last.1.start) by {
                assert(names[shorter.len() - 1].1.start <= names[names.len() - 1].1.start);
            }
        } else {
            assert(rest.len() == 0);
        }
        assert(is_boundary(cs, names[names.len() - 1].1.start as int));
        let all = styled(names, table);
        assert forall|k: int| 0 <= k < all.len() implies #[trigger] all[k].0 <= last.1.start by {
            if k < rest.len() {
                assert(all[k] == rest[k]);
            }
        }
        assert forall|i: int| 0 < i < all.len() implies #[trigger] all[i - 1].0 <= all[i].0 by {
            if i < rest.len() {
                assert(all[i] == rest[i] && all[i - 1] == rest[i - 1]);
            } else {
                assert(all[i - 1] == rest[i - 1]);
            }
        }
        assert forall|i: int| 0 <= i < all.len() implies {
            &&& is_boundary(cs, #[trigger] all[i].0 as int)
            &&& is_boundary(cs, all[i].1 as int)
            &&& all[i].0 <= all[i].1
        } by {
            if i < rest.len() {
                assert(all[i] == rest[i]);
            } else {
                assert(names[names.len() - 1] == last);
                assert(is_boundary(cs, last.1.end as int));
                assert(all[i].0 == last.1.start && all[i].1 == last.1.end);
            }
        }
    }
}

/// Semantic tokens for `source`: none without a symbol table or when the
/// source does not lex; otherwise every declared name among its lexemes,
/// encoded (none when a declared name starts on a line or at a column past
/// 32 bits).
pub fn tokenize(source: &str, symbols: Option<&SymbolTable>) -> (tokens: Vec<SemanticToken>)
    requires
        byte_len(source@) <= usize::MAX,
    ensures
        match symbols {
            None => tokens@.len() == 0,
            Some(table) => match lexed(source@) {
                None => tokens@.len() == 0,
                Some(lexemes) => tokens@ == if starts_fit(source@, styled(names_from(lexemes, 0), *table)) {
                    encoded(source@, styled(names_from(lexemes, 0), *table))
                } else {
                    Seq::<SemanticToken>::empty()
                },
            },
        },
{
    let table = match symbols {
        Some(table) => table,
        None => return Vec::new(),
    };
    match lex(source) {
        Some(lexemes) => {
            proof {
                lemma_names_well_spanned(source@, lexemes@, 0);
                lemma_styled_encodable(source@, names_from(lexemes@, 0), *table);
            }
            highlight(source, lexemes.as_slice(), table)
        },
        None => Vec::new(),
    }
}

/// The absolute (line, column) of each token of a wire-format stream, as a
/// client decodes it: deltas added to the previous token's start, the
/// column delta taken as absolute when the line changed.
pub open spec fn decoded(tokens: Seq<SemanticToken>) -> Seq<(int, int)>
    decreases tokens.len(),
{
    if tokens.len() == 0 {
        seq![]
    } else {
        let prev = decoded(tokens.drop_last());
        let prev_line = if prev.len() == 0 { 0int } else { prev.last().0 };
        let prev_column = if prev.len() == 0 { 0int } else { prev.last().1 };
        let t = tokens.last();
        let line = prev_line + t.delta_line;
        let column = if t.delta_line == 0 { prev_column + t.delta_start } else { t.delta_start as int };
        prev.push((line, column))
    }
}

proof fn lemma_decoded_len(tokens: Seq<SemanticToken>)
    ensures
        decoded(tokens).len() == tokens.len(),
    decreases tokens.len(),
{
    if tokens.len() > 0 {
        lemma_decoded_len(tokens.drop_last());
    }
}

/// Law: a client that decodes the encoded stream finds every token at the
/// LSP position of its start offset, as `offset_to_position` gives it.
pub proof fn law_decode_encoded(cs: Seq<char>, raw: Seq<(usize, usize, u32, u32)>)
    requires
        encodable(cs, raw),
    ensures
        decoded(encoded(cs, raw)) == Seq::new(
            raw.len(),
            |i: int|
                (
                    position_of_offset(cs, raw[i].0 as int).line as int,
                    position_of_offset(cs, raw[i].0 as int).character as int,
                ),
        ),
    decreases raw.len(),
{
    let expected = Seq::new(
        raw.len(),
        |i: int|
            (
                position_of_offset(cs, raw[i].0 as int).line as int,
                position_of_offset(cs, raw[i].0 as int).character as int,
            ),
    );
    if raw.len() == 0 {
        assert(decoded(encoded(cs, raw)) =~= expected);
    } else {
        let n = raw.len() - 1;
        let shorter = raw.drop_last();
        assert(encodable(cs, shorter)) by {
            assert forall|i: int| 0 < i < shorter.len() implies #[trigger] shorter[i - 1].0 <= shorter[i].0 by {
                assert(raw[i - 1].0 <= raw[i].0);
            }
        }
        law_decode_encoded(cs, shorter);
        assert(encoded(cs, raw).drop_last() =~= encoded(cs, shorter));
        lemma_decoded_len(encoded(cs, shorter));
        let o = raw[n].0 as int;
        lemma_boundary_bounds(cs, o);
        assert(position_of_offset(cs, o).line as int == line_at(cs, o));
        assert(position_of_offset(cs, o).character as int == column_at(cs, o));
        if n > 0 {
            let p = raw[n - 1].0 as int;
            assert(raw[n - 1].0 <= raw[n].0);
            lemma_boundary_bounds(cs, p);
            lemma_char_index_monotone(cs, p, o);
            lemma_line_monotone(cs, char_index_at(cs, p), char_index_at(cs, o));
            if char_index_at(cs, p) < char_index_at(cs, o) && line_at(cs, p) == line_at(cs, o) {
                lemma_same_line(cs, char_index_at(cs, p), char_index_at(cs, o));
            }
            assert(position_of_offset(cs, p).line as int == line_at(cs, p));
            assert(position_of_offset(cs, p).character as int == column_at(cs, p));
        }
        assert(decoded(encoded(cs, raw)) =~= expected);
    }
}

/// Law: every token that highlighting emits names an entry of the legend,
/// of the type meant for the declaration it highlights, and sets no
/// modifier bit but `readonly`.
pub proof fn law_styles_in_legend(kind: SymbolKind)
    ensures
        token_style(kind).0 < legend_types().len(),
        legend_types()[token_style(kind).0 as int] == meant_type(kind),
        token_style(kind).1 == (if kind == SymbolKind::Const { READONLY } else { 0 }),
        legend_modifiers()[0] == SemanticTokenModifier::Readonly,
{
}

proof fn lemma_styled_in_legend(names: Seq<(Seq<char>, Span)>, table: SymbolTable)
    ensures
        forall|i: int|
            0 <= i < styled(names, table).len() ==> {
                &&& #[trigger] styled(names, table)[i].2 < legend_types().len()
                &&& styled(names, table)[i].3 == 0 || styled(names, table)[i].3 == READONLY
            },
    decreases names.len(),
{
    if names.len() > 0 {
        let rest = styled(names.drop_last(), table);
        lemma_styled_in_legend(names.drop_last(), table);
        let all = styled(names, table);
        assert forall|i: int| 0 <= i < all.len() implies {
            &&& #[trigger] all[i].2 < legend_types().len()
            &&& all[i].3 == 0 || all[i].3 == READONLY
        } by {
            if i < rest.len() {
                assert(all[i] == rest[i]);
            } else {
                let s = symbol_named(table, names.last().0)->0;
                law_styles_in_legend(s.kind);
            }
        }
    }
}

/// Law: highlighting only ever emits token types of the legend and the
/// `readonly` modifier; it never classifies anything the legend lacks.
pub proof fn law_highlight_in_legend(cs: Seq<char>, lexemes: Seq<Lexeme>, table: SymbolTable)
    ensures
        forall|i: int|
            0 <= i < highlighted(cs, lexemes, table).len() ==> {
                &&& #[trigger] highlighted(cs, lexemes, table)[i].token_type < legend_types().len()
                &&& highlighted(cs, lexemes, table)[i].token_modifiers_bitset == 0
                    || highlighted(cs, lexemes, table)[i].token_modifiers_bitset == READONLY
            },
{
    lemma_styled_in_legend(names_from(lexemes, 0), table);
}

/// The declaration that entry `entry` of a styled sequence comes from: a
/// name at index `j` with that span, declared with that style.
pub open spec fn styled_from(
    names: Seq<(Seq<char>, Span)>,
    table: SymbolTable,
    entry: (usize, usize, u32, u32),
    j: int,
) -> bool {
    &&& 0 <= j < names.len()
    &&& names[j].1.start == entry.0
    &&& names[j].1.end == entry.1
    &&& symbol_named(table, names[j].0) matches Some(s) && token_style(s.kind) == (entry.2, entry.3)
}

/// Whether `entry` comes from one of `names` that `table` declares.
pub open spec fn from_declaration(
    names: Seq<(Seq<char>, Span)>,
    table: SymbolTable,
    entry: (usize, usize, u32, u32),
) -> bool {
    exists|j: int| #[trigger] styled_from(names, table, entry, j)
}

/// Law: highlighting is strictly additive: every span it emits is the span
/// of a name that the symbol table declares, styled by that declaration.
pub proof fn law_styled_spans_are_declared(names: Seq<(Seq<char>, Span)>, table: SymbolTable)
    ensures
        forall|i: int|
            0 <= i < styled(names, table).len() ==> #[trigger] from_declaration(
                names,
                table,
                styled(names, table)[i],
            ),
    decreases names.len(),
{
    if names.len() > 0 {
        let shorter = names.drop_last();
        law_styled_spans_are_declared(shorter, table);
        let rest = styled(shorter, table);
        let all = styled(names, table);
        assert forall|i: int| 0 <= i < all.len() implies #[trigger] from_declaration(names, table, all[i]) by {
            if i < rest.len() {
                assert(all[i] == rest[i]);
                assert(from_declaration(shorter, table, rest[i]));
                let j = choose|j: int| #[trigger] styled_from(shorter, table, rest[i], j);
                assert(shorter[j] == names[j]);
                assert(styled_from(names, table, all[i], j));
            } else {
                assert(styled_from(names, table, all[i], names.len() - 1));
            }
        }
    }
}

/// Law: highlighting is complete: every name that the symbol table
/// declares, of any kind, is emitted with its span and the token type and
/// modifiers of its kind (a plain label as much as a dotted or imported
/// one).
pub proof fn law_declared_names_are_styled(names: Seq<(Seq<char>, Span)>, table: SymbolTable)
    ensures
        forall|j: int|
            #![trigger names[j]]
            0 <= j < names.len() && symbol_named(table, names[j].0) is Some ==> exists|k: int|
                0 <= k < styled(names, table).len() && #[trigger] styled(names, table)[k] == (
                    names[j].1.start,
                    names[j].1.end,
                    token_style(symbol_named(table, names[j].0)->0.kind).0,
                    token_style(symbol_named(table, names[j].0)->0.kind).1,
                ),
    decreases names.len(),
{
    if names.len() > 0 {
        let shorter = names.drop_last();
        law_declared_names_are_styled(shorter, table);
        let rest = styled(shorter, table);
        let all = styled(names, table);
        assert forall|j: int|
            #![trigger names[j]]
            0 <= j < names.len() && symbol_named(table, names[j].0) is Some implies exists|k: int|
                0 <= k < all.len() && #[trigger] all[k] == (
                    names[j].1.start,
                    names[j].1.end,
                    token_style(symbol_named(table, names[j].0)->0.kind).0,
                    token_style(symbol_named(table, names[j].0)->0.kind).1,
                ) by {
            if j < shorter.len() {
                assert(shorter[j] == names[j]);
                let k = choose|k: int|
                    0 <= k < rest.len() && #[trigger] rest[k] == (
                        shorter[j].1.start,
                        shorter[j].1.end,
                        token_style(symbol_named(table, shorter[j].0)->0.kind).0,
                        token_style(symbol_named(table, shorter[j].0)->0.kind).1,
                    );
                assert(all[k] == rest[k]);
            } else {
                assert(names[j] == names.last());
                assert(all[rest.len() as int] == (
                    names[j].1.start,
                    names[j].1.end,
                    token_style(symbol_named(table, names[j].0)->0.kind).0,
                    token_style(symbol_named(table, names[j].0)->0.kind).1,
                ));
            }
        }
    }
}

/// Law: every declaration kind gets a token type of its own family (macros
/// `macro`, type declarations `type`, constants a read-only `variable`, and
/// labels of either form `event`), so no declared name is left without a
/// style and a label is styled like any imported label.
pub proof fn law_every_kind_is_styled(kind: SymbolKind)
    ensures
        kind == SymbolKind::Label ==> token_style(kind) == token_style(SymbolKind::ExternLabel),
        legend_types()[token_style(kind).0 as int] == meant_type(kind),
        (kind == SymbolKind::Label || kind == SymbolKind::ExternLabel) <==> token_style(kind).0 == EVENT,
        kind == SymbolKind::Macro <==> token_style(kind).0 == MACRO,
        kind == SymbolKind::Const <==> token_style(kind) == (VARIABLE, READONLY),
{
}

} // verus!
