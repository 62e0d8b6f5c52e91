//! Conversion between byte offsets into a text and LSP positions. An LSP
//! position is a zero-based line and a column counted in UTF-16 code units,
//! so both directions walk the characters of the text.

use vstd::prelude::*;

use crate::index::TextIndex;
use crate::text::{
    byte_len, column_of, lemma_byte_len_prefix_le, lemma_byte_len_prefix_strict, lemma_encode_utf8_len,
    lemma_line_monotone, lemma_prefix_step, lemma_same_line, lemma_take_full, line_of, unit_len,
};

verus! {

/// A position in a text document: zero-based line, and column in UTF-16
/// code units from the start of that line.
#[derive(Clone, Copy, Debug, PartialEq, Eq, Structural)]
pub struct Position {
    pub line: u32,
    pub character: u32,
}

/// True when `o` is the byte offset of a character boundary of `cs` (the
/// start of some character, or the end of the text).
pub open spec fn is_boundary(cs: Seq<char>, o: int) -> bool {
    exists|k: int| 0 <= k <= cs.len() && byte_len(#[trigger] cs.take(k)) == o
}

/// The number of characters that end at or before byte offset `o`: for a
/// boundary, the index of the character that starts there.
pub open spec fn char_index_at(cs: Seq<char>, o: int) -> int
    decreases cs.len(),
{
    if cs.len() == 0 {
        0
    } else if byte_len(cs) <= o {
        cs.len() as int
    } else {
        char_index_at(cs.drop_last(), o)
    }
}

/// The position of the boundary before character `k`, each field cut to
/// 32 bits as the LSP type holds it.
pub open spec fn position_at(cs: Seq<char>, k: int) -> Position {
    Position { line: line_of(cs.take(k)) as u32, character: column_of(cs.take(k)) as u32 }
}

/// The position of byte offset `o`, with offsets past the end taken as the
/// end of the text.
pub open spec fn position_of_offset(cs: Seq<char>, o: int) -> Position {
    let clamped = if o < byte_len(cs) { o } else { byte_len(cs) as int };
    position_at(cs, char_index_at(cs, clamped))
}

/// Scanning from boundary `k` on, the first boundary on line `line` that is
/// at a line break or at column `character` or beyond; the end of the text
/// when there is none.
pub open spec fn scan_line(cs: Seq<char>, line: int, character: int, k: int) -> int
    decreases cs.len() - k,
{
    if k >= cs.len() {
        cs.len() as int
    } else if line_of(cs.take(k)) == line && (cs[k] == '\n' || column_of(cs.take(k)) >= character) {
        k
    } else {
        scan_line(cs, line, character, k + 1)
    }
}

/// The byte offset that position `p` names: on line `p.line`, the first
/// character boundary whose column reaches `p.character`, or the end of
/// that line; the end of the text when the text has no such line.
pub open spec fn offset_of_position(cs: Seq<char>, p: Position) -> int {
    byte_len(cs.take(scan_line(cs, p.line as int, p.character as int, 0))) as int
}

/// Byte offsets of the starts of the lines that splitting `cs` at each
/// `'\n'` yields, followed by one past the end of the text.
pub open spec fn line_starts_of(cs: Seq<char>) -> Seq<int>
    decreases cs.len(),
{
    if cs.len() == 0 {
        seq![0int, 1int]
    } else if cs.last() == '\n' {
        line_starts_of(cs.drop_last()).push(byte_len(cs) + 1int)
    } else {
        line_starts_of(cs.drop_last()).drop_last().push(byte_len(cs) + 1int)
    }
}

pub(crate) proof fn lemma_char_index_at(cs: Seq<char>, o: int)
    requires
        o >= 0,
    ensures
        0 <= char_index_at(cs, o) <= cs.len(),
        byte_len(cs.take(char_index_at(cs, o))) <= o,
        char_index_at(cs, o) < cs.len() ==> byte_len(cs.take(char_index_at(cs, o) + 1)) > o,
    decreases cs.len(),
{
    if cs.len() > 0 {
        lemma_take_full(cs);
        if byte_len(cs) > o {
            let pre = cs.drop_last();
            lemma_char_index_at(pre, o);
            let k = char_index_at(pre, o);
            assert(pre.take(k) =~= cs.take(k));
            if k < pre.len() {
                assert(pre.take(k + 1) =~= cs.take(k + 1));
            }
        }
    } else {
        assert(cs.take(0) =~= cs);
    }
}

/// A boundary's offset determines its character index.
pub(crate) proof fn lemma_char_index_of_boundary(cs: Seq<char>, k: int)
    requires
        0 <= k <= cs.len(),
    ensures
        char_index_at(cs, byte_len(cs.take(k)) as int) == k,
{
    let o = byte_len(cs.take(k)) as int;
    lemma_char_index_at(cs, o);
    let j = char_index_at(cs, o);
    if j + 1 < k {
        lemma_byte_len_prefix_strict(cs, j + 1, k);
    } else if j > k {
        lemma_byte_len_prefix_strict(cs, k, j);
    }
}

/// Later offsets fall in the same or a later character.
pub(crate) proof fn lemma_char_index_monotone(cs: Seq<char>, o1: int, o2: int)
    requires
        0 <= o1 <= o2,
    ensures
        char_index_at(cs, o1) <= char_index_at(cs, o2),
{
    lemma_char_index_at(cs, o1);
    lemma_char_index_at(cs, o2);
    let k1 = char_index_at(cs, o1);
    let k2 = char_index_at(cs, o2);
    if k1 > k2 {
        if k2 + 1 < k1 {
            lemma_byte_len_prefix_strict(cs, k2 + 1, k1);
        }
    }
}

/// The scan stops at `k` when nothing from `i` up to `k` stops it first.
proof fn lemma_scan_line_reaches(cs: Seq<char>, line: int, character: int, i: int, k: int)
    requires
        0 <= i <= k <= cs.len(),
        forall|j: int|
            i <= j < k ==> !(line_of(#[trigger] cs.take(j)) == line && (cs[j] == '\n' || column_of(
                cs.take(j),
            ) >= character)),
        k == cs.len() || (line_of(cs.take(k)) == line && (cs[k] == '\n' || column_of(cs.take(k))
            >= character)),
    ensures
        scan_line(cs, line, character, i) == k,
    decreases k - i,
{
    if i < k {
        lemma_scan_line_reaches(cs, line, character, i + 1, k);
    }
}

/// The byte offsets at which the lines of `text` (split at each `'\n'`)
/// start, followed by one past the end of the text.
pub fn line_starts(text: &str) -> (starts: Vec<usize>)
    requires
        byte_len(text@) < usize::MAX,
    ensures
        starts@.map_values(|v: usize| v as int) == line_starts_of(text@),
{
    let mut starts: Vec<usize> = Vec::new();
    starts.push(0);
    let mut offset: usize = 0;
    proof {
        assert(text@.take(0) =~= Seq::<char>::empty());
        assert(starts@.map_values(|v: usize| v as int).push(offset + 1) =~= line_starts_of(
            text@.take(0),
        ));
    }
    for ch in it: text.chars()
        invariant
            it.seq() == text@,
            byte_len(text@) < usize::MAX,
            offset == byte_len(text@.take(it.index() as int)),
            starts@.map_values(|v: usize| v as int).push(offset + 1) == line_starts_of(
                text@.take(it.index() as int),
            ),
    {
        let ghost k = it.index() as int;
        proof {
            lemma_prefix_step(text@, k);
            lemma_byte_len_prefix_le(text@, k + 1);
        }
        let ghost before = starts@.map_values(|v: usize| v as int);
        let v = ch as u32;
        let width: usize = if v <= 0x7F {
            1
        } else if v <= 0x7FF {
            2
        } else if v <= 0xFFFF {
            3
        } else {
            4
        };
        if ch == '\n' {
            starts.push(offset + 1);
            proof {
                assert(starts@.map_values(|v: usize| v as int) =~= before.push(offset + 1));
            }
        }
        offset = offset + width;
        proof {
            let after = text@.take(k + 1);
            assert(after.drop_last() == text@.take(k));
            if ch == '\n' {
                assert(starts@.map_values(|v: usize| v as int).push(offset + 1) =~= line_starts_of(after));
            } else {
                assert(before.push(offset + 1) =~= line_starts_of(after));
            }
        }
    }
    proof {
        lemma_take_full(text@);
    }
    starts.push(offset + 1);
    proof {
        assert(starts@.map_values(|v: usize| v as int) =~= line_starts_of(text@));
    }
    starts
}

/// The LSP position of byte offset `offset` in `text`; an offset past the
/// end of the text is taken as the end.
pub fn offset_to_position(text: &str, offset: usize) -> (p: Position)
    requires
        byte_len(text@) <= usize::MAX,
        offset >= byte_len(text@) || is_boundary(text@, offset as int),
    ensures
        p == position_of_offset(text@, offset as int),
{
    let index = TextIndex::build(text);
    let n = index.chars.len();
    let end = index.bytes[n];
    proof {
        lemma_take_full(text@);
    }
    let clamped = if offset < end {
        offset
    } else {
        end
    };
    let k = index.char_index_of(clamped, Ghost(text@));
    Position { line: index.lines[k] as u32, character: index.cols[k] as u32 }
}

/// The byte offset in `text` that `position` names: on its line, the first
/// character boundary whose column reaches `position.character`, else the
/// end of that line; the end of the text for a line past the last one.
pub fn position_to_offset(text: &str, position: Position) -> (offset: usize)
    requires
        byte_len(text@) <= usize::MAX,
        position.line as int != line_of(text@) + 1,
    ensures
        offset as int == offset_of_position(text@, position),
        is_boundary(text@, offset as int),
        offset <= text.len(),
{
    let ghost cs = text@;
    let index = TextIndex::build(text);
    let n = index.chars.len();
    let line = position.line as usize;
    let character = position.character as usize;
    let mut k: usize = 0;
    while k < n
        invariant
            index.describes(cs),
            cs == text@,
            byte_len(cs) <= usize::MAX,
            n == cs.len(),
            k <= n,
            line == position.line,
            character == position.character,
            scan_line(cs, line as int, character as int, 0) == scan_line(cs, line as int, character as int, k as int),
        decreases n - k,
    {
        if index.lines[k] == line && (index.chars[k] == '\n' || index.cols[k] >= character) {
            proof {
                let ki = k as int;
                assert(index.lines@[ki] == line_of(cs.take(ki)));
                assert(index.cols@[ki] == column_of(cs.take(ki)));
                assert(index.bytes@[ki] == byte_len(cs.take(ki)));
                assert(index.chars@[ki] == cs[ki]);
                assert(scan_line(cs, line as int, character as int, ki) == ki);
                assert(scan_line(cs, position.line as int, position.character as int, 0) == ki);
                assert(index.bytes@[ki] == offset_of_position(cs, position));
                lemma_encode_utf8_len(cs);
                lemma_byte_len_prefix_le(cs, ki);
            }
            return index.bytes[k];
        }
        k = k + 1;
    }
    proof {
        lemma_take_full(cs);
        lemma_encode_utf8_len(cs);
    }
    index.bytes[n]
}

/// Scanning for the position of boundary `k` stops exactly at `k`.
proof fn lemma_scan_finds_boundary(cs: Seq<char>, k: int)
    requires
        0 <= k <= cs.len(),
    ensures
        scan_line(cs, line_of(cs.take(k)) as int, column_of(cs.take(k)) as int, 0) == k,
{
    let line = line_of(cs.take(k)) as int;
    let character = column_of(cs.take(k)) as int;
    assert forall|j: int|
        0 <= j < k implies !(line_of(#[trigger] cs.take(j)) == line && (cs[j] == '\n' || column_of(
            cs.take(j),
        ) >= character)) by {
        if line_of(cs.take(j)) == line {
            lemma_same_line(cs, j, k);
        }
    }
    lemma_scan_line_reaches(cs, line, character, 0, k);
}

/// The position of boundary `k` holds its line, and its column, exactly
/// when each fits the 32 bits of its field.
proof fn lemma_position_at_exact(cs: Seq<char>, k: int)
    requires
        0 <= k <= cs.len(),
    ensures
        line_of(cs.take(k)) <= u32::MAX ==> position_at(cs, k).line as int == line_of(cs.take(k)),
        column_of(cs.take(k)) <= u32::MAX ==> position_at(cs, k).character as int == column_of(cs.take(k)),
        byte_len(cs.take(k)) <= byte_len(cs),
{
    lemma_byte_len_prefix_le(cs, k);
}

/// Whether the line and the column of byte offset `o` (past the end: of the
/// end of the text) fit the 32-bit fields of a position.
pub open spec fn position_fits(cs: Seq<char>, o: int) -> bool {
    let clamped = if o < byte_len(cs) { o } else { byte_len(cs) as int };
    let k = char_index_at(cs, clamped);
    line_of(cs.take(k)) <= u32::MAX && column_of(cs.take(k)) <= u32::MAX
}

/// Whether `p` is exactly the line and column of the boundary before
/// character `k`.
pub open spec fn position_names(cs: Seq<char>, p: Position, k: int) -> bool {
    &&& 0 <= k <= cs.len()
    &&& line_of(cs.take(k)) == p.line as int
    &&& column_of(cs.take(k)) == p.character as int
}

/// Law: converting the offset of a character boundary to a position and
/// that position back to an offset gives the offset again, wherever the
/// boundary's line and column fit the 32-bit fields of a position.
pub proof fn law_offset_position_round_trip(cs: Seq<char>, o: int)
    requires
        is_boundary(cs, o),
        position_fits(cs, o),
    ensures
        offset_of_position(cs, position_of_offset(cs, o)) == o,
{
    let k = choose|k: int| 0 <= k <= cs.len() && byte_len(#[trigger] cs.take(k)) == o;
    lemma_position_at_exact(cs, k);
    lemma_char_index_of_boundary(cs, k);
    lemma_scan_finds_boundary(cs, k);
}

/// Law: a position that is exactly the line and column of a character
/// boundary, converted to an offset and back, gives the same position.
pub proof fn law_position_offset_round_trip(cs: Seq<char>, p: Position)
    requires
        exists|k: int| #[trigger] position_names(cs, p, k),
    ensures
        position_of_offset(cs, offset_of_position(cs, p)) == p,
{
    let k = choose|k: int| #[trigger] position_names(cs, p, k);
    lemma_position_at_exact(cs, k);
    lemma_scan_finds_boundary(cs, k);
    lemma_char_index_of_boundary(cs, k);
}

/// Law: every offset that `position_to_offset` can give is a character
/// boundary within the text, so it is a valid argument back to
/// `offset_to_position`.
pub proof fn law_position_offset_in_text(cs: Seq<char>, p: Position)
    ensures
        is_boundary(cs, offset_of_position(cs, p)),
        0 <= offset_of_position(cs, p) <= byte_len(cs),
{
    lemma_scan_in_range(cs, p.line as int, p.character as int, 0);
    let k = scan_line(cs, p.line as int, p.character as int, 0);
    lemma_byte_len_prefix_le(cs, k);
    assert(byte_len(cs.take(k)) == offset_of_position(cs, p));
}

/// Whether position `p` comes no later than position `q` in a document.
pub open spec fn precedes(p: Position, q: Position) -> bool {
    p.line < q.line || (p.line == q.line && p.character <= q.character)
}

/// Law: converting offsets to positions keeps their order wherever the
/// later position's line and column fit the 32-bit fields of a position,
/// so the range of a span never ends before it starts.
pub proof fn law_positions_keep_order(cs: Seq<char>, o1: int, o2: int)
    requires
        0 <= o1 <= o2,
        position_fits(cs, o2),
    ensures
        precedes(position_of_offset(cs, o1), position_of_offset(cs, o2)),
{
    let c1 = if o1 < byte_len(cs) { o1 } else { byte_len(cs) as int };
    let c2 = if o2 < byte_len(cs) { o2 } else { byte_len(cs) as int };
    lemma_char_index_monotone(cs, c1, c2);
    lemma_char_index_at(cs, c1);
    lemma_char_index_at(cs, c2);
    let k1 = char_index_at(cs, c1);
    let k2 = char_index_at(cs, c2);
    lemma_position_at_exact(cs, k1);
    lemma_position_at_exact(cs, k2);
    lemma_line_monotone(cs, k1, k2);
    if k1 < k2 && line_of(cs.take(k1)) == line_of(cs.take(k2)) {
        lemma_same_line(cs, k1, k2);
    }
}

proof fn lemma_scan_in_range(cs: Seq<char>, line: int, character: int, k: int)
    requires
        0 <= k <= cs.len(),
    ensures
        k <= scan_line(cs, line, character, k) <= cs.len(),
    decreases cs.len() - k,
{
    if k < cs.len() {
        lemma_scan_in_range(cs, line, character, k + 1);
    }
}

} // verus!
