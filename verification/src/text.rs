//! Widths of characters in UTF-8 bytes and UTF-16 code units, and the
//! lengths of character sequences measured in both.

use vstd::prelude::*;

verus! {

/// Number of bytes of the UTF-8 encoding of `c`.
pub open spec fn utf8_width(c: char) -> nat {
    if (c as u32) <= 0x7F {
        1
    } else if (c as u32) <= 0x7FF {
        2
    } else if (c as u32) <= 0xFFFF {
        3
    } else {
        4
    }
}

/// Number of UTF-16 code units of `c`: two for a supplementary-plane
/// character (a surrogate pair), one otherwise.
pub open spec fn utf16_width(c: char) -> nat {
    if (c as u32) >= 0x10000 {
        2
    } else {
        1
    }
}

/// Length in UTF-8 bytes of the characters `cs`.
pub open spec fn byte_len(cs: Seq<char>) -> nat
    decreases cs.len(),
{
    if cs.len() == 0 {
        0
    } else {
        byte_len(cs.drop_last()) + utf8_width(cs.last())
    }
}

/// Length in UTF-16 code units of the characters `cs`.
pub open spec fn unit_len(cs: Seq<char>) -> nat
    decreases cs.len(),
{
    if cs.len() == 0 {
        0
    } else {
        unit_len(cs.drop_last()) + utf16_width(cs.last())
    }
}

pub proof fn lemma_byte_len_concat(a: Seq<char>, b: Seq<char>)
    ensures
        byte_len(a + b) == byte_len(a) + byte_len(b),
    decreases b.len(),
{
    if b.len() == 0 {
        assert(a + b =~= a);
    } else {
        lemma_byte_len_concat(a, b.drop_last());
        assert((a + b).drop_last() =~= a + b.drop_last());
    }
}

pub proof fn lemma_encode_utf8_len(cs: Seq<char>)
    ensures
        vstd::utf8::encode_utf8(cs).len() == byte_len(cs),
    decreases cs.len(),
{
    if cs.len() > 0 {
        lemma_encode_utf8_len(cs.drop_first());
        lemma_byte_len_concat(seq![cs[0]], cs.drop_first());
        assert(seq![cs[0]] + cs.drop_first() =~= cs);
        assert(seq![cs[0]].drop_last() =~= Seq::<char>::empty());
        reveal_with_fuel(byte_len, 2);
        assert(byte_len(seq![cs[0]]) == utf8_width(cs[0]));
        vstd::utf8::char_is_scalar(cs[0]);
        assert(vstd::utf8::encode_scalar(cs[0] as u32).len() == utf8_width(cs[0]));
        assert(vstd::utf8::encode_utf8(cs) =~= vstd::utf8::encode_scalar(cs[0] as u32)
            + vstd::utf8::encode_utf8(cs.drop_first()));
    }
}

pub proof fn lemma_byte_len_prefix_le(cs: Seq<char>, i: int)
    requires
        0 <= i <= cs.len(),
    ensures
        byte_len(cs.take(i)) <= byte_len(cs),
{
    lemma_byte_len_concat(cs.take(i), cs.skip(i));
    assert(cs.take(i) + cs.skip(i) =~= cs);
}

/// Number of line breaks (`'\n'`) in `cs`: the zero-based line on which
/// the text after `cs` continues.
pub open spec fn line_of(cs: Seq<char>) -> nat
    decreases cs.len(),
{
    if cs.len() == 0 {
        0
    } else if cs.last() == '\n' {
        line_of(cs.drop_last()) + 1
    } else {
        line_of(cs.drop_last())
    }
}

/// UTF-16 code units since the last line break in `cs` (or since its
/// start): the LSP column at which the text after `cs` continues.
pub open spec fn column_of(cs: Seq<char>) -> nat
    decreases cs.len(),
{
    if cs.len() == 0 {
        0
    } else if cs.last() == '\n' {
        0
    } else {
        column_of(cs.drop_last()) + utf16_width(cs.last())
    }
}

pub proof fn lemma_prefix_step(cs: Seq<char>, k: int)
    requires
        0 <= k < cs.len(),
    ensures
        cs.take(k + 1).drop_last() == cs.take(k),
        cs.take(k + 1).last() == cs[k],
        byte_len(cs.take(k + 1)) == byte_len(cs.take(k)) + utf8_width(cs[k]),
        unit_len(cs.take(k + 1)) == unit_len(cs.take(k)) + utf16_width(cs[k]),
        line_of(cs.take(k + 1)) == line_of(cs.take(k)) + (if cs[k] == '\n' { 1nat } else { 0nat }),
        column_of(cs.take(k + 1)) == (if cs[k] == '\n' { 0nat } else { column_of(cs.take(k)) + utf16_width(cs[k]) }),
{
    assert(cs.take(k + 1).drop_last() =~= cs.take(k));
}

pub proof fn lemma_take_full(cs: Seq<char>)
    ensures
        cs.take(cs.len() as int) == cs,
{
    assert(cs.take(cs.len() as int) =~= cs);
}

pub proof fn lemma_byte_len_at_least_len(cs: Seq<char>)
    ensures
        byte_len(cs) >= cs.len(),
    decreases cs.len(),
{
    if cs.len() > 0 {
        lemma_byte_len_at_least_len(cs.drop_last());
    }
}

/// Byte offsets of character boundaries grow strictly with the number of
/// characters before them.
pub proof fn lemma_byte_len_prefix_strict(cs: Seq<char>, i: int, j: int)
    requires
        0 <= i < j <= cs.len(),
    ensures
        byte_len(cs.take(i)) < byte_len(cs.take(j)),
{
    lemma_byte_len_concat(cs.take(i), cs.subrange(i, j));
    assert(cs.take(i) + cs.subrange(i, j) =~= cs.take(j));
    lemma_byte_len_at_least_len(cs.subrange(i, j));
}

/// Lines only grow along the text.
pub proof fn lemma_line_monotone(cs: Seq<char>, i: int, j: int)
    requires
        0 <= i <= j <= cs.len(),
    ensures
        line_of(cs.take(i)) <= line_of(cs.take(j)),
    decreases j - i,
{
    if i < j {
        lemma_line_monotone(cs, i, j - 1);
        lemma_prefix_step(cs, j - 1);
    }
}

/// Two boundaries on the same line have no line break between them, and
/// the later one has the larger column.
pub proof fn lemma_same_line(cs: Seq<char>, j: int, k: int)
    requires
        0 <= j < k <= cs.len(),
        line_of(cs.take(j)) == line_of(cs.take(k)),
    ensures
        cs[j] != '\n',
        column_of(cs.take(j)) < column_of(cs.take(k)),
    decreases k - j,
{
    lemma_prefix_step(cs, k - 1);
    if k == j + 1 {
    } else {
        lemma_line_monotone(cs, j, k - 1);
        lemma_line_monotone(cs, k - 1, k);
        lemma_same_line(cs, j, k - 1);
    }
}

/// Lines and columns never exceed the byte length of the text before them.
pub proof fn lemma_line_column_bounded(cs: Seq<char>)
    ensures
        line_of(cs) <= cs.len(),
        column_of(cs) <= unit_len(cs),
        unit_len(cs) <= byte_len(cs),
        cs.len() <= byte_len(cs),
    decreases cs.len(),
{
    if cs.len() > 0 {
        lemma_line_column_bounded(cs.drop_last());
    }
}

/// UTF-16 offsets of character boundaries only grow along the text.
pub proof fn lemma_unit_len_monotone(cs: Seq<char>, i: int, j: int)
    requires
        0 <= i <= j <= cs.len(),
    ensures
        unit_len(cs.take(i)) <= unit_len(cs.take(j)),
    decreases j - i,
{
    if i < j {
        lemma_unit_len_monotone(cs, i, j - 1);
        lemma_prefix_step(cs, j - 1);
    }
}

} // verus!
