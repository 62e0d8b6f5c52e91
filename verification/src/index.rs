//! A per-character index of a text: for every character boundary, its byte
//! offset, line, column and UTF-16 offset. Built in one pass and then
//! searched, so that many offsets can be converted without rescanning.

use vstd::prelude::*;

use crate::position::{char_index_at, lemma_char_index_at};
use crate::text::{
    byte_len, column_of, lemma_byte_len_prefix_le, lemma_byte_len_prefix_strict, lemma_encode_utf8_len,
    lemma_line_monotone, lemma_prefix_step, lemma_same_line, lemma_take_full, line_of, unit_len,
};

verus! {

pub(crate) struct TextIndex {
    pub chars: Vec<char>,
    pub bytes: Vec<usize>,
    pub lines: Vec<usize>,
    pub cols: Vec<usize>,
    pub units: Vec<usize>,
}

impl TextIndex {
    /// Entry `k` of each table describes the boundary before character `k`
    /// (entry `cs.len()` the end of the text).
    pub(crate) open spec fn describes(&self, cs: Seq<char>) -> bool {
        &&& self.chars@ == cs
        &&& self.bytes@.len() == cs.len() + 1
        &&& self.lines@.len() == cs.len() + 1
        &&& self.cols@.len() == cs.len() + 1
        &&& self.units@.len() == cs.len() + 1
        &&& forall|k: int| 0 <= k <= cs.len() ==> #[trigger] self.bytes@[k] == byte_len(cs.take(k))
        &&& forall|k: int| 0 <= k <= cs.len() ==> #[trigger] self.lines@[k] == line_of(cs.take(k))
        &&& forall|k: int| 0 <= k <= cs.len() ==> #[trigger] self.cols@[k] == column_of(cs.take(k))
        &&& forall|k: int| 0 <= k <= cs.len() ==> #[trigger] self.units@[k] == unit_len(cs.take(k))
    }

    pub(crate) fn build(text: &str) -> (t: Self)
        requires
            byte_len(text@) <= usize::MAX,
        ensures
            t.describes(text@),
    {
        let mut chars: Vec<char> = Vec::new();
        let mut bytes: Vec<usize> = Vec::new();
        let mut lines: Vec<usize> = Vec::new();
        let mut cols: Vec<usize> = Vec::new();
        let mut units: Vec<usize> = Vec::new();
        bytes.push(0);
        lines.push(0);
        cols.push(0);
        units.push(0);
        let mut b: usize = 0;
        let mut l: usize = 0;
        let mut c: usize = 0;
        let mut u: usize = 0;
        proof {
            assert(text@.take(0) =~= Seq::<char>::empty());
        }
        for ch in it: text.chars()
            invariant
                it.seq() == text@,
                byte_len(text@) <= usize::MAX,
                chars@ == text@.take(it.index() as int),
                bytes@.len() == it.index() + 1,
                lines@.len() == it.index() + 1,
                cols@.len() == it.index() + 1,
                units@.len() == it.index() + 1,
                b == byte_len(text@.take(it.index() as int)),
                l == line_of(text@.take(it.index() as int)),
                c == column_of(text@.take(it.index() as int)),
                u == unit_len(text@.take(it.index() as int)),
                l <= b,
                c <= u,
                u <= b,
                b == bytes@[it.index() as int],
                l == lines@[it.index() as int],
                c == cols@[it.index() as int],
                u == units@[it.index() as int],
                forall|k: int| 0 <= k <= it.index() ==> #[trigger] bytes@[k] == byte_len(text@.take(k)),
                forall|k: int| 0 <= k <= it.index() ==> #[trigger] lines@[k] == line_of(text@.take(k)),
                forall|k: int| 0 <= k <= it.index() ==> #[trigger] cols@[k] == column_of(text@.take(k)),
                forall|k: int| 0 <= k <= it.index() ==> #[trigger] units@[k] == unit_len(text@.take(k)),
        {
            let ghost k = it.index() as int;
            proof {
                lemma_prefix_step(text@, k);
                lemma_byte_len_prefix_le(text@, k + 1);
                assert(text@.take(k + 1) =~= text@.take(k).push(ch));
            }
            let v = ch as u32;
            let w8: usize = if v <= 0x7F {
                1
            } else if v <= 0x7FF {
                2
            } else if v <= 0xFFFF {
                3
            } else {
                4
            };
            let w16: usize = if v >= 0x10000 {
                2
            } else {
                1
            };
            b = b + w8;
            u = u + w16;
            if ch == '\n' {
                l = l + 1;
                c = 0;
            } else {
                c = c + w16;
            }
            chars.push(ch);
            bytes.push(b);
            lines.push(l);
            cols.push(c);
            units.push(u);
        }
        proof {
            lemma_take_full(text@);
        }
        TextIndex { chars, bytes, lines, cols, units }
    }

    /// The index of the last boundary at or before byte offset `o`, found by
    /// bisection over the strictly increasing boundary offsets.
    pub(crate) fn char_index_of(&self, o: usize, Ghost(cs): Ghost<Seq<char>>) -> (k: usize)
        requires
            self.describes(cs),
        ensures
            k == char_index_at(cs, o as int),
            k <= cs.len(),
    {
        proof {
            lemma_char_index_at(cs, o as int);
            assert(cs.take(0) =~= Seq::<char>::empty());
        }
        let n = self.chars.len();
        if self.bytes[n] <= o {
            proof {
                lemma_take_full(cs);
                if char_index_at(cs, o as int) < cs.len() {
                    lemma_byte_len_prefix_strict(cs, char_index_at(cs, o as int) + 1, cs.len() as int);
                    lemma_byte_len_prefix_le(cs, char_index_at(cs, o as int) + 1);
                }
            }
            return n;
        }
        let mut lo: usize = 0;
        let mut hi: usize = n;
        while hi - lo > 1
            invariant
                self.describes(cs),
                n == cs.len(),
                lo < hi <= n,
                self.bytes@[lo as int] <= o,
                self.bytes@[hi as int] > o,
                byte_len(cs.take(char_index_at(cs, o as int))) <= o,
                char_index_at(cs, o as int) <= cs.len(),
                char_index_at(cs, o as int) < cs.len() ==> byte_len(cs.take(char_index_at(cs, o as int) + 1)) > o,
            decreases hi - lo,
        {
            let mid = lo + (hi - lo) / 2;
            if self.bytes[mid] <= o {
                lo = mid;
            } else {
                hi = mid;
            }
        }
        proof {
            let j = char_index_at(cs, o as int);
            let lo_i = lo as int;
            if j < lo_i {
                lemma_byte_len_prefix_strict(cs, j + 1, lo_i + 1);
                if j + 1 < lo_i {
                    lemma_byte_len_prefix_strict(cs, j + 1, lo_i);
                }
            } else if j > lo_i {
                if lo_i + 1 < j {
                    lemma_byte_len_prefix_strict(cs, lo_i + 1, j);
                }
            }
        }
        lo
    }
}

} // verus!
