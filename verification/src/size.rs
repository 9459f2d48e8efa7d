use vstd::prelude::*;

use crate::hashmap::CrosswordHashMap;
use crate::naive::NaiveSolver;
use crate::needle::CrosswordNeedleSearch;
use crate::trie::Trie;
use crate::{Crossword, Direction};

verus! {

/// Bytes of one machine word on the targets this library cares about; the
/// estimates below are approximate by design.
pub const WORD_BYTES: usize = 8;

/// Adds with saturation at the machine maximum, so estimates never abort.
fn sat_add(a: usize, b: usize) -> (r: usize)
    ensures
        r == if a + b <= usize::MAX {
            a + b
        } else {
            usize::MAX as int
        },
        a <= r,
        b <= r,
{
    if a > usize::MAX - b {
        usize::MAX
    } else {
        a + b
    }
}

/// Multiplies with saturation at the machine maximum.
fn sat_mul(a: usize, b: usize) -> (r: usize)
    ensures
        a * b <= usize::MAX ==> r == a * b,
{
    if b == 0 {
        0
    } else if a > usize::MAX / b {
        proof {
            assert(a * b > usize::MAX) by (nonlinear_arith)
                requires
                    b >= 1,
                    a > usize::MAX as int / (b as int),
            ;
        }
        usize::MAX
    } else {
        proof {
            assert(a * b <= usize::MAX) by (nonlinear_arith)
                requires
                    b >= 1,
                    a <= usize::MAX as int / (b as int),
            ;
        }
        a * b
    }
}

/// An approximate count of the bytes a value keeps on the heap and inline.
/// The estimate is free to overshoot (and saturates rather than abort), but
/// it never undershoots `size_floor`, a lower bound stated over the held
/// state.
pub trait EstimateSize {
    spec fn size_floor(&self) -> int;

    fn estimate_size(&self) -> (r: usize)
        ensures
            self.size_floor() <= r as int,
    ;
}

impl EstimateSize for Direction {
    open spec fn size_floor(&self) -> int {
        1
    }

    fn estimate_size(&self) -> (r: usize) {
        1
    }
}

impl EstimateSize for Crossword {
    /// At least the flat cell buffer.
    open spec fn size_floor(&self) -> int {
        self.data@.len() as int
    }

    fn estimate_size(&self) -> (r: usize) {
        sat_add(WORD_BYTES, self.data.len())
    }
}

impl EstimateSize for NaiveSolver<'_> {
    /// The oracle holds one reference and nothing else.
    open spec fn size_floor(&self) -> int {
        WORD_BYTES as int
    }

    fn estimate_size(&self) -> (r: usize) {
        WORD_BYTES
    }
}

impl EstimateSize for CrosswordNeedleSearch {
    /// At least the largest of the four flattened buffers.
    open spec fn size_floor(&self) -> int {
        let l0 = self.plans[0]@.len() as int;
        let l1 = self.plans[1]@.len() as int;
        let l2 = self.plans[2]@.len() as int;
        let l3 = self.plans[3]@.len() as int;
        vstd::math::max(vstd::math::max(l0, l1), vstd::math::max(l2, l3))
    }

    fn estimate_size(&self) -> (r: usize) {
        let mut total: usize = 0;
        total = sat_add(total, sat_add(self.plans[0].len(), 3 * WORD_BYTES));
        total = sat_add(total, sat_add(self.plans[1].len(), 3 * WORD_BYTES));
        total = sat_add(total, sat_add(self.plans[2].len(), 3 * WORD_BYTES));
        total = sat_add(total, sat_add(self.plans[3].len(), 3 * WORD_BYTES));
        total
    }
}

impl EstimateSize for Trie {
    /// At least four words per arena node, capped at the machine maximum.
    open spec fn size_floor(&self) -> int {
        vstd::math::min(4 * (WORD_BYTES as int) * (self.nodes@.len() as int), usize::MAX as int)
    }

    fn estimate_size(&self) -> (r: usize) {
        let mut total: usize = 0;
        let mut n: usize = 0;
        while n < self.nodes.len()
            invariant
                n <= self.nodes@.len(),
                vstd::math::min(4 * (WORD_BYTES as int) * (n as int), usize::MAX as int)
                    <= total as int,
            decreases self.nodes@.len() - n,
        {
            let edges = self.nodes[n].children.len();
            total = sat_add(total, sat_add(4 * WORD_BYTES, sat_mul(edges, 2 * WORD_BYTES)));
            proof {
                assert(4 * (WORD_BYTES as int) * (n as int + 1) == 4 * (WORD_BYTES as int) * (
                n as int) + 4 * (WORD_BYTES as int)) by (nonlinear_arith);
            }
            n += 1;
        }
        total
    }
}

impl EstimateSize for CrosswordHashMap<'_> {
    /// At least its base words, four words per stored count entry and six
    /// per anchor entry, capped at the machine maximum.
    open spec fn size_floor(&self) -> int {
        vstd::math::min(
            2 * (WORD_BYTES as int) + 4 * (WORD_BYTES as int) * (
            self.complete_words.entries@.len() as int) + 6 * (WORD_BYTES as int) * (
            self.incomplete_words.entries@.len() as int),
            usize::MAX as int,
        )
    }

    fn estimate_size(&self) -> (r: usize) {
        let cn = self.complete_words.entries.len();
        let pn = self.incomplete_words.entries.len();
        let mut total: usize = 2 * WORD_BYTES;
        let mut e: usize = 0;
        while e < cn
            invariant
                cn == self.complete_words.entries@.len(),
                e <= cn,
                vstd::math::min(
                    2 * (WORD_BYTES as int) + 4 * (WORD_BYTES as int) * (e as int),
                    usize::MAX as int,
                ) <= total as int,
            decreases cn - e,
        {
            let klen = self.complete_words.entries[e].0.len();
            total = sat_add(total, sat_add(klen, 4 * WORD_BYTES));
            proof {
                assert(4 * (WORD_BYTES as int) * (e as int + 1) == 4 * (WORD_BYTES as int) * (
                e as int) + 4 * (WORD_BYTES as int)) by (nonlinear_arith);
            }
            e += 1;
        }
        let mut f: usize = 0;
        while f < pn
            invariant
                cn == self.complete_words.entries@.len(),
                pn == self.incomplete_words.entries@.len(),
                f <= pn,
                vstd::math::min(
                    2 * (WORD_BYTES as int) + 4 * (WORD_BYTES as int) * (cn as int) + 6 * (
                    WORD_BYTES as int) * (f as int),
                    usize::MAX as int,
                ) <= total as int,
            decreases pn - f,
        {
            let klen = self.incomplete_words.entries[f].0.len();
            let plen = self.incomplete_words.entries[f].1.len();
            total = sat_add(
                total,
                sat_add(sat_add(klen, 6 * WORD_BYTES), sat_mul(plen, 3 * WORD_BYTES)),
            );
            proof {
                assert(6 * (WORD_BYTES as int) * (f as int + 1) == 6 * (WORD_BYTES as int) * (
                f as int) + 6 * (WORD_BYTES as int)) by (nonlinear_arith);
            }
            f += 1;
        }
        total
    }
}

} // verus!
