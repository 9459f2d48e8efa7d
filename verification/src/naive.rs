use vstd::prelude::*;

use crate::utils::{many_iter_eq, reverse_bytes};
use crate::{
    cell_match_count, grid_match_count, lemma_naive_count_bound, naive_count, row_match_count,
    run_matches, Crossword, Direction, Solver,
};

verus! {

/// The brute-force oracle: for every anchor and direction it fetches the run
/// of the word's length and compares it against the word and the word's
/// reverse. Unconditionally exact, never fast.
pub struct NaiveSolver<'a> {
    pub crossword: &'a Crossword,
}

impl<'a> NaiveSolver<'a> {
    pub fn new(crossword: &'a Crossword) -> (r: Self)
        ensures
            r.crossword == crossword,
    {
        NaiveSolver { crossword }
    }
}

/// Counts 1 when the run at `(row, col)` along `dir` matches `pats[0]`
/// forward or backward, `pats[1]` holding the reversed pattern.
fn check_dir(g: &Crossword, pats: &Vec<Vec<u8>>, row: usize, col: usize, dir: Direction) -> (r:
    usize)
    requires
        g.wf(),
        pats@.len() == 2,
        pats@[1]@ == pats@[0]@.reverse(),
        pats@[0]@.len() >= 1,
    ensures
        r <= 1,
        (r == 1) == run_matches(*g, pats@[0]@, row as int, col as int, dir),
{
    let wlen = pats[0].len();
    match g.get_word(row, col, dir, wlen) {
        None => 0,
        Some(found) => {
            let eqs = many_iter_eq(found.as_slice(), pats.as_slice());
            if eqs[0] || eqs[1] {
                1
            } else {
                0
            }
        },
    }
}

impl Solver for NaiveSolver<'_> {
    open spec fn solver_wf(&self) -> bool {
        self.crossword.wf() && self.crossword.fits()
    }

    open spec fn count_spec(&self, word: Seq<u8>) -> nat {
        naive_count(*self.crossword, word)
    }

    fn count_occurrences(&self, word: &[u8]) -> (r: usize) {
        let g = self.crossword;
        if word.len() == 0 {
            return 0;
        }
        let ghost w = word@;
        let ghost total = naive_count(*g, w);
        proof {
            lemma_naive_count_bound(*g, w);
        }
        let rows = g.rows();
        let cols = g.cols();
        let mut pats: Vec<Vec<u8>> = Vec::new();
        pats.push(vstd::slice::slice_to_vec(word));
        pats.push(reverse_bytes(word));
        let mut occurrences: usize = 0;
        let mut row: usize = 0;
        while row < rows
            invariant
                g.wf(),
                g.fits(),
                w == word@,
                w.len() >= 1,
                total == naive_count(*g, w),
                total <= 4 * g.data@.len(),
                pats@.len() == 2,
                pats@[0]@ == w,
                pats@[1]@ == w.reverse(),
                rows == g.rows,
                cols as int == g.spec_cols(),
                row <= rows,
                occurrences + grid_match_count(*g, w, row as int) == total,
            decreases rows - row,
        {
            let mut col: usize = 0;
            while col < cols
                invariant
                    g.wf(),
                    g.fits(),
                    w == word@,
                    w.len() >= 1,
                    total == naive_count(*g, w),
                    total <= 4 * g.data@.len(),
                    pats@.len() == 2,
                    pats@[0]@ == w,
                    pats@[1]@ == w.reverse(),
                    rows == g.rows,
                    cols as int == g.spec_cols(),
                    row < rows,
                    col <= cols,
                    occurrences + row_match_count(*g, w, row as int, col as int)
                        + grid_match_count(*g, w, row as int + 1) == total,
                decreases cols - col,
            {
                let c1 = check_dir(g, &pats, row, col, Direction::Right);
                let c2 = check_dir(g, &pats, row, col, Direction::Down);
                let c3 = check_dir(g, &pats, row, col, Direction::Diagonal);
                let c4 = check_dir(g, &pats, row, col, Direction::AntiDiagonal);
                proof {
                    assert(cell_match_count(*g, w, row as int, col as int) == (c1 + c2 + c3
                        + c4) as nat);
                    assert(row_match_count(*g, w, row as int, col as int) == cell_match_count(
                        *g,
                        w,
                        row as int,
                        col as int,
                    ) + row_match_count(*g, w, row as int, col as int + 1));
                }
                occurrences = occurrences + c1 + c2 + c3 + c4;
                col += 1;
            }
            proof {
                assert(row_match_count(*g, w, row as int, cols as int) == 0);
            }
            row += 1;
        }
        proof {
            assert(grid_match_count(*g, w, rows as int) == 0);
        }
        occurrences
    }
}

} // verus!
