use vstd::prelude::*;

use crate::utils::{is_palindrome, reverse_bytes};
use crate::{Crossword, Direction, Solver};

verus! {

/// The byte placed between concatenated runs, an ASCII full stop; guaranteed
/// absent from legal grid content (callers restrict grids to alphabetic
/// bytes), so no match can straddle two runs.
pub const DELIM: u8 = 46;

/// Whether `nd` occurs in `hay` starting at position `i`.
pub open spec fn match_at(hay: Seq<u8>, nd: Seq<u8>, i: int) -> bool {
    &&& 0 <= i
    &&& i + nd.len() <= hay.len()
    &&& hay.subrange(i, i + nd.len() as int) == nd
}

/// The number of positions `>= i` at which `nd` occurs in `hay`; overlapping
/// occurrences all count.
pub open spec fn count_matches_from(hay: Seq<u8>, nd: Seq<u8>, i: int) -> nat
    decreases hay.len() - i + 1,
{
    if i < 0 || i > hay.len() {
        0
    } else {
        (if match_at(hay, nd, i) {
            1nat
        } else {
            0nat
        }) + count_matches_from(hay, nd, i + 1)
    }
}

/// The number of positions at which `nd` occurs in `hay`.
pub open spec fn count_matches(hay: Seq<u8>, nd: Seq<u8>) -> nat {
    count_matches_from(hay, nd, 0)
}

/// A stretch free of matches contributes nothing to the count.
pub proof fn lemma_count_skip(hay: Seq<u8>, nd: Seq<u8>, a: int, b: int)
    requires
        0 <= a <= b,
        forall|j: int| a <= j < b ==> !match_at(hay, nd, j),
    ensures
        count_matches_from(hay, nd, a) == count_matches_from(hay, nd, b),
    decreases b - a,
{
    if a < b {
        lemma_count_skip(hay, nd, a + 1, b);
    }
}

/// A non-empty pattern has at most one occurrence per remaining position.
pub proof fn lemma_count_matches_bound(hay: Seq<u8>, nd: Seq<u8>, i: int)
    requires
        0 <= i <= hay.len(),
        nd.len() >= 1,
    ensures
        count_matches_from(hay, nd, i) <= hay.len() - i,
    decreases hay.len() - i + 1,
{
    if i + nd.len() > hay.len() {
        lemma_count_skip(hay, nd, i, hay.len() as int + 1);
    } else {
        lemma_count_matches_bound(hay, nd, i + 1);
    }
}

/// Relies on memchr::memmem::find: it returns the index of the first
/// occurrence of `needle` in the haystack it is given, here the tail of
/// `hay` from `start` on, or `None` when the needle occurs nowhere in it.
#[verifier::external_body]
fn find_from(hay: &[u8], start: usize, needle: &[u8]) -> (r: Option<usize>)
    requires
        start <= hay@.len(),
        needle@.len() >= 1,
    ensures
        match r {
            Some(i) => {
                &&& start + i + needle@.len() <= hay@.len()
                &&& match_at(hay@, needle@, start + i)
                &&& forall|j: int| start <= j < start + i ==> !match_at(hay@, needle@, j)
            },
            None => forall|j: int| start <= j ==> !match_at(hay@, needle@, j),
        },
{
    memchr::memmem::find(&hay[start..], needle)
}

/// Counts every position of `plan` at which `needle` occurs, overlapping
/// occurrences included.
fn count_in_plan(plan: &Vec<u8>, needle: &[u8]) -> (r: usize)
    requires
        needle@.len() >= 1,
    ensures
        r == count_matches(plan@, needle@),
        r <= plan@.len(),
{
    proof {
        assert(plan.len() == plan@.len());
        lemma_count_matches_bound(plan@, needle@, 0);
    }
    let mut count: usize = 0;
    let mut pos: usize = 0;
    loop
        invariant
            needle@.len() >= 1,
            plan@.len() <= usize::MAX,
            pos <= plan@.len(),
            count + count_matches_from(plan@, needle@, pos as int) == count_matches(
                plan@,
                needle@,
            ),
            count_matches(plan@, needle@) <= plan@.len(),
        decreases plan@.len() - pos,
    {
        match find_from(plan.as_slice(), pos, needle) {
            None => {
                proof {
                    lemma_count_skip(plan@, needle@, pos as int, plan@.len() as int + 1);
                }
                return count;
            },
            Some(i) => {
                proof {
                    lemma_count_skip(plan@, needle@, pos as int, pos + i);
                    assert(count_matches_from(plan@, needle@, pos + i) == 1 + count_matches_from(
                        plan@,
                        needle@,
                        pos + i + 1,
                    ));
                }
                count = count + 1;
                pos = pos + i + 1;
            },
        }
    }
}

/// The run of cells along the main diagonal starting at `(sr, sc)`.
pub open spec fn diag_run(g: Crossword, sr: int, sc: int) -> Seq<u8> {
    Seq::new(
        vstd::math::min(g.rows - sr, g.spec_cols() - sc) as nat,
        |j: int| g.spec_cell(sr + j, sc + j),
    )
}

/// The run of cells along the anti-diagonal starting at `(sr, sc)`, the
/// column decreasing.
pub open spec fn anti_run(g: Crossword, sr: int, sc: int) -> Seq<u8> {
    Seq::new(
        vstd::math::min(g.rows - sr, sc + 1) as nat,
        |j: int| g.spec_cell(sr + j, sc - j),
    )
}

/// Rows `r..` of the grid, each followed by the delimiter.
pub open spec fn direct_plan_from(g: Crossword, r: int) -> Seq<u8>
    decreases g.rows - r,
{
    if r < 0 || r >= g.rows {
        Seq::empty()
    } else {
        g.row_seq(r) + seq![DELIM] + direct_plan_from(g, r + 1)
    }
}

/// The row buffer: every row, delimiter-terminated.
pub open spec fn direct_plan(g: Crossword) -> Seq<u8> {
    direct_plan_from(g, 0)
}

/// Columns `c..` of the grid, each followed by the delimiter.
pub open spec fn trans_plan_from(g: Crossword, c: int) -> Seq<u8>
    decreases g.spec_cols() - c,
{
    if c < 0 || c >= g.spec_cols() {
        Seq::empty()
    } else {
        g.col_seq(c) + seq![DELIM] + trans_plan_from(g, c + 1)
    }
}

/// The column buffer: every column, delimiter-terminated.
pub open spec fn trans_plan(g: Crossword) -> Seq<u8> {
    trans_plan_from(g, 0)
}

/// Diagonal runs starting on the first column, swept bottom row first.
pub open spec fn diag_plan_a(g: Crossword, i: int) -> Seq<u8>
    decreases g.rows - i,
{
    if i < 0 || i >= g.rows {
        Seq::empty()
    } else {
        diag_run(g, g.rows - 1 - i, 0) + seq![DELIM] + diag_plan_a(g, i + 1)
    }
}

/// Diagonal runs starting on the top row, columns `sc..`.
pub open spec fn diag_plan_b(g: Crossword, sc: int) -> Seq<u8>
    decreases g.spec_cols() - sc,
{
    if sc < 1 || sc >= g.spec_cols() {
        Seq::empty()
    } else {
        diag_run(g, 0, sc) + seq![DELIM] + diag_plan_b(g, sc + 1)
    }
}

/// The diagonal buffer: every diagonal run, delimiter-terminated, collected
/// from the bottom-left corner sweeping to the top-right.
pub open spec fn diag_plan(g: Crossword) -> Seq<u8> {
    diag_plan_a(g, 0) + diag_plan_b(g, 1)
}

/// Anti-diagonal runs starting on the top row, columns `sc..`.
pub open spec fn anti_plan_a(g: Crossword, sc: int) -> Seq<u8>
    decreases g.spec_cols() - sc,
{
    if sc < 0 || sc >= g.spec_cols() {
        Seq::empty()
    } else {
        anti_run(g, 0, sc) + seq![DELIM] + anti_plan_a(g, sc + 1)
    }
}

/// Anti-diagonal runs starting on the last column, rows `sr..`.
pub open spec fn anti_plan_b(g: Crossword, sr: int) -> Seq<u8>
    decreases g.rows - sr,
{
    if sr < 1 || sr >= g.rows {
        Seq::empty()
    } else {
        anti_run(g, sr, g.spec_cols() - 1) + seq![DELIM] + anti_plan_b(g, sr + 1)
    }
}

/// The anti-diagonal buffer: the mirrored sweep.
pub open spec fn anti_plan(g: Crossword) -> Seq<u8> {
    anti_plan_a(g, 0) + anti_plan_b(g, 1)
}

/// Appends `src` to `out`.
fn append_bytes(out: &mut Vec<u8>, src: &[u8])
    ensures
        final(out)@ == old(out)@ + src@,
{
    let mut i: usize = 0;
    while i < src.len()
        invariant
            i <= src@.len(),
            out@ == old(out)@ + src@.subrange(0, i as int),
        decreases src@.len() - i,
    {
        proof {
            assert(src@.subrange(0, i + 1) =~= src@.subrange(0, i as int).push(src@[i as int]));
        }
        out.push(src[i]);
        i += 1;
    }
    proof {
        assert(src@.subrange(0, src@.len() as int) =~= src@);
    }
}

fn build_direct(g: &Crossword) -> (out: Vec<u8>)
    requires
        g.wf(),
    ensures
        out@ == direct_plan(*g),
{
    let rows = g.rows();
    let mut out: Vec<u8> = Vec::new();
    let mut r: usize = 0;
    while r < rows
        invariant
            g.wf(),
            rows == g.rows,
            r <= rows,
            direct_plan(*g) == out@ + direct_plan_from(*g, r as int),
        decreases rows - r,
    {
        let ghost o0 = out@;
        let rowv = g.get_row(r);
        append_bytes(&mut out, rowv.as_slice());
        out.push(DELIM);
        proof {
            assert(out@ =~= o0 + (g.row_seq(r as int) + seq![DELIM]));
            assert(o0 + (g.row_seq(r as int) + seq![DELIM]) + direct_plan_from(*g, r + 1) =~= o0
                + (g.row_seq(r as int) + seq![DELIM] + direct_plan_from(*g, r + 1)));
        }
        r += 1;
    }
    proof {
        assert(direct_plan(*g) =~= out@);
    }
    out
}

fn build_trans(g: &Crossword) -> (out: Vec<u8>)
    requires
        g.wf(),
    ensures
        out@ == trans_plan(*g),
{
    let cols = g.cols();
    let mut out: Vec<u8> = Vec::new();
    let mut c: usize = 0;
    while c < cols
        invariant
            g.wf(),
            cols as int == g.spec_cols(),
            c <= cols,
            trans_plan(*g) == out@ + trans_plan_from(*g, c as int),
        decreases cols - c,
    {
        let ghost o0 = out@;
        let colv = g.get_col(c);
        append_bytes(&mut out, colv.as_slice());
        out.push(DELIM);
        proof {
            assert(out@ =~= o0 + (g.col_seq(c as int) + seq![DELIM]));
            assert(o0 + (g.col_seq(c as int) + seq![DELIM]) + trans_plan_from(*g, c + 1) =~= o0 + (
            g.col_seq(c as int) + seq![DELIM] + trans_plan_from(*g, c + 1)));
        }
        c += 1;
    }
    proof {
        assert(trans_plan(*g) =~= out@);
    }
    out
}

/// Appends the diagonal run starting at `(sr, sc)` and a delimiter.
fn append_diag_run(g: &Crossword, out: &mut Vec<u8>, sr: usize, sc: usize)
    requires
        g.wf(),
        sr < g.rows,
        (sc as int) < g.spec_cols(),
    ensures
        final(out)@ == old(out)@ + diag_run(*g, sr as int, sc as int) + seq![DELIM],
{
    proof {
        crate::lemma_cols_le_len(*g);
    }
    let rows = g.rows();
    let cols = g.cols();
    let l1 = rows - sr;
    let l2 = cols - sc;
    let ll = if l1 < l2 {
        l1
    } else {
        l2
    };
    let ghost run = diag_run(*g, sr as int, sc as int);
    let mut j: usize = 0;
    while j < ll
        invariant
            g.wf(),
            sr < g.rows,
            (sc as int) < g.spec_cols(),
            ll == vstd::math::min(g.rows - sr, g.spec_cols() - sc),
            run == diag_run(*g, sr as int, sc as int),
            j <= ll,
            out@ == old(out)@ + run.subrange(0, j as int),
        decreases ll - j,
    {
        proof {
            crate::lemma_cols_le_len(*g);
            assert(run.subrange(0, j + 1) =~= run.subrange(0, j as int).push(run[j as int]));
        }
        out.push(g.get(sr + j, sc + j));
        j += 1;
    }
    proof {
        assert(run.subrange(0, ll as int) =~= run);
    }
    out.push(DELIM);
    proof {
        assert(final(out)@ =~= old(out)@ + run + seq![DELIM]);
    }
}

/// Appends the anti-diagonal run of `min(rows - sr, cols)` cells ending the
/// sweep row `sr`, anchored on the last column, and a delimiter.
fn append_anti_run(g: &Crossword, out: &mut Vec<u8>, sr: usize, sc: usize)
    requires
        g.wf(),
        sr < g.rows,
        (sc as int) < g.spec_cols(),
    ensures
        final(out)@ == old(out)@ + anti_run(*g, sr as int, sc as int) + seq![DELIM],
{
    proof {
        crate::lemma_cols_le_len(*g);
    }
    let rows = g.rows();
    let l1 = rows - sr;
    let l2 = sc + 1;
    let ll = if l1 < l2 {
        l1
    } else {
        l2
    };
    let ghost run = anti_run(*g, sr as int, sc as int);
    let mut j: usize = 0;
    while j < ll
        invariant
            g.wf(),
            sr < g.rows,
            (sc as int) < g.spec_cols(),
            ll == vstd::math::min(g.rows - sr, sc + 1),
            run == anti_run(*g, sr as int, sc as int),
            j <= ll,
            out@ == old(out)@ + run.subrange(0, j as int),
        decreases ll - j,
    {
        proof {
            crate::lemma_cols_le_len(*g);
            assert(run.subrange(0, j + 1) =~= run.subrange(0, j as int).push(run[j as int]));
        }
        out.push(g.get(sr + j, sc - j));
        j += 1;
    }
    proof {
        assert(run.subrange(0, ll as int) =~= run);
    }
    out.push(DELIM);
    proof {
        assert(final(out)@ =~= old(out)@ + run + seq![DELIM]);
    }
}

fn build_diag(g: &Crossword) -> (out: Vec<u8>)
    requires
        g.wf(),
    ensures
        out@ == diag_plan(*g),
{
    let rows = g.rows();
    let cols = g.cols();
    let mut out: Vec<u8> = Vec::new();
    let mut i: usize = 0;
    while i < rows
        invariant
            g.wf(),
            rows == g.rows,
            cols as int == g.spec_cols(),
            i <= rows,
            diag_plan_a(*g, 0) == out@ + diag_plan_a(*g, i as int),
        decreases rows - i,
    {
        let ghost o0 = out@;
        if cols >= 1 {
            append_diag_run(g, &mut out, rows - 1 - i, 0);
            proof {
                let sr = rows - 1 - i;
                assert(out@ =~= o0 + (diag_run(*g, sr as int, 0) + seq![DELIM]));
                assert(o0 + (diag_run(*g, sr as int, 0) + seq![DELIM]) + diag_plan_a(*g, i + 1)
                    =~= o0 + (diag_run(*g, sr as int, 0) + seq![DELIM] + diag_plan_a(*g, i + 1)));
            }
        } else {
            out.push(DELIM);
            proof {
                let sr = rows - 1 - i;
                assert(diag_run(*g, sr as int, 0) =~= Seq::<u8>::empty());
                assert(out@ =~= o0 + (diag_run(*g, sr as int, 0) + seq![DELIM]));
                assert(o0 + (diag_run(*g, sr as int, 0) + seq![DELIM]) + diag_plan_a(*g, i + 1)
                    =~= o0 + (diag_run(*g, sr as int, 0) + seq![DELIM] + diag_plan_a(*g, i + 1)));
            }
        }
        i += 1;
    }
    proof {
        assert(diag_plan_a(*g, 0) =~= out@);
    }
    let ghost part_a = out@;
    let mut sc: usize = 1;
    while sc < cols
        invariant
            g.wf(),
            rows == g.rows,
            cols as int == g.spec_cols(),
            1 <= sc <= cols || (cols == 0 && sc == 1),
            part_a == diag_plan_a(*g, 0),
            part_a + diag_plan_b(*g, 1) == out@ + diag_plan_b(*g, sc as int),
        decreases cols - sc,
    {
        let ghost o0 = out@;
        append_diag_run(g, &mut out, 0, sc);
        proof {
            assert(out@ =~= o0 + (diag_run(*g, 0, sc as int) + seq![DELIM]));
            assert(o0 + (diag_run(*g, 0, sc as int) + seq![DELIM]) + diag_plan_b(*g, sc + 1) =~= o0
                + (diag_run(*g, 0, sc as int) + seq![DELIM] + diag_plan_b(*g, sc + 1)));
        }
        sc += 1;
    }
    proof {
        assert(diag_plan(*g) =~= out@);
    }
    out
}

fn build_anti(g: &Crossword) -> (out: Vec<u8>)
    requires
        g.wf(),
    ensures
        out@ == anti_plan(*g),
{
    let rows = g.rows();
    let cols = g.cols();
    let mut out: Vec<u8> = Vec::new();
    let mut sc: usize = 0;
    while sc < cols
        invariant
            g.wf(),
            rows == g.rows,
            cols as int == g.spec_cols(),
            sc <= cols,
            anti_plan_a(*g, 0) == out@ + anti_plan_a(*g, sc as int),
        decreases cols - sc,
    {
        let ghost o0 = out@;
        append_anti_run(g, &mut out, 0, sc);
        proof {
            assert(out@ =~= o0 + (anti_run(*g, 0, sc as int) + seq![DELIM]));
            assert(o0 + (anti_run(*g, 0, sc as int) + seq![DELIM]) + anti_plan_a(*g, sc + 1) =~= o0
                + (anti_run(*g, 0, sc as int) + seq![DELIM] + anti_plan_a(*g, sc + 1)));
        }
        sc += 1;
    }
    proof {
        assert(anti_plan_a(*g, 0) =~= out@);
    }
    let ghost part_a = out@;
    let mut sr: usize = 1;
    while sr < rows
        invariant
            g.wf(),
            rows == g.rows,
            cols as int == g.spec_cols(),
            1 <= sr <= rows || sr == 1,
            part_a == anti_plan_a(*g, 0),
            part_a + anti_plan_b(*g, 1) == out@ + anti_plan_b(*g, sr as int),
        decreases rows - sr,
    {
        let ghost o0 = out@;
        if cols >= 1 {
            append_anti_run(g, &mut out, sr, cols - 1);
            proof {
                assert(out@ =~= o0 + (anti_run(*g, sr as int, g.spec_cols() - 1) + seq![DELIM]));
                assert(o0 + (anti_run(*g, sr as int, g.spec_cols() - 1) + seq![DELIM])
                    + anti_plan_b(*g, sr + 1) =~= o0 + (anti_run(*g, sr as int, g.spec_cols() - 1)
                    + seq![DELIM] + anti_plan_b(*g, sr + 1)));
            }
        } else {
            out.push(DELIM);
            proof {
                assert(anti_run(*g, sr as int, g.spec_cols() - 1) =~= Seq::<u8>::empty());
                assert(out@ =~= o0 + (anti_run(*g, sr as int, g.spec_cols() - 1) + seq![DELIM]));
                assert(o0 + (anti_run(*g, sr as int, g.spec_cols() - 1) + seq![DELIM])
                    + anti_plan_b(*g, sr + 1) =~= o0 + (anti_run(*g, sr as int, g.spec_cols() - 1)
                    + seq![DELIM] + anti_plan_b(*g, sr + 1)));
            }
        }
        sr += 1;
    }
    proof {
        assert(anti_plan(*g) =~= out@);
    }
    out
}

/// The linearized index: the grid flattened into four delimiter-joined byte
/// buffers, one per direction family; queries run an exact substring count
/// over each buffer for the word and, unless it is a palindrome, its reverse.
pub struct CrosswordNeedleSearch {
    pub plans: [Vec<u8>; 4],
}

impl CrosswordNeedleSearch {
    /// The sum of this index's counts for `w` over all four buffers.
    pub open spec fn one_way_count(self, w: Seq<u8>) -> nat {
        count_matches(self.plans[0]@, w) + count_matches(self.plans[1]@, w) + count_matches(
            self.plans[2]@,
            w,
        ) + count_matches(self.plans[3]@, w)
    }

    pub fn new(crossword: &Crossword) -> (r: Self)
        requires
            crossword.wf(),
            crossword.fits(),
        ensures
            r.plans[0]@ == direct_plan(*crossword),
            r.plans[1]@ == trans_plan(*crossword),
            r.plans[2]@ == diag_plan(*crossword),
            r.plans[3]@ == anti_plan(*crossword),
            r.solver_wf(),
    {
        let direct = build_direct(crossword);
        let transposed = build_trans(crossword);
        let diagonal = build_diag(crossword);
        let anti_diagonal = build_anti(crossword);
        proof {
            lemma_plan_len_bounds(*crossword);
        }
        CrosswordNeedleSearch { plans: [direct, transposed, diagonal, anti_diagonal] }
    }
}

/// Every buffer is at most `2 * cells + rows + cols` bytes long.
pub proof fn lemma_plan_len_bounds(g: Crossword)
    requires
        g.wf(),
    ensures
        direct_plan(g).len() <= 2 * g.data@.len() + g.rows + g.spec_cols(),
        trans_plan(g).len() <= 2 * g.data@.len() + g.rows + g.spec_cols(),
        diag_plan(g).len() <= 2 * g.data@.len() + g.rows + g.spec_cols(),
        anti_plan(g).len() <= 2 * g.data@.len() + g.rows + g.spec_cols(),
{
    let rows = g.rows as int;
    let cols = g.spec_cols();
    crate::lemma_cols_le_len(g);
    vstd::arithmetic::div_mod::lemma_fundamental_div_mod(g.data@.len() as int, rows);
    lemma_direct_len(g, 0);
    lemma_trans_len(g, 0);
    lemma_diag_a_len(g, 0);
    lemma_diag_b_len(g, 1);
    lemma_anti_a_len(g, 0);
    lemma_anti_b_len(g, 1);
    let n = g.data@.len() as int;
    assert(n == rows * cols);
    assert(rows * (cols + 1) == n + rows) by (nonlinear_arith)
        requires
            n == rows * cols,
    ;
    assert(cols * (rows + 1) == n + cols) by (nonlinear_arith)
        requires
            n == rows * cols,
    ;
    if cols >= 1 {
        assert((cols - 1) * (rows + 1) <= cols * (rows + 1)) by (nonlinear_arith)
            requires
                rows >= 0,
                cols >= 1,
        ;
    }
    if rows >= 1 {
        assert((rows - 1) * (cols + 1) <= rows * (cols + 1)) by (nonlinear_arith)
            requires
                cols >= 0,
                rows >= 1,
        ;
    }
}

proof fn lemma_direct_len(g: Crossword, r: int)
    requires
        g.wf(),
        0 <= r <= g.rows,
    ensures
        direct_plan_from(g, r).len() <= (g.rows - r) * (g.spec_cols() + 1),
    decreases g.rows - r,
{
    let rows = g.rows as int;
    let cols = g.spec_cols();
    if r < rows {
        lemma_direct_len(g, r + 1);
        assert((rows - r) * (cols + 1) == (cols + 1) + (rows - r - 1) * (cols + 1))
            by (nonlinear_arith);
    }
}

proof fn lemma_trans_len(g: Crossword, c: int)
    requires
        g.wf(),
        0 <= c <= g.spec_cols(),
    ensures
        trans_plan_from(g, c).len() <= (g.spec_cols() - c) * (g.rows + 1),
    decreases g.spec_cols() - c,
{
    let rows = g.rows as int;
    let cols = g.spec_cols();
    if c < cols {
        lemma_trans_len(g, c + 1);
        assert((cols - c) * (rows + 1) == (rows + 1) + (cols - c - 1) * (rows + 1))
            by (nonlinear_arith);
    }
}

proof fn lemma_diag_a_len(g: Crossword, i: int)
    requires
        g.wf(),
        0 <= i <= g.rows,
    ensures
        diag_plan_a(g, i).len() <= (g.rows - i) * (g.spec_cols() + 1),
    decreases g.rows - i,
{
    let rows = g.rows as int;
    let cols = g.spec_cols();
    if i < rows {
        lemma_diag_a_len(g, i + 1);
        assert((rows - i) * (cols + 1) == (cols + 1) + (rows - i - 1) * (cols + 1))
            by (nonlinear_arith);
    }
}

proof fn lemma_diag_b_len(g: Crossword, sc: int)
    requires
        g.wf(),
        1 <= sc,
    ensures
        diag_plan_b(g, sc).len() <= if sc <= g.spec_cols() {
            (g.spec_cols() - sc) * (g.rows + 1)
        } else {
            0
        },
    decreases g.spec_cols() - sc,
{
    let rows = g.rows as int;
    let cols = g.spec_cols();
    if 1 <= sc < cols {
        lemma_diag_b_len(g, sc + 1);
        assert((cols - sc) * (rows + 1) == (rows + 1) + (cols - sc - 1) * (rows + 1))
            by (nonlinear_arith);
    }
}

proof fn lemma_anti_a_len(g: Crossword, sc: int)
    requires
        g.wf(),
        0 <= sc <= g.spec_cols(),
    ensures
        anti_plan_a(g, sc).len() <= (g.spec_cols() - sc) * (g.rows + 1),
    decreases g.spec_cols() - sc,
{
    let rows = g.rows as int;
    let cols = g.spec_cols();
    if sc < cols {
        lemma_anti_a_len(g, sc + 1);
        assert((cols - sc) * (rows + 1) == (rows + 1) + (cols - sc - 1) * (rows + 1))
            by (nonlinear_arith);
    }
}

proof fn lemma_anti_b_len(g: Crossword, sr: int)
    requires
        g.wf(),
        1 <= sr,
    ensures
        anti_plan_b(g, sr).len() <= if sr <= g.rows {
            (g.rows - sr) * (g.spec_cols() + 1)
        } else {
            0
        },
    decreases g.rows - sr,
{
    let rows = g.rows as int;
    let cols = g.spec_cols();
    if 1 <= sr < rows {
        lemma_anti_b_len(g, sr + 1);
        assert((rows - sr) * (cols + 1) == (cols + 1) + (rows - sr - 1) * (cols + 1))
            by (nonlinear_arith);
    }
}

/// Rightward forward matches of `w` anchored in row `r`, cells `c..`.
pub open spec fn right_row_count(g: Crossword, w: Seq<u8>, r: int, c: int) -> nat
    decreases g.spec_cols() - c,
{
    if c < 0 || c >= g.spec_cols() {
        0
    } else {
        (if crate::forward_match(g, w, r, c, Direction::Right) {
            1nat
        } else {
            0nat
        }) + right_row_count(g, w, r, c + 1)
    }
}

/// Rightward forward matches of `w` anchored in rows `r..`.
pub open spec fn right_grid_count(g: Crossword, w: Seq<u8>, r: int) -> nat
    decreases g.rows - r,
{
    if r < 0 || r >= g.rows {
        0
    } else {
        right_row_count(g, w, r, 0) + right_grid_count(g, w, r + 1)
    }
}

/// Downward forward matches of `w` anchored in column `c`, rows `r..`.
pub open spec fn down_col_count(g: Crossword, w: Seq<u8>, c: int, r: int) -> nat
    decreases g.rows - r,
{
    if r < 0 || r >= g.rows {
        0
    } else {
        (if crate::forward_match(g, w, r, c, Direction::Down) {
            1nat
        } else {
            0nat
        }) + down_col_count(g, w, c, r + 1)
    }
}

/// Downward forward matches of `w` anchored in columns `c..`.
pub open spec fn down_grid_count(g: Crossword, w: Seq<u8>, c: int) -> nat
    decreases g.spec_cols() - c,
{
    if c < 0 || c >= g.spec_cols() {
        0
    } else {
        down_col_count(g, w, c, 0) + down_grid_count(g, w, c + 1)
    }
}

/// Forward matches of one direction in row `r`, cells `c..` (row-major
/// order, the oracle's own).
pub open spec fn dirm_row(g: Crossword, w: Seq<u8>, dir: Direction, r: int, c: int) -> nat
    decreases g.spec_cols() - c,
{
    if c < 0 || c >= g.spec_cols() {
        0
    } else {
        (if crate::forward_match(g, w, r, c, dir) {
            1nat
        } else {
            0nat
        }) + dirm_row(g, w, dir, r, c + 1)
    }
}

/// Forward matches of one direction anchored in rows `r..`, row-major.
pub open spec fn dirm_grid(g: Crossword, w: Seq<u8>, dir: Direction, r: int) -> nat
    decreases g.rows - r,
{
    if r < 0 || r >= g.rows {
        0
    } else {
        dirm_row(g, w, dir, r, 0) + dirm_grid(g, w, dir, r + 1)
    }
}

proof fn lemma_forward_row_split(g: Crossword, w: Seq<u8>, r: int, c: int)
    ensures
        crate::row_forward_count(g, w, r, c) == dirm_row(g, w, Direction::Right, r, c) + dirm_row(
            g,
            w,
            Direction::Down,
            r,
            c,
        ) + dirm_row(g, w, Direction::Diagonal, r, c) + dirm_row(
            g,
            w,
            Direction::AntiDiagonal,
            r,
            c,
        ),
    decreases g.spec_cols() - c,
{
    if 0 <= c < g.spec_cols() {
        lemma_forward_row_split(g, w, r, c + 1);
    }
}

proof fn lemma_forward_grid_split(g: Crossword, w: Seq<u8>, r: int)
    ensures
        crate::grid_forward_count(g, w, r) == dirm_grid(g, w, Direction::Right, r) + dirm_grid(
            g,
            w,
            Direction::Down,
            r,
        ) + dirm_grid(g, w, Direction::Diagonal, r) + dirm_grid(g, w, Direction::AntiDiagonal, r),
    decreases g.rows - r,
{
    if 0 <= r < g.rows {
        lemma_forward_row_split(g, w, r, 0);
        lemma_forward_grid_split(g, w, r + 1);
    }
}

proof fn lemma_right_is_dirm_row(g: Crossword, w: Seq<u8>, r: int, c: int)
    ensures
        right_row_count(g, w, r, c) == dirm_row(g, w, Direction::Right, r, c),
    decreases g.spec_cols() - c,
{
    if 0 <= c < g.spec_cols() {
        lemma_right_is_dirm_row(g, w, r, c + 1);
    }
}

proof fn lemma_right_is_dirm(g: Crossword, w: Seq<u8>, r: int)
    ensures
        right_grid_count(g, w, r) == dirm_grid(g, w, Direction::Right, r),
    decreases g.rows - r,
{
    if 0 <= r < g.rows {
        lemma_right_is_dirm_row(g, w, r, 0);
        lemma_right_is_dirm(g, w, r + 1);
    }
}

/// Downward matches summed column by column, columns `c..`, each column's
/// rows `r0..`.
pub open spec fn down_grid_from(g: Crossword, w: Seq<u8>, c: int, r0: int) -> nat
    decreases g.spec_cols() - c,
{
    if c < 0 || c >= g.spec_cols() {
        0
    } else {
        down_col_count(g, w, c, r0) + down_grid_from(g, w, c + 1, r0)
    }
}

proof fn lemma_down_from_base(g: Crossword, w: Seq<u8>, c: int, r0: int)
    requires
        r0 >= g.rows,
    ensures
        down_grid_from(g, w, c, r0) == 0,
    decreases g.spec_cols() - c,
{
    if 0 <= c < g.spec_cols() {
        lemma_down_from_base(g, w, c + 1, r0);
    }
}

proof fn lemma_down_strip_row(g: Crossword, w: Seq<u8>, c: int, r0: int)
    requires
        0 <= r0 < g.rows,
    ensures
        down_grid_from(g, w, c, r0) == dirm_row(g, w, Direction::Down, r0, c) + down_grid_from(
            g,
            w,
            c,
            r0 + 1,
        ),
    decreases g.spec_cols() - c,
{
    if 0 <= c < g.spec_cols() {
        assert(down_col_count(g, w, c, r0) == (if crate::forward_match(
            g,
            w,
            r0,
            c,
            Direction::Down,
        ) {
            1nat
        } else {
            0nat
        }) + down_col_count(g, w, c, r0 + 1));
        lemma_down_strip_row(g, w, c + 1, r0);
    }
}

proof fn lemma_down_exchange_from(g: Crossword, w: Seq<u8>, r0: int)
    requires
        0 <= r0,
    ensures
        down_grid_from(g, w, 0, r0) == dirm_grid(g, w, Direction::Down, r0),
    decreases g.rows - r0,
{
    if r0 >= g.rows {
        lemma_down_from_base(g, w, 0, r0);
    } else {
        lemma_down_strip_row(g, w, 0, r0);
        lemma_down_exchange_from(g, w, r0 + 1);
    }
}

proof fn lemma_down_is_from(g: Crossword, w: Seq<u8>, c: int)
    ensures
        down_grid_count(g, w, c) == down_grid_from(g, w, c, 0),
    decreases g.spec_cols() - c,
{
    if 0 <= c < g.spec_cols() {
        lemma_down_is_from(g, w, c + 1);
    }
}

/// The oracle's forward count decomposes by direction, and the row and
/// column buffer sums are the rightward and downward shares in the oracle's
/// own row-major order; what remains open of the linearized index's
/// equivalence with the oracle is re-summing the two diagonal sweeps into
/// this order.
pub proof fn lemma_forward_split_by_direction(g: Crossword, w: Seq<u8>)
    requires
        w.len() >= 1,
    ensures
        crate::forward_count(g, w) == right_grid_count(g, w, 0) + down_grid_count(g, w, 0)
            + dirm_grid(g, w, Direction::Diagonal, 0) + dirm_grid(
            g,
            w,
            Direction::AntiDiagonal,
            0,
        ),
{
    lemma_forward_grid_split(g, w, 0);
    lemma_right_is_dirm(g, w, 0);
    lemma_down_is_from(g, w, 0);
    lemma_down_exchange_from(g, w, 0);
}

proof fn lemma_count_matches_shift(hay1: Seq<u8>, hay2: Seq<u8>, w: Seq<u8>, j: int)
    requires
        0 <= j,
    ensures
        count_matches_from(hay1 + hay2, w, hay1.len() + j) == count_matches_from(hay2, w, j),
    decreases hay2.len() - j + 1,
{
    let h = hay1 + hay2;
    if j > hay2.len() {
    } else {
        if match_at(h, w, hay1.len() + j) || match_at(hay2, w, j) {
            assert(h.subrange(hay1.len() + j, hay1.len() + j + w.len() as int) =~= hay2.subrange(
                j,
                j + w.len() as int,
            ));
        }
        lemma_count_matches_shift(hay1, hay2, w, j + 1);
    }
}

proof fn lemma_count_matches_split_from(hay1: Seq<u8>, hay2: Seq<u8>, w: Seq<u8>, i: int)
    requires
        w.len() >= 1,
        forall|k: int| 0 <= k < w.len() ==> w[k] != DELIM,
        0 <= i <= hay1.len(),
    ensures
        count_matches_from((hay1 + seq![DELIM]) + hay2, w, i) == count_matches_from(hay1, w, i)
            + count_matches(hay2, w),
    decreases hay1.len() - i,
{
    let h = (hay1 + seq![DELIM]) + hay2;
    assert(h[hay1.len() as int] == DELIM);
    if i == hay1.len() {
        assert(!match_at(h, w, i)) by {
            if match_at(h, w, i) {
                assert(h.subrange(i, i + w.len() as int)[0] == h[i]);
                assert(w[0] == DELIM);
            }
        }
        lemma_count_skip(hay1, w, i, hay1.len() as int + 1);
        lemma_count_matches_shift(hay1 + seq![DELIM], hay2, w, 0);
        assert(count_matches_from(h, w, i) == count_matches_from(h, w, i + 1));
        assert((hay1 + seq![DELIM]).len() + 0 == i + 1);
    } else {
        if i + w.len() <= hay1.len() {
            if match_at(h, w, i) || match_at(hay1, w, i) {
                assert(h.subrange(i, i + w.len() as int) =~= hay1.subrange(
                    i,
                    i + w.len() as int,
                ));
            }
        } else {
            assert(!match_at(hay1, w, i));
            assert(!match_at(h, w, i)) by {
                if match_at(h, w, i) {
                    assert(h.subrange(i, i + w.len() as int)[hay1.len() - i] == h[
                        hay1.len() as int
                    ]);
                    assert(w[hay1.len() - i] == DELIM);
                }
            }
        }
        lemma_count_matches_split_from(hay1, hay2, w, i + 1);
    }
}

/// A delimiter-free pattern cannot straddle the separator: its matches in a
/// joined buffer are its matches in each part.
pub proof fn lemma_count_matches_split(hay1: Seq<u8>, hay2: Seq<u8>, w: Seq<u8>)
    requires
        w.len() >= 1,
        forall|k: int| 0 <= k < w.len() ==> w[k] != DELIM,
    ensures
        count_matches(hay1 + seq![DELIM] + hay2, w) == count_matches(hay1, w) + count_matches(
            hay2,
            w,
        ),
{
    lemma_count_matches_split_from(hay1, hay2, w, 0);
}

proof fn lemma_count_row_content(g: Crossword, w: Seq<u8>, r: int, c: int)
    requires
        g.wf(),
        0 <= r < g.rows,
        0 <= c,
        w.len() >= 1,
    ensures
        count_matches_from(g.row_seq(r), w, c) == right_row_count(g, w, r, c),
    decreases g.spec_cols() - c + 1,
{
    if c > g.spec_cols() {
        assert(count_matches_from(g.row_seq(r), w, c) == 0);
        assert(right_row_count(g, w, r, c) == 0);
    } else {
        if match_at(g.row_seq(r), w, c) || crate::forward_match(g, w, r, c, Direction::Right) {
            assert(g.row_seq(r).subrange(c, c + w.len() as int) =~= g.run_seq(
                r,
                c,
                Direction::Right,
                w.len() as int,
            ));
        }
        lemma_count_row_content(g, w, r, c + 1);
    }
}

proof fn lemma_count_col_content(g: Crossword, w: Seq<u8>, c: int, r: int)
    requires
        g.wf(),
        0 <= c < g.spec_cols(),
        0 <= r,
        w.len() >= 1,
    ensures
        count_matches_from(g.col_seq(c), w, r) == down_col_count(g, w, c, r),
    decreases g.rows - r + 1,
{
    if r > g.rows {
        assert(count_matches_from(g.col_seq(c), w, r) == 0);
        assert(down_col_count(g, w, c, r) == 0);
    } else {
        if match_at(g.col_seq(c), w, r) || crate::forward_match(g, w, r, c, Direction::Down) {
            assert(g.col_seq(c).subrange(r, r + w.len() as int) =~= g.run_seq(
                r,
                c,
                Direction::Down,
                w.len() as int,
            ));
        }
        lemma_count_col_content(g, w, c, r + 1);
    }
}

proof fn lemma_direct_count_from(g: Crossword, w: Seq<u8>, r: int)
    requires
        g.wf(),
        w.len() >= 1,
        forall|k: int| 0 <= k < w.len() ==> w[k] != DELIM,
        0 <= r,
    ensures
        count_matches(direct_plan_from(g, r), w) == right_grid_count(g, w, r),
    decreases g.rows - r,
{
    if r >= g.rows {
        assert(count_matches_from(Seq::<u8>::empty(), w, 0) == count_matches_from(
            Seq::<u8>::empty(),
            w,
            1,
        ));
        assert(count_matches(direct_plan_from(g, r), w) == 0);
    } else {
        lemma_count_matches_split(g.row_seq(r), direct_plan_from(g, r + 1), w);
        lemma_count_row_content(g, w, r, 0);
        lemma_direct_count_from(g, w, r + 1);
    }
}

proof fn lemma_trans_count_from(g: Crossword, w: Seq<u8>, c: int)
    requires
        g.wf(),
        w.len() >= 1,
        forall|k: int| 0 <= k < w.len() ==> w[k] != DELIM,
        0 <= c,
    ensures
        count_matches(trans_plan_from(g, c), w) == down_grid_count(g, w, c),
    decreases g.spec_cols() - c,
{
    if c >= g.spec_cols() {
        assert(count_matches_from(Seq::<u8>::empty(), w, 0) == count_matches_from(
            Seq::<u8>::empty(),
            w,
            1,
        ));
        assert(count_matches(trans_plan_from(g, c), w) == 0);
    } else {
        lemma_count_matches_split(g.col_seq(c), trans_plan_from(g, c + 1), w);
        lemma_count_col_content(g, w, c, 0);
        lemma_trans_count_from(g, w, c + 1);
    }
}

/// For any delimiter-free pattern, the row buffer holds exactly the grid's
/// rightward forward matches and the column buffer exactly its downward
/// ones: no match is lost at a row or column edge and none is invented
/// across one.
pub proof fn lemma_row_col_plans_exact(g: Crossword, w: Seq<u8>)
    requires
        g.wf(),
        w.len() >= 1,
        forall|k: int| 0 <= k < w.len() ==> w[k] != DELIM,
    ensures
        count_matches(direct_plan(g), w) == right_grid_count(g, w, 0),
        count_matches(trans_plan(g), w) == down_grid_count(g, w, 0),
{
    lemma_direct_count_from(g, w, 0);
    lemma_trans_count_from(g, w, 0);
}

/// Diagonal forward matches of `w` within the run starting at `(sr, sc)`,
/// offsets `j..`.
pub open spec fn diag_run_fwd(g: Crossword, w: Seq<u8>, sr: int, sc: int, j: int) -> nat
    decreases vstd::math::min(g.rows - sr, g.spec_cols() - sc) - j,
{
    if j < 0 || j >= vstd::math::min(g.rows - sr, g.spec_cols() - sc) {
        0
    } else {
        (if crate::forward_match(g, w, sr + j, sc + j, Direction::Diagonal) {
            1nat
        } else {
            0nat
        }) + diag_run_fwd(g, w, sr, sc, j + 1)
    }
}

/// Anti-diagonal forward matches of `w` within the run starting at
/// `(sr, sc)`, offsets `j..`.
pub open spec fn anti_run_fwd(g: Crossword, w: Seq<u8>, sr: int, sc: int, j: int) -> nat
    decreases vstd::math::min(g.rows - sr, sc + 1) - j,
{
    if j < 0 || j >= vstd::math::min(g.rows - sr, sc + 1) {
        0
    } else {
        (if crate::forward_match(g, w, sr + j, sc - j, Direction::AntiDiagonal) {
            1nat
        } else {
            0nat
        }) + anti_run_fwd(g, w, sr, sc, j + 1)
    }
}

/// Diagonal forward matches over the first sweep family: runs starting on
/// the first column, bottom row first.
pub open spec fn diag_a_fwd(g: Crossword, w: Seq<u8>, i: int) -> nat
    decreases g.rows - i,
{
    if i < 0 || i >= g.rows {
        0
    } else {
        diag_run_fwd(g, w, g.rows - 1 - i, 0, 0) + diag_a_fwd(g, w, i + 1)
    }
}

/// Diagonal forward matches over the second sweep family: runs starting on
/// the top row, columns `sc..`.
pub open spec fn diag_b_fwd(g: Crossword, w: Seq<u8>, sc: int) -> nat
    decreases g.spec_cols() - sc,
{
    if sc < 1 || sc >= g.spec_cols() {
        0
    } else {
        diag_run_fwd(g, w, 0, sc, 0) + diag_b_fwd(g, w, sc + 1)
    }
}

/// Anti-diagonal forward matches over the first sweep family: runs starting
/// on the top row.
pub open spec fn anti_a_fwd(g: Crossword, w: Seq<u8>, sc: int) -> nat
    decreases g.spec_cols() - sc,
{
    if sc < 0 || sc >= g.spec_cols() {
        0
    } else {
        anti_run_fwd(g, w, 0, sc, 0) + anti_a_fwd(g, w, sc + 1)
    }
}

/// Anti-diagonal forward matches over the second sweep family: runs
/// starting on the last column, rows `sr..`.
pub open spec fn anti_b_fwd(g: Crossword, w: Seq<u8>, sr: int) -> nat
    decreases g.rows - sr,
{
    if sr < 1 || sr >= g.rows {
        0
    } else {
        anti_run_fwd(g, w, sr, g.spec_cols() - 1, 0) + anti_b_fwd(g, w, sr + 1)
    }
}

proof fn lemma_count_diag_run(g: Crossword, w: Seq<u8>, sr: int, sc: int, j: int)
    requires
        g.wf(),
        0 <= sr < g.rows,
        0 <= sc < g.spec_cols(),
        0 <= j,
        w.len() >= 1,
    ensures
        count_matches_from(diag_run(g, sr, sc), w, j) == diag_run_fwd(g, w, sr, sc, j),
    decreases vstd::math::min(g.rows - sr, g.spec_cols() - sc) - j + 1,
{
    let run = diag_run(g, sr, sc);
    let ll = vstd::math::min(g.rows - sr, g.spec_cols() - sc);
    if j > ll {
        assert(count_matches_from(run, w, j) == 0);
    } else {
        if match_at(run, w, j) || crate::forward_match(g, w, sr + j, sc + j, Direction::Diagonal) {
            assert(run.subrange(j, j + w.len() as int) =~= g.run_seq(
                sr + j,
                sc + j,
                Direction::Diagonal,
                w.len() as int,
            ));
        }
        lemma_count_diag_run(g, w, sr, sc, j + 1);
    }
}

proof fn lemma_count_anti_run(g: Crossword, w: Seq<u8>, sr: int, sc: int, j: int)
    requires
        g.wf(),
        0 <= sr < g.rows,
        0 <= sc < g.spec_cols(),
        0 <= j,
        w.len() >= 1,
    ensures
        count_matches_from(anti_run(g, sr, sc), w, j) == anti_run_fwd(g, w, sr, sc, j),
    decreases vstd::math::min(g.rows - sr, sc + 1) - j + 1,
{
    let run = anti_run(g, sr, sc);
    let ll = vstd::math::min(g.rows - sr, sc + 1);
    if j > ll {
        assert(count_matches_from(run, w, j) == 0);
    } else {
        if match_at(run, w, j) || crate::forward_match(
            g,
            w,
            sr + j,
            sc - j,
            Direction::AntiDiagonal,
        ) {
            assert(run.subrange(j, j + w.len() as int) =~= g.run_seq(
                sr + j,
                sc - j,
                Direction::AntiDiagonal,
                w.len() as int,
            ));
        }
        lemma_count_anti_run(g, w, sr, sc, j + 1);
    }
}

proof fn lemma_diag_a_count(g: Crossword, w: Seq<u8>, i: int)
    requires
        g.wf(),
        w.len() >= 1,
        forall|k: int| 0 <= k < w.len() ==> w[k] != DELIM,
        0 <= i,
        g.spec_cols() >= 1,
    ensures
        count_matches(diag_plan_a(g, i), w) == diag_a_fwd(g, w, i),
    decreases g.rows - i,
{
    if i >= g.rows {
        assert(count_matches_from(Seq::<u8>::empty(), w, 0) == count_matches_from(
            Seq::<u8>::empty(),
            w,
            1,
        ));
        assert(count_matches(diag_plan_a(g, i), w) == 0);
    } else {
        lemma_count_matches_split(diag_run(g, g.rows - 1 - i, 0), diag_plan_a(g, i + 1), w);
        lemma_count_diag_run(g, w, g.rows - 1 - i, 0, 0);
        lemma_diag_a_count(g, w, i + 1);
    }
}

proof fn lemma_diag_b_count(g: Crossword, w: Seq<u8>, sc: int)
    requires
        g.wf(),
        w.len() >= 1,
        forall|k: int| 0 <= k < w.len() ==> w[k] != DELIM,
        1 <= sc,
    ensures
        count_matches(diag_plan_b(g, sc), w) == diag_b_fwd(g, w, sc),
    decreases g.spec_cols() - sc,
{
    if sc >= g.spec_cols() {
        assert(count_matches_from(Seq::<u8>::empty(), w, 0) == count_matches_from(
            Seq::<u8>::empty(),
            w,
            1,
        ));
        assert(count_matches(diag_plan_b(g, sc), w) == 0);
    } else {
        lemma_count_matches_split(diag_run(g, 0, sc), diag_plan_b(g, sc + 1), w);
        lemma_count_diag_run(g, w, 0, sc, 0);
        lemma_diag_b_count(g, w, sc + 1);
    }
}

proof fn lemma_anti_a_count(g: Crossword, w: Seq<u8>, sc: int)
    requires
        g.wf(),
        w.len() >= 1,
        forall|k: int| 0 <= k < w.len() ==> w[k] != DELIM,
        0 <= sc,
    ensures
        count_matches(anti_plan_a(g, sc), w) == anti_a_fwd(g, w, sc),
    decreases g.spec_cols() - sc,
{
    if sc >= g.spec_cols() {
        assert(count_matches_from(Seq::<u8>::empty(), w, 0) == count_matches_from(
            Seq::<u8>::empty(),
            w,
            1,
        ));
        assert(count_matches(anti_plan_a(g, sc), w) == 0);
    } else {
        lemma_count_matches_split(anti_run(g, 0, sc), anti_plan_a(g, sc + 1), w);
        lemma_count_anti_run(g, w, 0, sc, 0);
        lemma_anti_a_count(g, w, sc + 1);
    }
}

proof fn lemma_anti_b_count(g: Crossword, w: Seq<u8>, sr: int)
    requires
        g.wf(),
        w.len() >= 1,
        forall|k: int| 0 <= k < w.len() ==> w[k] != DELIM,
        1 <= sr,
        g.spec_cols() >= 1,
    ensures
        count_matches(anti_plan_b(g, sr), w) == anti_b_fwd(g, w, sr),
    decreases g.rows - sr,
{
    if sr >= g.rows {
        assert(count_matches_from(Seq::<u8>::empty(), w, 0) == count_matches_from(
            Seq::<u8>::empty(),
            w,
            1,
        ));
        assert(count_matches(anti_plan_b(g, sr), w) == 0);
    } else {
        lemma_count_matches_split(anti_run(g, sr, g.spec_cols() - 1), anti_plan_b(g, sr + 1), w);
        lemma_count_anti_run(g, w, sr, g.spec_cols() - 1, 0);
        lemma_anti_b_count(g, w, sr + 1);
    }
}

/// For any delimiter-free pattern, the two diagonal buffers hold exactly
/// the diagonal and anti-diagonal forward matches of the grid, enumerated
/// run by run in sweep order; the sweeps start a run on every cell of the
/// first column, the top row, and the last column, so every diagonal of the
/// grid appears exactly once.
pub proof fn lemma_diag_plans_exact(g: Crossword, w: Seq<u8>)
    requires
        g.wf(),
        g.spec_cols() >= 1,
        w.len() >= 1,
        forall|k: int| 0 <= k < w.len() ==> w[k] != DELIM,
    ensures
        count_matches(diag_plan(g), w) == diag_a_fwd(g, w, 0) + diag_b_fwd(g, w, 1),
        count_matches(anti_plan(g), w) == anti_a_fwd(g, w, 0) + anti_b_fwd(g, w, 1),
{
    lemma_diag_a_count(g, w, 0);
    lemma_diag_b_count(g, w, 1);
    lemma_anti_a_count(g, w, 0);
    lemma_anti_b_count(g, w, 1);
    lemma_plan_concat_split(g, w);
}

/// Matches split across a join whose left part ends with the delimiter.
proof fn lemma_concat_left_delim(l1: Seq<u8>, l2: Seq<u8>, w: Seq<u8>)
    requires
        w.len() >= 1,
        forall|k: int| 0 <= k < w.len() ==> w[k] != DELIM,
        l1.len() >= 1,
        l1.last() == DELIM,
    ensures
        count_matches(l1 + l2, w) == count_matches(l1, w) + count_matches(l2, w),
{
    let body = l1.drop_last();
    assert(l1 =~= body + seq![DELIM]);
    assert(l1 + l2 =~= body + seq![DELIM] + l2);
    lemma_count_matches_split(body, l2, w);
    lemma_count_matches_split(body, Seq::empty(), w);
    assert(count_matches_from(Seq::<u8>::empty(), w, 0) == count_matches_from(
        Seq::<u8>::empty(),
        w,
        1,
    ));
    assert(l1 =~= body + seq![DELIM] + Seq::<u8>::empty());
}

proof fn lemma_diag_a_ends_delim(g: Crossword, i: int)
    requires
        0 <= i < g.rows,
    ensures
        diag_plan_a(g, i).len() >= 1,
        diag_plan_a(g, i).last() == DELIM,
    decreases g.rows - i,
{
    if i + 1 < g.rows {
        lemma_diag_a_ends_delim(g, i + 1);
    } else {
        assert(diag_plan_a(g, i + 1) =~= Seq::<u8>::empty());
    }
}

proof fn lemma_anti_a_ends_delim(g: Crossword, sc: int)
    requires
        0 <= sc < g.spec_cols(),
    ensures
        anti_plan_a(g, sc).len() >= 1,
        anti_plan_a(g, sc).last() == DELIM,
    decreases g.spec_cols() - sc,
{
    if sc + 1 < g.spec_cols() {
        lemma_anti_a_ends_delim(g, sc + 1);
    } else {
        assert(anti_plan_a(g, sc + 1) =~= Seq::<u8>::empty());
    }
}

proof fn lemma_plan_concat_split(g: Crossword, w: Seq<u8>)
    requires
        g.wf(),
        g.spec_cols() >= 1,
        w.len() >= 1,
        forall|k: int| 0 <= k < w.len() ==> w[k] != DELIM,
    ensures
        count_matches(diag_plan(g), w) == count_matches(diag_plan_a(g, 0), w) + count_matches(
            diag_plan_b(g, 1),
            w,
        ),
        count_matches(anti_plan(g), w) == count_matches(anti_plan_a(g, 0), w) + count_matches(
            anti_plan_b(g, 1),
            w,
        ),
{
    lemma_diag_a_ends_delim(g, 0);
    lemma_concat_left_delim(diag_plan_a(g, 0), diag_plan_b(g, 1), w);
    lemma_anti_a_ends_delim(g, 0);
    lemma_concat_left_delim(anti_plan_a(g, 0), anti_plan_b(g, 1), w);
}

/// Building the linearized index twice over one grid gives the same answer
/// to every query: the four buffers are functions of the grid alone, and a
/// query is a function of the buffers alone.
pub proof fn lemma_needle_build_invariant(
    g: Crossword,
    a: CrosswordNeedleSearch,
    b: CrosswordNeedleSearch,
    w: Seq<u8>,
)
    requires
        a.plans[0]@ == direct_plan(g),
        a.plans[1]@ == trans_plan(g),
        a.plans[2]@ == diag_plan(g),
        a.plans[3]@ == anti_plan(g),
        b.plans[0]@ == direct_plan(g),
        b.plans[1]@ == trans_plan(g),
        b.plans[2]@ == diag_plan(g),
        b.plans[3]@ == anti_plan(g),
    ensures
        a.count_spec(w) == b.count_spec(w),
{
}

/// A palindromic query is searched once: the one pattern already covers both
/// orientations, so the count is the plain one-way count, not its double.
pub proof fn lemma_needle_palindrome_once(s: CrosswordNeedleSearch, w: Seq<u8>)
    requires
        w.len() >= 1,
        w == w.reverse(),
    ensures
        s.count_spec(w) == s.one_way_count(w),
{
}

impl Solver for CrosswordNeedleSearch {
    open spec fn solver_wf(&self) -> bool {
        2 * (self.plans[0]@.len() + self.plans[1]@.len() + self.plans[2]@.len()
            + self.plans[3]@.len()) <= usize::MAX
    }

    open spec fn count_spec(&self, word: Seq<u8>) -> nat {
        if word.len() == 0 {
            0
        } else if word == word.reverse() {
            self.one_way_count(word)
        } else {
            self.one_way_count(word) + self.one_way_count(word.reverse())
        }
    }

    fn count_occurrences(&self, word: &[u8]) -> (r: usize) {
        if word.len() == 0 {
            return 0;
        }
        let c0 = count_in_plan(&self.plans[0], word);
        let c1 = count_in_plan(&self.plans[1], word);
        let c2 = count_in_plan(&self.plans[2], word);
        let c3 = count_in_plan(&self.plans[3], word);
        let mut total = c0 + c1 + c2 + c3;
        if !is_palindrome(word) {
            let rev = reverse_bytes(word);
            let d0 = count_in_plan(&self.plans[0], rev.as_slice());
            let d1 = count_in_plan(&self.plans[1], rev.as_slice());
            let d2 = count_in_plan(&self.plans[2], rev.as_slice());
            let d3 = count_in_plan(&self.plans[3], rev.as_slice());
            total = total + d0 + d1 + d2 + d3;
        }
        total
    }
}

} // verus!
