use vstd::prelude::*;

pub mod hashmap;
pub mod naive;
pub mod needle;
pub mod size;
pub mod trie;
pub mod utils;

pub use hashmap::CrosswordHashMap;
pub use naive::NaiveSolver;
pub use needle::CrosswordNeedleSearch;
pub use size::EstimateSize;
pub use trie::Trie;

verus! {

/// One of the four scan axes of a crossword grid. A direction is a stateless
/// value: it only carries the point-stepping math used to walk runs of cells.
#[derive(Clone, Copy, PartialEq, Eq, Structural, Debug)]
pub enum Direction {
    Right,
    Down,
    Diagonal,
    AntiDiagonal,
}

impl Direction {
    /// The point reached from `point` after `len` steps along `self`,
    /// over unbounded integers.
    pub open spec fn shift_spec(self, point: (int, int), len: int) -> (int, int) {
        match self {
            Direction::Right => (point.0, point.1 + len),
            Direction::Down => (point.0 + len, point.1),
            Direction::Diagonal => (point.0 + len, point.1 + len),
            Direction::AntiDiagonal => (point.0 + len, point.1 - len),
        }
    }

    /// Whether the point `len` steps along `self` from `point` still lies in a
    /// grid of extent `bounds` (rows, cols); for the anti-diagonal this also
    /// demands that the column does not underflow.
    pub open spec fn shift_in_bounds(self, point: (int, int), len: int, bounds: (int, int)) -> bool {
        let q = self.shift_spec(point, len);
        0 <= q.1 && q.0 < bounds.0 && q.1 < bounds.1
    }

    /// Steps `point` by `len` cells along `self`.
    pub fn shift_point(self, point: (usize, usize), len: usize) -> (r: (usize, usize))
        requires
            (self is Right || self is Diagonal) ==> point.1 + len <= usize::MAX,
            (self is Down || self is Diagonal || self is AntiDiagonal) ==> point.0 + len <= usize::MAX,
            self is AntiDiagonal ==> len <= point.1,
        ensures
            (r.0 as int, r.1 as int) == self.shift_spec((point.0 as int, point.1 as int), len as int),
    {
        match self {
            Direction::Right => (point.0, point.1 + len),
            Direction::Down => (point.0 + len, point.1),
            Direction::Diagonal => (point.0 + len, point.1 + len),
            Direction::AntiDiagonal => (point.0 + len, point.1 - len),
        }
    }

    /// Steps `point` by `len` cells along `self`, rejecting any step that
    /// leaves a grid of extent `bounds` or underflows the column index.
    pub fn shift_point_bounded(
        self,
        point: (usize, usize),
        len: usize,
        bounds: (usize, usize),
    ) -> (r: Option<(usize, usize)>)
        ensures
            match r {
                Some(q) => self.shift_in_bounds(
                    (point.0 as int, point.1 as int),
                    len as int,
                    (bounds.0 as int, bounds.1 as int),
                ) && (q.0 as int, q.1 as int)
                    == self.shift_spec((point.0 as int, point.1 as int), len as int),
                None => !self.shift_in_bounds(
                    (point.0 as int, point.1 as int),
                    len as int,
                    (bounds.0 as int, bounds.1 as int),
                ),
            },
    {
        let row_moves = !matches!(self, Direction::Right);
        let col_grows = matches!(self, Direction::Right | Direction::Diagonal);

        if matches!(self, Direction::AntiDiagonal) && point.1 < len {
            return None;
        }

        let row_ok = if row_moves {
            point.0 < bounds.0 && len < bounds.0 - point.0
        } else {
            point.0 < bounds.0
        };

        let col_ok = if col_grows {
            point.1 < bounds.1 && len < bounds.1 - point.1
        } else if matches!(self, Direction::AntiDiagonal) {
            point.1 - len < bounds.1
        } else {
            point.1 < bounds.1
        };

        if row_ok && col_ok {
            Some(self.shift_point(point, len))
        } else {
            None
        }
    }
}

/// Why a grid text failed to parse.
#[derive(Clone, Copy, PartialEq, Eq, Structural, Debug)]
pub enum ParseError {
    /// The text held no non-blank line.
    EmptyGrid,
    /// Two non-blank lines had different lengths.
    InconsistentRowLength,
}

/// The first index `>= i` holding a newline byte, or the end of `s`.
pub open spec fn line_end(s: Seq<u8>, i: int) -> int
    decreases s.len() - i,
{
    if i < 0 || i >= s.len() {
        s.len() as int
    } else if s[i] == 10 {
        i
    } else {
        line_end(s, i + 1)
    }
}

/// `line_end` stays within `[i, s.len()]`, points at a newline or the end,
/// and skips no newline.
pub proof fn lemma_line_end_bounds(s: Seq<u8>, i: int)
    requires
        0 <= i <= s.len(),
    ensures
        i <= line_end(s, i) <= s.len(),
        line_end(s, i) < s.len() ==> s[line_end(s, i)] == 10,
        forall|j: int| i <= j < line_end(s, i) ==> s[j] != 10,
    decreases s.len() - i,
{
    if i < s.len() && s[i] != 10 {
        lemma_line_end_bounds(s, i + 1);
    }
}

/// The non-blank lines of `s` from position `i` on: maximal newline-free
/// stretches, empty ones skipped.
pub open spec fn nb_lines_from(s: Seq<u8>, i: int) -> Seq<Seq<u8>>
    decreases s.len() - i,
    when 0 <= i
    via nb_lines_from_dec
{
    if i >= s.len() {
        Seq::empty()
    } else {
        let e = line_end(s, i);
        let line = s.subrange(i, e);
        let rest = if e < s.len() {
            nb_lines_from(s, e + 1)
        } else {
            Seq::empty()
        };
        if line.len() == 0 {
            rest
        } else {
            seq![line] + rest
        }
    }
}

#[via_fn]
proof fn nb_lines_from_dec(s: Seq<u8>, i: int) {
    if 0 <= i < s.len() {
        lemma_line_end_bounds(s, i);
    }
}

/// The non-blank lines of `s`.
pub open spec fn nb_lines(s: Seq<u8>) -> Seq<Seq<u8>> {
    nb_lines_from(s, 0)
}

/// The lines of `ls`, concatenated.
pub open spec fn concat_lines(ls: Seq<Seq<u8>>) -> Seq<u8>
    decreases ls.len(),
{
    if ls.len() == 0 {
        Seq::empty()
    } else {
        concat_lines(ls.drop_last()) + ls.last()
    }
}

/// Appending a line to a block appends its bytes to the concatenation.
pub proof fn lemma_concat_push(ls: Seq<Seq<u8>>, l: Seq<u8>)
    ensures
        concat_lines(ls.push(l)) == concat_lines(ls) + l,
{
    assert(ls.push(l).drop_last() =~= ls);
    assert(ls.push(l).last() == l);
}

/// A row-major byte matrix: `rows` rows, each of `data.len() / rows` columns.
#[derive(Clone, PartialEq, Eq, Debug)]
pub struct Crossword {
    pub rows: usize,
    pub data: Vec<u8>,
}

impl Crossword {
    /// Number of columns, as unbounded arithmetic.
    pub open spec fn spec_cols(self) -> int {
        self.data@.len() as int / self.rows as int
    }

    /// Structural invariant: at least one row, and the flat buffer divides
    /// evenly into rows.
    pub open spec fn wf(self) -> bool {
        &&& self.rows >= 1
        &&& self.data@.len() as int % self.rows as int == 0
    }

    /// Headroom demanded of grids handed to the solvers: occurrence counts are
    /// bounded by small multiples of the cell count and of the row count, and
    /// must fit in `usize`.
    pub open spec fn fits(self) -> bool {
        &&& self.data@.len() * 32 <= usize::MAX
        &&& self.rows * 32 <= usize::MAX
    }

    /// The byte stored at `(r, c)`.
    pub open spec fn spec_cell(self, r: int, c: int) -> u8 {
        self.data@[r * self.spec_cols() + c]
    }

    /// Whether `(r, c)` names a cell of the grid.
    pub open spec fn in_grid(self, r: int, c: int) -> bool {
        0 <= r < self.rows && 0 <= c < self.spec_cols()
    }

    /// Whether a run of `len` cells anchored at `(r, c)` along `dir` lies
    /// entirely inside the grid. Start and end cell in bounds imply every
    /// intermediate cell in bounds, all four directions being monotone.
    pub open spec fn in_bounds_run(self, r: int, c: int, dir: Direction, len: int) -> bool {
        let end = dir.shift_spec((r, c), len - 1);
        &&& len >= 1
        &&& self.in_grid(r, c)
        &&& self.in_grid(end.0, end.1)
    }

    /// The bytes of the run of `len` cells anchored at `(r, c)` along `dir`.
    pub open spec fn run_seq(self, r: int, c: int, dir: Direction, len: int) -> Seq<u8> {
        Seq::new(len as nat, |i: int| {
            let p = dir.shift_spec((r, c), i);
            self.spec_cell(p.0, p.1)
        })
    }

    /// The bytes of row `r`.
    pub open spec fn row_seq(self, r: int) -> Seq<u8> {
        Seq::new(self.spec_cols() as nat, |j: int| self.spec_cell(r, j))
    }

    /// The bytes of column `c`, top to bottom.
    pub open spec fn col_seq(self, c: int) -> Seq<u8> {
        Seq::new(self.rows as nat, |i: int| self.spec_cell(i, c))
    }

    pub fn new(rows: usize, data: Vec<u8>) -> (r: Self)
        requires
            rows >= 1,
            data@.len() as int % rows as int == 0,
        ensures
            r.rows == rows,
            r.data@ == data@,
            r.wf(),
    {
        Self { rows, data }
    }

    /// Parses newline-separated rows of bytes: blank lines are skipped, and
    /// all non-blank rows must share one length, which becomes the column
    /// count. Fails when no non-blank row exists or when two rows differ in
    /// length.
    pub fn parse(input: &[u8]) -> (r: Result<Self, ParseError>)
        ensures
            match r {
                Ok(g) => {
                    let nb = nb_lines(input@);
                    &&& nb.len() >= 1
                    &&& forall|i: int| 0 <= i < nb.len() ==> #[trigger] nb[i].len() == nb[0].len()
                    &&& g.wf()
                    &&& g.rows == nb.len()
                    &&& g.spec_cols() == nb[0].len()
                    &&& g.data@ == concat_lines(nb)
                },
                Err(ParseError::EmptyGrid) => nb_lines(input@).len() == 0,
                Err(ParseError::InconsistentRowLength) => {
                    let nb = nb_lines(input@);
                    &&& nb.len() >= 1
                    &&& exists|i: int|
                        0 <= i < nb.len() && #[trigger] nb[i].len() != nb[0].len()
                },
            },
    {
        let s_len = input.len();
        let ghost s = input@;
        let mut data: Vec<u8> = Vec::new();
        let mut cols: usize = 0;
        let mut nrows: usize = 0;
        let mut pos: usize = 0;
        let ghost mut done: Seq<Seq<u8>> = Seq::empty();
        proof {
            assert(nb_lines(s) =~= done + nb_lines_from(s, 0));
        }
        while pos < s_len
            invariant
                s == input@,
                s_len == s.len(),
                pos <= s_len,
                nrows <= pos,
                nrows == done.len(),
                nb_lines(s) == done + nb_lines_from(s, pos as int),
                data@ == concat_lines(done),
                data@.len() == nrows * cols,
                nrows == 0 ==> cols == 0,
                nrows >= 1 ==> cols >= 1,
                forall|i: int| 0 <= i < done.len() ==> #[trigger] done[i].len() == cols,
            decreases s_len - pos,
        {
            let mut end: usize = pos;
            while end < s_len && input[end] != 10u8
                invariant
                    s == input@,
                    s_len == s.len(),
                    pos <= end <= s_len,
                    line_end(s, pos as int) == line_end(s, end as int),
                decreases s_len - end,
            {
                end += 1;
            }
            proof {
                assert(line_end(s, pos as int) == end);
                lemma_line_end_bounds(s, pos as int);
            }
            let llen = end - pos;
            let ghost line = s.subrange(pos as int, end as int);
            let ghost rest = if end < s_len {
                nb_lines_from(s, end + 1)
            } else {
                Seq::<Seq<u8>>::empty()
            };
            proof {
                assert(nb_lines_from(s, pos as int) == if line.len() == 0 {
                    rest
                } else {
                    seq![line] + rest
                });
            }
            if llen > 0 {
                if nrows == 0 {
                    cols = llen;
                } else if llen != cols {
                    proof {
                        let nb = nb_lines(s);
                        assert(nb =~= done + (seq![line] + rest));
                        assert(nb[0] == done[0]);
                        assert(nb[done.len() as int] == line);
                        assert(nb[done.len() as int].len() != nb[0].len());
                    }
                    return Err(ParseError::InconsistentRowLength);
                }
                let mut j = pos;
                while j < end
                    invariant
                        s == input@,
                        s_len == s.len(),
                        pos <= j <= end <= s_len,
                        data@ == concat_lines(done) + s.subrange(pos as int, j as int),
                    decreases end - j,
                {
                    proof {
                        assert(s.subrange(pos as int, j + 1) =~= s.subrange(pos as int, j as int).push(
                            s[j as int]));
                    }
                    data.push(input[j]);
                    j += 1;
                }
                proof {
                    lemma_concat_push(done, line);
                    assert((nrows + 1) * cols == nrows * cols + cols) by (nonlinear_arith);
                    assert(nb_lines(s) =~= done.push(line) + rest);
                    done = done.push(line);
                }
                nrows += 1;
            } else {
                proof {
                    assert(data@ =~= concat_lines(done) + s.subrange(pos as int, pos as int));
                }
            }
            pos = if end < s_len {
                end + 1
            } else {
                end
            };
        }
        proof {
            assert(nb_lines(s) =~= done);
        }
        if nrows == 0 {
            return Err(ParseError::EmptyGrid);
        }
        proof {
            assert(nrows as int * cols as int == cols as int * nrows as int) by (nonlinear_arith);
            vstd::arithmetic::div_mod::lemma_mod_multiples_basic(cols as int, nrows as int);
            vstd::arithmetic::div_mod::lemma_div_multiples_vanish(cols as int, nrows as int);
        }
        Ok(Self::new(nrows, data))
    }

    pub fn rows(&self) -> (r: usize)
        ensures
            r == self.rows,
    {
        self.rows
    }

    pub fn cols(&self) -> (r: usize)
        requires
            self.rows >= 1,
        ensures
            r as int == self.spec_cols(),
    {
        self.data.len() / self.rows
    }

    pub fn get(&self, row: usize, col: usize) -> (r: u8)
        requires
            self.wf(),
            self.in_grid(row as int, col as int),
        ensures
            r == self.spec_cell(row as int, col as int),
    {
        let cols = self.cols();
        proof {
            lemma_grid_index(*self, row as int, col as int);
            assert((row as int) * (cols as int) + (col as int) < self.data@.len());
        }
        self.data[row * cols + col]
    }

    /// A copy of row `row`.
    pub fn get_row(&self, row: usize) -> (r: Vec<u8>)
        requires
            self.wf(),
            row < self.rows,
        ensures
            r@ == self.row_seq(row as int),
    {
        let cols = self.cols();
        let mut out: Vec<u8> = Vec::new();
        let mut j: usize = 0;
        while j < cols
            invariant
                self.wf(),
                row < self.rows,
                j <= cols,
                cols as int == self.spec_cols(),
                out@.len() == j,
                forall|k: int| 0 <= k < j ==> out@[k] == self.spec_cell(row as int, k),
            decreases cols - j,
        {
            out.push(self.get(row, j));
            j += 1;
        }
        proof {
            assert(out@ =~= self.row_seq(row as int));
        }
        out
    }

    /// A copy of column `col`, top to bottom.
    pub fn get_col(&self, col: usize) -> (r: Vec<u8>)
        requires
            self.wf(),
            (col as int) < self.spec_cols(),
        ensures
            r@ == self.col_seq(col as int),
    {
        let mut out: Vec<u8> = Vec::new();
        let mut i: usize = 0;
        while i < self.rows
            invariant
                self.wf(),
                (col as int) < self.spec_cols(),
                i <= self.rows,
                out@.len() == i,
                forall|k: int| 0 <= k < i ==> out@[k] == self.spec_cell(k, col as int),
            decreases self.rows - i,
        {
            out.push(self.get(i, col));
            i += 1;
        }
        proof {
            assert(out@ =~= self.col_seq(col as int));
        }
        out
    }

    /// All rows, in order.
    pub fn get_rows(&self) -> (r: Vec<Vec<u8>>)
        requires
            self.wf(),
        ensures
            r@.len() == self.rows,
            forall|i: int| 0 <= i < self.rows ==> #[trigger] r@[i]@ == self.row_seq(i),
    {
        let mut out: Vec<Vec<u8>> = Vec::new();
        let mut i: usize = 0;
        while i < self.rows
            invariant
                self.wf(),
                i <= self.rows,
                out@.len() == i,
                forall|k: int| 0 <= k < i ==> #[trigger] out@[k]@ == self.row_seq(k),
            decreases self.rows - i,
        {
            out.push(self.get_row(i));
            i += 1;
        }
        out
    }

    /// All columns, in order.
    pub fn get_cols(&self) -> (r: Vec<Vec<u8>>)
        requires
            self.wf(),
        ensures
            r@.len() as int == self.spec_cols(),
            forall|j: int| 0 <= j < self.spec_cols() ==> #[trigger] r@[j]@ == self.col_seq(j),
    {
        let cols = self.cols();
        let mut out: Vec<Vec<u8>> = Vec::new();
        let mut j: usize = 0;
        while j < cols
            invariant
                self.wf(),
                j <= cols,
                cols as int == self.spec_cols(),
                out@.len() == j,
                forall|k: int| 0 <= k < j ==> #[trigger] out@[k]@ == self.col_seq(k),
            decreases cols - j,
        {
            out.push(self.get_col(j));
            j += 1;
        }
        out
    }

    /// The run of `len` cells anchored at `(row, col)` along `dir`, or `None`
    /// when any cell of the run would fall outside the grid.
    pub fn get_word(&self, row: usize, col: usize, dir: Direction, len: usize) -> (r: Option<
        Vec<u8>,
    >)
        requires
            self.wf(),
            len >= 1,
        ensures
            match r {
                Some(v) => self.in_bounds_run(row as int, col as int, dir, len as int) && v@
                    == self.run_seq(row as int, col as int, dir, len as int),
                None => !self.in_bounds_run(row as int, col as int, dir, len as int),
            },
    {
        let rows = self.rows;
        let cols = self.cols();
        if row >= rows || col >= cols {
            return None;
        }
        if dir.shift_point_bounded((row, col), len - 1, (rows, cols)).is_none() {
            return None;
        }
        proof {
            lemma_cols_le_len(*self);
        }
        let mut out: Vec<u8> = Vec::new();
        let mut i: usize = 0;
        while i < len
            invariant
                self.wf(),
                self.spec_cols() <= self.data@.len(),
                self.data@.len() <= usize::MAX,
                self.in_bounds_run(row as int, col as int, dir, len as int),
                i <= len,
                out@.len() == i,
                forall|k: int|
                    0 <= k < i ==> #[trigger] out@[k] == {
                        let p = dir.shift_spec((row as int, col as int), k);
                        self.spec_cell(p.0, p.1)
                    },
            decreases len - i,
        {
            let p = dir.shift_point((row, col), i);
            out.push(self.get(p.0, p.1));
            i += 1;
        }
        proof {
            assert(out@ =~= self.run_seq(row as int, col as int, dir, len as int));
        }
        Some(out)
    }

    /// Writes `word` along `dir` starting at `(row, col)`; returns whether the
    /// run fit inside the grid (the grid is untouched when it did not).
    pub fn set_word(&mut self, row: usize, col: usize, dir: Direction, word: &[u8]) -> (r: bool)
        requires
            old(self).wf(),
            word@.len() >= 1,
        ensures
            final(self).rows == old(self).rows,
            final(self).data@.len() == old(self).data@.len(),
            final(self).wf(),
            r == old(self).in_bounds_run(row as int, col as int, dir, word@.len() as int),
            r ==> forall|k: int|
                0 <= k < word@.len() ==> {
                    let p = #[trigger] dir.shift_spec((row as int, col as int), k);
                    final(self).spec_cell(p.0, p.1) == word@[k]
                },
            r ==> forall|rr: int, cc: int|
                final(self).in_grid(rr, cc) && (forall|k: int|
                    0 <= k < word@.len() ==> dir.shift_spec((row as int, col as int), k) != (
                    rr,
                    cc,
                )) ==> final(self).spec_cell(rr, cc) == old(self).spec_cell(rr, cc),
            !r ==> final(self).data@ == old(self).data@,
    {
        let rows = self.rows;
        let cols = self.cols();
        if row >= rows || col >= cols {
            return false;
        }
        if dir.shift_point_bounded((row, col), word.len() - 1, (rows, cols)).is_none() {
            return false;
        }
        let ghost g0 = *self;
        proof {
            lemma_cols_le_len(*self);
        }
        let mut k: usize = 0;
        while k < word.len()
            invariant
                g0.wf(),
                self.wf(),
                self.spec_cols() <= self.data@.len(),
                self.data@.len() <= usize::MAX,
                cols as int == self.spec_cols(),
                self.rows == g0.rows,
                self.data@.len() == g0.data@.len(),
                self.spec_cols() == g0.spec_cols(),
                word@.len() >= 1,
                g0.in_bounds_run(row as int, col as int, dir, word@.len() as int),
                k <= word@.len(),
                forall|j: int|
                    0 <= j < k ==> {
                        let p = #[trigger] dir.shift_spec((row as int, col as int), j);
                        self.spec_cell(p.0, p.1) == word@[j]
                    },
                forall|rr: int, cc: int|
                    self.in_grid(rr, cc) && (forall|j: int|
                        0 <= j < k ==> dir.shift_spec((row as int, col as int), j) != (
                        rr,
                        cc,
                    )) ==> self.spec_cell(rr, cc) == g0.spec_cell(rr, cc),
            decreases word@.len() - k,
        {
            let p = dir.shift_point((row, col), k);
            proof {
                lemma_grid_index(*self, p.0 as int, p.1 as int);
                assert((p.0 as int) * (cols as int) + (p.1 as int) < self.data@.len());
            }
            let idx = p.0 * cols + p.1;
            let ghost pre = *self;
            self.data.set(idx, word[k]);
            proof {
                let rowi = row as int;
                let coli = col as int;
                let ci = cols as int;
                let pk = dir.shift_spec((rowi, coli), k as int);
                assert(ci == pre.spec_cols());
                assert forall|j: int| 0 <= j < k + 1 implies {
                    let pj = #[trigger] dir.shift_spec((rowi, coli), j);
                    self.spec_cell(pj.0, pj.1) == word@[j]
                } by {
                    let pj = dir.shift_spec((rowi, coli), j);
                    assert(pre.in_grid(pj.0, pj.1));
                    lemma_grid_index(pre, pj.0, pj.1);
                    if j < k {
                        assert(pj != pk);
                        lemma_index_injective(pre, pj.0, pj.1, pk.0, pk.1);
                    }
                }
                assert forall|rr: int, cc: int|
                    self.in_grid(rr, cc) && (forall|j: int|
                        0 <= j < k + 1 ==> dir.shift_spec((rowi, coli), j) != (
                        rr,
                        cc,
                    )) implies self.spec_cell(rr, cc) == g0.spec_cell(rr, cc) by {
                    lemma_grid_index(pre, rr, cc);
                    assert(dir.shift_spec((rowi, coli), k as int) != (rr, cc));
                    lemma_index_injective(pre, rr, cc, pk.0, pk.1);
                    assert(pre.spec_cell(rr, cc) == g0.spec_cell(rr, cc));
                }
            }
            k += 1;
        }
        true
    }
}

/// In a well-formed grid the flat buffer factors as `rows * cols`, and the
/// flat index of an in-grid cell is in range.
pub proof fn lemma_grid_index(g: Crossword, r: int, c: int)
    requires
        g.wf(),
        g.in_grid(r, c),
    ensures
        g.data@.len() == g.rows as int * g.spec_cols(),
        0 <= r * g.spec_cols() + c < g.data@.len(),
        g.data@.len() <= usize::MAX,
{
    assert(g.data.len() == g.data@.len());
    let rows = g.rows as int;
    let cols = g.spec_cols();
    let n = g.data@.len() as int;
    vstd::arithmetic::div_mod::lemma_fundamental_div_mod(n, rows);
    assert(n == rows * cols);
    assert(0 <= r * cols + c < rows * cols) by (nonlinear_arith)
        requires
            0 <= r < rows,
            0 <= c < cols,
    ;
}

/// A well-formed grid has at most `data.len()` columns.
pub proof fn lemma_cols_le_len(g: Crossword)
    requires
        g.wf(),
    ensures
        0 <= g.spec_cols() <= g.data@.len(),
        g.data@.len() <= usize::MAX,
{
    assert(g.data.len() == g.data@.len());
    let rows = g.rows as int;
    let n = g.data@.len() as int;
    vstd::arithmetic::div_mod::lemma_fundamental_div_mod(n, rows);
    assert(0 <= n / rows <= n) by (nonlinear_arith)
        requires
            rows >= 1,
            n >= 0,
            n == rows * (n / rows) + n % rows,
            0 <= n % rows < rows,
    ;
}

/// Distinct in-grid cells have distinct flat indices.
pub proof fn lemma_index_injective(g: Crossword, r1: int, c1: int, r2: int, c2: int)
    requires
        g.wf(),
        g.in_grid(r1, c1),
        g.in_grid(r2, c2),
        r1 != r2 || c1 != c2,
    ensures
        r1 * g.spec_cols() + c1 != r2 * g.spec_cols() + c2,
{
    let cols = g.spec_cols();
    assert(r1 * cols + c1 != r2 * cols + c2) by (nonlinear_arith)
        requires
            0 <= r1,
            0 <= r2,
            0 <= c1 < cols,
            0 <= c2 < cols,
            r1 != r2 || c1 != c2,
    ;
}

/// Whether the run of `word`'s length anchored at `(r, c)` along `dir` lies in
/// the grid and reads as `word` forward or backward.
pub open spec fn run_matches(g: Crossword, w: Seq<u8>, r: int, c: int, dir: Direction) -> bool {
    &&& g.in_bounds_run(r, c, dir, w.len() as int)
    &&& {
        let run = g.run_seq(r, c, dir, w.len() as int);
        run == w || run == w.reverse()
    }
}

/// How many of the four directions match `w` (forward or backward) at `(r, c)`.
pub open spec fn cell_match_count(g: Crossword, w: Seq<u8>, r: int, c: int) -> nat {
    (if run_matches(g, w, r, c, Direction::Right) {
        1nat
    } else {
        0nat
    }) + (if run_matches(g, w, r, c, Direction::Down) {
        1nat
    } else {
        0nat
    }) + (if run_matches(g, w, r, c, Direction::Diagonal) {
        1nat
    } else {
        0nat
    }) + (if run_matches(g, w, r, c, Direction::AntiDiagonal) {
        1nat
    } else {
        0nat
    })
}

/// Matches of `w` in row `r`, over cells `c .. cols`.
pub open spec fn row_match_count(g: Crossword, w: Seq<u8>, r: int, c: int) -> nat
    decreases g.spec_cols() - c,
{
    if c < 0 || c >= g.spec_cols() {
        0
    } else {
        cell_match_count(g, w, r, c) + row_match_count(g, w, r, c + 1)
    }
}

/// Matches of `w` anchored in rows `r .. rows`.
pub open spec fn grid_match_count(g: Crossword, w: Seq<u8>, r: int) -> nat
    decreases g.rows - r,
{
    if r < 0 || r >= g.rows {
        0
    } else {
        row_match_count(g, w, r, 0) + grid_match_count(g, w, r + 1)
    }
}

/// The brute-force occurrence count of `w` in `g`: the number of anchors
/// `(row, col, direction)` whose run reads as `w` forward or backward. The
/// oracle all index strategies are measured against. An empty word occurs
/// nowhere.
pub open spec fn naive_count(g: Crossword, w: Seq<u8>) -> nat {
    if w.len() == 0 {
        0
    } else {
        grid_match_count(g, w, 0)
    }
}

/// `row_match_count` sums at most 4 per cell.
pub proof fn lemma_row_match_count_bound(g: Crossword, w: Seq<u8>, r: int, c: int)
    requires
        0 <= c <= g.spec_cols(),
    ensures
        row_match_count(g, w, r, c) <= 4 * (g.spec_cols() - c),
    decreases g.spec_cols() - c,
{
    if c < g.spec_cols() {
        lemma_row_match_count_bound(g, w, r, c + 1);
    }
}

/// `grid_match_count` sums at most `4 * cols` per row.
pub proof fn lemma_grid_match_count_bound(g: Crossword, w: Seq<u8>, r: int)
    requires
        g.wf(),
        0 <= r <= g.rows,
    ensures
        grid_match_count(g, w, r) <= 4 * g.spec_cols() * (g.rows - r),
    decreases g.rows - r,
{
    if r < g.rows {
        lemma_grid_match_count_bound(g, w, r + 1);
        lemma_row_match_count_bound(g, w, r, 0);
        assert(4 * g.spec_cols() * (g.rows - r) == 4 * g.spec_cols() + 4 * g.spec_cols() * (g.rows
            - r - 1)) by (nonlinear_arith);
    }
}

/// The oracle count never exceeds four matches per grid cell.
pub proof fn lemma_naive_count_bound(g: Crossword, w: Seq<u8>)
    requires
        g.wf(),
    ensures
        naive_count(g, w) <= 4 * g.data@.len(),
{
    if w.len() > 0 {
        lemma_grid_match_count_bound(g, w, 0);
        let rows = g.rows as int;
        let cols = g.spec_cols();
        vstd::arithmetic::div_mod::lemma_fundamental_div_mod(g.data@.len() as int, rows);
        assert(4 * cols * rows == 4 * (rows * cols)) by (nonlinear_arith);
    }
}

/// A palindrome already accounts for its mirror image: at every anchor the
/// backward comparison asks exactly what the forward one asked, so a match is
/// counted once, never twice.
pub proof fn lemma_palindrome_single_count(
    g: Crossword,
    w: Seq<u8>,
    r: int,
    c: int,
    dir: Direction,
)
    requires
        w == w.reverse(),
    ensures
        run_matches(g, w, r, c, dir) <==> (g.in_bounds_run(r, c, dir, w.len() as int)
            && g.run_seq(r, c, dir, w.len() as int) == w),
{
}

/// A word exactly as long as a row is found along the full row: its
/// rightward run fits exactly when anchored at column 0, never at a
/// truncated position further right, and the full run reads the row itself.
pub proof fn lemma_boundary_row(g: Crossword, w: Seq<u8>, r: int, c: int)
    requires
        g.wf(),
        w.len() == g.spec_cols(),
        w.len() >= 1,
    ensures
        g.in_bounds_run(r, c, Direction::Right, w.len() as int) <==> (0 <= r < g.rows && c == 0),
        0 <= r < g.rows ==> g.run_seq(r, 0, Direction::Right, w.len() as int) == g.row_seq(r),
{
    if 0 <= r < g.rows {
        assert(g.run_seq(r, 0, Direction::Right, w.len() as int) =~= g.row_seq(r));
    }
}

/// A word exactly as long as a column is found along the full column: its
/// downward run fits exactly when anchored at row 0, never lower, and the
/// full run reads the column itself.
pub proof fn lemma_boundary_col(g: Crossword, w: Seq<u8>, r: int, c: int)
    requires
        g.wf(),
        w.len() == g.rows,
        w.len() >= 1,
    ensures
        g.in_bounds_run(r, c, Direction::Down, w.len() as int) <==> (r == 0 && 0 <= c
            < g.spec_cols()),
        0 <= c < g.spec_cols() ==> g.run_seq(0, c, Direction::Down, w.len() as int) == g.col_seq(
            c,
        ),
{
    if 0 <= c < g.spec_cols() {
        assert(g.run_seq(0, c, Direction::Down, w.len() as int) =~= g.col_seq(c));
    }
}

/// Reversal is involutive on byte strings.
pub proof fn lemma_reverse_reverse(w: Seq<u8>)
    ensures
        w.reverse().reverse() == w,
{
    assert(w.reverse().reverse() =~= w);
}

/// At any anchor, a run matches `w` exactly when it matches `w` reversed:
/// the oracle's forward-or-backward test is mirror-symmetric.
pub proof fn lemma_run_matches_reverse(g: Crossword, w: Seq<u8>, r: int, c: int, dir: Direction)
    ensures
        run_matches(g, w, r, c, dir) == run_matches(g, w.reverse(), r, c, dir),
{
    lemma_reverse_reverse(w);
}

proof fn lemma_row_match_count_reverse(g: Crossword, w: Seq<u8>, r: int, c: int)
    ensures
        row_match_count(g, w, r, c) == row_match_count(g, w.reverse(), r, c),
    decreases g.spec_cols() - c,
{
    if 0 <= c < g.spec_cols() {
        lemma_run_matches_reverse(g, w, r, c, Direction::Right);
        lemma_run_matches_reverse(g, w, r, c, Direction::Down);
        lemma_run_matches_reverse(g, w, r, c, Direction::Diagonal);
        lemma_run_matches_reverse(g, w, r, c, Direction::AntiDiagonal);
        lemma_row_match_count_reverse(g, w, r, c + 1);
    }
}

proof fn lemma_grid_match_count_reverse(g: Crossword, w: Seq<u8>, r: int)
    ensures
        grid_match_count(g, w, r) == grid_match_count(g, w.reverse(), r),
    decreases g.rows - r,
{
    if 0 <= r < g.rows {
        lemma_row_match_count_reverse(g, w, r, 0);
        lemma_grid_match_count_reverse(g, w, r + 1);
    }
}

/// Mirror symmetry of the oracle: a word and its reverse occur equally
/// often, since every anchor's forward-or-backward test asks the same
/// question of both.
pub proof fn lemma_naive_count_reverse(g: Crossword, w: Seq<u8>)
    ensures
        naive_count(g, w) == naive_count(g, w.reverse()),
{
    lemma_grid_match_count_reverse(g, w, 0);
}

/// A prefix of an in-bounds run is in bounds.
pub proof fn lemma_in_bounds_prefix(
    g: Crossword,
    r: int,
    c: int,
    dir: Direction,
    len: int,
    l: int,
)
    requires
        1 <= l <= len,
        g.in_bounds_run(r, c, dir, len),
    ensures
        g.in_bounds_run(r, c, dir, l),
{
}

/// Whether the run at the anchor reads exactly as `w`, forward only.
pub open spec fn forward_match(g: Crossword, w: Seq<u8>, r: int, c: int, dir: Direction) -> bool {
    &&& g.in_bounds_run(r, c, dir, w.len() as int)
    &&& g.run_seq(r, c, dir, w.len() as int) == w
}

/// Forward matches of `w` among the four directions of one cell.
pub open spec fn cell_forward_count(g: Crossword, w: Seq<u8>, r: int, c: int) -> nat {
    (if forward_match(g, w, r, c, Direction::Right) {
        1nat
    } else {
        0nat
    }) + (if forward_match(g, w, r, c, Direction::Down) {
        1nat
    } else {
        0nat
    }) + (if forward_match(g, w, r, c, Direction::Diagonal) {
        1nat
    } else {
        0nat
    }) + (if forward_match(g, w, r, c, Direction::AntiDiagonal) {
        1nat
    } else {
        0nat
    })
}

/// Forward matches of `w` in row `r`, cells `c..`.
pub open spec fn row_forward_count(g: Crossword, w: Seq<u8>, r: int, c: int) -> nat
    decreases g.spec_cols() - c,
{
    if c < 0 || c >= g.spec_cols() {
        0
    } else {
        cell_forward_count(g, w, r, c) + row_forward_count(g, w, r, c + 1)
    }
}

/// Forward matches of `w` anchored in rows `r..`.
pub open spec fn grid_forward_count(g: Crossword, w: Seq<u8>, r: int) -> nat
    decreases g.rows - r,
{
    if r < 0 || r >= g.rows {
        0
    } else {
        row_forward_count(g, w, r, 0) + grid_forward_count(g, w, r + 1)
    }
}

/// The forward-only occurrence count of `w`.
pub open spec fn forward_count(g: Crossword, w: Seq<u8>) -> nat {
    if w.len() == 0 {
        0
    } else {
        grid_forward_count(g, w, 0)
    }
}

proof fn lemma_row_match_split(g: Crossword, w: Seq<u8>, r: int, c: int)
    ensures
        row_match_count(g, w, r, c) == if w == w.reverse() {
            row_forward_count(g, w, r, c)
        } else {
            row_forward_count(g, w, r, c) + row_forward_count(g, w.reverse(), r, c)
        },
    decreases g.spec_cols() - c,
{
    if 0 <= c < g.spec_cols() {
        lemma_row_match_split(g, w, r, c + 1);
    }
}

proof fn lemma_grid_match_split(g: Crossword, w: Seq<u8>, r: int)
    ensures
        grid_match_count(g, w, r) == if w == w.reverse() {
            grid_forward_count(g, w, r)
        } else {
            grid_forward_count(g, w, r) + grid_forward_count(g, w.reverse(), r)
        },
    decreases g.rows - r,
{
    if 0 <= r < g.rows {
        lemma_row_match_split(g, w, r, 0);
        lemma_grid_match_split(g, w, r + 1);
    }
}

/// The oracle splits into forward counts: a palindrome is counted by its
/// forward matches alone (the mirror reading adds nothing), and any other
/// word by its forward matches plus those of its reverse (never both at one
/// anchor, a run cannot equal two different words).
pub proof fn lemma_naive_forward_split(g: Crossword, w: Seq<u8>)
    requires
        w.len() >= 1,
    ensures
        naive_count(g, w) == if w == w.reverse() {
            forward_count(g, w)
        } else {
            forward_count(g, w) + forward_count(g, w.reverse())
        },
{
    lemma_grid_match_split(g, w, 0);
}

/// The contract every counting strategy answers to: an exact count of
/// occurrences, stated by each implementation through `count_spec`.
pub trait Solver {
    /// What this solver's state must satisfy for queries to be answered.
    spec fn solver_wf(&self) -> bool;

    /// The exact count this solver returns for `word`.
    spec fn count_spec(&self, word: Seq<u8>) -> nat;

    /// Counts the occurrences of `word`, mirror occurrences included.
    fn count_occurrences(&self, word: &[u8]) -> (r: usize)
        requires
            self.solver_wf(),
        ensures
            r as nat == self.count_spec(word@),
    ;
}

} // verus!
