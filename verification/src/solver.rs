use crate::counting::count_true;
use crate::counting::count_upto;
use crate::counting::lemma_count_bound;
use crate::counting::lemma_count_gap;
use crate::counting::lemma_count_none;
use crate::counting::lemma_count_update;
use crate::counting::lemma_count_upto_all;
use crate::matching::choice;
use crate::matching::chosen;
use crate::matching::costs;
use crate::matching::first_free_zero;
use crate::matching::first_stars;
use crate::matching::is_assignment;
use crate::matching::lemma_assignment_size;
use crate::matching::lemma_certified_optimum;
use crate::matching::lemma_choice_is_selection;
use crate::matching::lemma_first_free_zero;
use crate::matching::lemma_row_min;
use crate::matching::rectangular;
use crate::matching::reduced;
use crate::matching::row_min;
use crate::matching::total_cost;
use crate::tables::map_insert;
use crate::tables::mask_get;
use crate::tables::mask_insert;
use crate::tables::mask_keep_stars;
use crate::tables::mask_remove;
use fnv::FnvHashMap;
use vstd::prelude::*;

verus! {

/// What a zero of the working matrix is marked with.
#[derive(Clone, Copy, Debug, PartialEq, Eq, Structural)]
pub enum Mark {
    Star,
    Prime,
}

impl Mark {
    /// The mark is a star.
    pub fn is_star(&self) -> (yes: bool)
        ensures
            yes == (*self == Mark::Star),
    {
        match self {
            Mark::Star => true,
            Mark::Prime => false,
        }
    }
}

/// The largest difference between two costs.
pub const SPREAD: i32 = 65535;

/// Which entries of a sequence are columns or rows, not -1.
pub open spec fn held(s: Seq<int>) -> Seq<bool> {
    Seq::new(s.len(), |i: int| s[i] >= 0)
}

/// A row of costs as mathematical integers.
pub open spec fn ints(row: Seq<i16>) -> Seq<int> {
    Seq::new(row.len(), |c: int| row[c] as int)
}

/// The least entry of a non-empty row.
fn least(row: &Vec<i16>) -> (min: i16)
    requires
        row@.len() > 0,
    ensures
        min == row_min(ints(row@)),
{
    let mut min: i16 = row[0];
    let mut c: usize = 1;
    assert(ints(row@).take(1) =~= seq![row@[0] as int]);
    while c < row.len()
        invariant
            1 <= c <= row@.len(),
            min == row_min(ints(row@).take(c as int)),
        decreases row@.len() - c,
    {
        assert(ints(row@).take(c + 1).drop_last() =~= ints(row@).take(c as int));
        if row[c] < min {
            min = row[c];
        }
        c = c + 1;
    }
    assert(ints(row@).take(c as int) =~= ints(row@));
    min
}

/// The row with its least entry taken from every entry.
fn reduce_row(row: &Vec<i16>) -> (out: Vec<i32>)
    requires
        row@.len() > 0,
    ensures
        out@.len() == row@.len(),
        forall|c: int| 0 <= c < row@.len() ==> #[trigger] out@[c] == row@[c] - row_min(ints(row@)),
        forall|c: int| 0 <= c < row@.len() ==> 0 <= #[trigger] out@[c] <= SPREAD,
{
    let min = least(row);
    proof {
        lemma_row_min(ints(row@));
    }
    let mut out: Vec<i32> = Vec::new();
    let mut c: usize = 0;
    while c < row.len()
        invariant
            c <= row@.len(),
            out@.len() == c,
            min == row_min(ints(row@)),
            forall|k: int| 0 <= k < row@.len() ==> row_min(ints(row@)) <= #[trigger] ints(row@)[k],
            forall|k: int| 0 <= k < c ==> #[trigger] out@[k] == row@[k] - row_min(ints(row@)),
            forall|k: int| 0 <= k < c ==> 0 <= #[trigger] out@[k] <= SPREAD,
        decreases row@.len() - c,
    {
        assert(min <= ints(row@)[c as int]);
        let cost: i32 = row[c] as i32;
        let low: i32 = min as i32;
        out.push(cost - low);
        c = c + 1;
    }
    out
}

/// A vector of `n` flags, none set.
fn cleared(n: usize) -> (flags: Vec<bool>)
    ensures
        flags@.len() == n,
        forall|i: int| 0 <= i < n ==> !#[trigger] flags@[i],
{
    let mut flags: Vec<bool> = Vec::new();
    let mut i: usize = 0;
    while i < n
        invariant
            i <= n,
            flags@.len() == i,
            forall|k: int| 0 <= k < i ==> !#[trigger] flags@[k],
        decreases n - i,
    {
        flags.push(false);
        i = i + 1;
    }
    flags
}

/// How many flags are set.
fn count_set(flags: &Vec<bool>) -> (n: usize)
    ensures
        n == count_true(flags@),
{
    let mut n: usize = 0;
    let mut i: usize = 0;
    while i < flags.len()
        invariant
            i <= flags@.len(),
            n == count_true(flags@.take(i as int)),
            n <= i,
        decreases flags@.len() - i,
    {
        assert(flags@.take(i + 1).drop_last() =~= flags@.take(i as int));
        if flags[i] {
            n = n + 1;
        }
        i = i + 1;
    }
    assert(flags@.take(i as int) =~= flags@);
    n
}

/// The state of the search for a least-cost assignment: the working matrix,
/// the marked zeros and the covered lines, with the bookkeeping that the proof
/// of the result rests on.
pub(crate) struct Solver {
    work: Vec<Vec<i32>>,
    mask: FnvHashMap<(usize, usize), Mark>,
    row_cover: Vec<bool>,
    col_cover: Vec<bool>,
    /// The costs after each row's least entry was taken from it.
    base: Ghost<Seq<Seq<int>>>,
    /// What has been taken from each row of `base` since.
    row_dual: Ghost<Seq<int>>,
    /// What has been taken from each column of `base`; never positive.
    col_dual: Ghost<Seq<int>>,
    /// The sum of all adjustments made.
    top: Ghost<int>,
    /// The column of the star in each row, or -1.
    row_star: Ghost<Seq<int>>,
    /// The row of the star in each column, or -1.
    col_star: Ghost<Seq<int>>,
    /// The column of the prime in each row, or -1.
    row_prime: Ghost<Seq<int>>,
    /// When each covered row was covered.
    rank: Ghost<Seq<int>>,
    clock: Ghost<int>,
}

impl Solver {
    /// The number of rows of the matrix.
    pub(crate) closed spec fn rows(&self) -> nat {
        self.row_cover@.len()
    }

    /// The number of columns of the matrix.
    pub(crate) closed spec fn cols(&self) -> nat {
        self.col_cover@.len()
    }

    /// The costs after each row's least entry was taken from it.
    pub(crate) closed spec fn grid(&self) -> Seq<Seq<int>> {
        self.base@
    }

    /// No zero is starred.
    pub(crate) closed spec fn blank(&self) -> bool {
        &&& forall|r: int| 0 <= r < self.rows() ==> #[trigger] self.row_star@[r] == -1
        &&& forall|c: int| 0 <= c < self.cols() ==> #[trigger] self.col_star@[c] == -1
        &&& self.level()
    }

    /// Nothing has been taken from a row or a column since the rows were
    /// reduced.
    pub(crate) closed spec fn level(&self) -> bool {
        &&& forall|r: int| 0 <= r < self.rows() ==> #[trigger] self.row_dual@[r] == 0
        &&& forall|c: int| 0 <= c < self.cols() ==> #[trigger] self.col_dual@[c] == 0
    }

    /// The column of the star in each row, or -1.
    pub(crate) closed spec fn star_columns(&self) -> Seq<int> {
        self.row_star@
    }

    /// The number of stars.
    pub(crate) closed spec fn stars(&self) -> nat {
        count_true(held(self.col_star@))
    }

    /// All parts have the size of the matrix.
    pub(crate) closed spec fn shaped(&self) -> bool {
        &&& self.rows() > 0
        &&& self.cols() > 0
        &&& self.work@.len() == self.rows()
        &&& forall|r: int| 0 <= r < self.rows() ==> (#[trigger] self.work@[r])@.len() == self.cols()
        &&& self.base@.len() == self.rows()
        &&& forall|r: int| 0 <= r < self.rows() ==> (#[trigger] self.base@[r]).len() == self.cols()
        &&& self.row_dual@.len() == self.rows()
        &&& self.col_dual@.len() == self.cols()
        &&& self.row_star@.len() == self.rows()
        &&& self.col_star@.len() == self.cols()
        &&& self.row_prime@.len() == self.rows()
        &&& self.rank@.len() == self.rows()
        &&& self.clock@ >= 0
    }

    /// The working matrix is what the row and column amounts leave of the
    /// costs, and nowhere negative.
    pub(crate) closed spec fn duals_ok(&self) -> bool {
        &&& forall|r: int, c: int|
            0 <= r < self.rows() && 0 <= c < self.cols() ==> {
                &&& #[trigger] self.work@[r]@[c] == self.base@[r][c] - self.row_dual@[r]
                    - self.col_dual@[c]
                &&& self.work@[r]@[c] >= 0
                &&& 0 <= self.base@[r][c] <= SPREAD
            }
        &&& forall|r: int|
            0 <= r < self.rows() ==> 0 <= #[trigger] self.row_dual@[r] <= self.top@
                && self.row_dual@[r] <= SPREAD
        &&& forall|c: int|
            0 <= c < self.cols() ==> -SPREAD <= #[trigger] self.col_dual@[c] <= 0 && (
            self.col_star@[c] < 0 ==> self.col_dual@[c] == 0)
    }

    /// Every row without a star, but for `except`, has had every adjustment.
    pub(crate) closed spec fn slack_ok(&self, except: int) -> bool {
        forall|r: int|
            0 <= r < self.rows() && r != except && self.row_star@[r] < 0
                ==> #[trigger] self.row_dual@[r] == self.top@
    }

    /// The stars pair rows and columns one to one, the marks stand on zeros,
    /// and the table of marks holds exactly them.
    pub(crate) closed spec fn marks_ok(&self) -> bool {
        &&& forall|r: int|
            0 <= r < self.rows() ==> -1 <= #[trigger] self.row_star@[r] < self.cols() && (
            self.row_star@[r] >= 0 ==> self.col_star@[self.row_star@[r]] == r
                && self.work@[r]@[self.row_star@[r]] == 0)
        &&& forall|c: int|
            0 <= c < self.cols() ==> -1 <= #[trigger] self.col_star@[c] < self.rows() && (
            self.col_star@[c] >= 0 ==> self.row_star@[self.col_star@[c]] == c)
        &&& forall|r: int|
            0 <= r < self.rows() ==> -1 <= #[trigger] self.row_prime@[r] < self.cols() && (
            self.row_prime@[r] >= 0 ==> self.row_prime@[r] != self.row_star@[r]
                && self.work@[r]@[self.row_prime@[r]] == 0)
        &&& forall|k: (usize, usize)| #[trigger]
            self.mask@.contains_key(k) ==> k.0 < self.rows() && k.1 < self.cols()
        &&& forall|r: usize, c: usize|
            r < self.rows() && c < self.cols() ==> (#[trigger] self.mask@.contains_key((r, c))
                <==> self.row_star@[r as int] == c || self.row_prime@[r as int] == c)
        &&& forall|r: usize, c: usize|
            r < self.rows() && c < self.cols() && #[trigger] self.mask@.contains_key((r, c))
                ==> (self.mask@[(r, c)] == Mark::Star <==> self.row_star@[r as int] == c)
        &&& count_true(held(self.row_star@)) == count_true(held(self.col_star@))
    }

    /// No line is covered and no zero is primed.
    pub(crate) closed spec fn fresh(&self) -> bool {
        &&& forall|r: int| 0 <= r < self.rows() ==> !#[trigger] self.row_cover@[r]
        &&& forall|c: int| 0 <= c < self.cols() ==> !#[trigger] self.col_cover@[c]
        &&& forall|r: int| 0 <= r < self.rows() ==> #[trigger] self.row_prime@[r] == -1
    }

    /// Each star lies on exactly one covered line, each prime in a covered row
    /// and an uncovered column, and a prime in the column of a covered row's
    /// star was set after that row was covered.
    pub(crate) closed spec fn covers_ok(&self) -> bool {
        &&& forall|c: int|
            0 <= c < self.cols() && #[trigger] self.col_cover@[c] ==> self.col_star@[c] >= 0
                && !self.row_cover@[self.col_star@[c]]
        &&& forall|r: int|
            0 <= r < self.rows() ==> (#[trigger] self.row_cover@[r] <==> self.row_prime@[r] >= 0)
        &&& forall|r: int|
            0 <= r < self.rows() && #[trigger] self.row_cover@[r] ==> self.row_star@[r] >= 0
                && !self.col_cover@[self.row_star@[r]] && 0 <= self.rank@[r] < self.clock@
        &&& forall|c: int|
            0 <= c < self.cols() && #[trigger] self.col_star@[c] >= 0 ==> self.col_cover@[c]
                || self.row_cover@[self.col_star@[c]]
        &&& forall|r: int|
            0 <= r < self.rows() && #[trigger] self.row_prime@[r] >= 0
                ==> !self.col_cover@[self.row_prime@[r]]
        &&& forall|r1: int, r2: int|
            #![trigger self.rank@[r1], self.rank@[r2]]
            0 <= r1 < self.rows() && 0 <= r2 < self.rows() && self.row_cover@[r1]
                && self.row_prime@[r2] >= 0 && self.row_prime@[r2] == self.row_star@[r1]
                ==> self.rank@[r1] < self.rank@[r2]
        &&& count_true(self.row_cover@) + count_true(self.col_cover@) == self.stars()
    }

    /// While the first stars are set, a line is covered where it holds a star.
    pub(crate) closed spec fn marking(&self) -> bool {
        &&& forall|r: int|
            0 <= r < self.rows() ==> (#[trigger] self.row_cover@[r] <==> self.row_star@[r] >= 0)
        &&& forall|c: int|
            0 <= c < self.cols() ==> (#[trigger] self.col_cover@[c] <==> self.col_star@[c] >= 0)
        &&& forall|r: int| 0 <= r < self.rows() ==> #[trigger] self.row_prime@[r] == -1
    }

    /// The matrix, the amounts taken from it and the marks agree.
    pub(crate) closed spec fn sound(&self) -> bool {
        self.shaped() && self.duals_ok() && self.marks_ok()
    }

    /// The number of covered rows.
    pub(crate) closed spec fn covered_rows(&self) -> nat {
        count_true(self.row_cover@)
    }

    /// The number of covered columns.
    pub(crate) closed spec fn covered_cols(&self) -> nat {
        count_true(self.col_cover@)
    }

    /// The column of the star in row `r`, or -1.
    pub(crate) closed spec fn star_in_row(&self, r: int) -> int {
        self.row_star@[r]
    }

    /// The row of the star in column `c`, or -1.
    pub(crate) closed spec fn star_in_col(&self, c: int) -> int {
        self.col_star@[c]
    }

    /// The column of the prime in row `r`, or -1.
    pub(crate) closed spec fn prime_in_row(&self, r: int) -> int {
        self.row_prime@[r]
    }

    /// The entry at `r`, `c` is an unmarked zero on no covered line.
    pub(crate) closed spec fn is_open_zero(&self, r: int, c: int) -> bool {
        &&& 0 <= r < self.rows()
        &&& 0 <= c < self.cols()
        &&& self.work@[r]@[c] == 0
        &&& !self.mask@.contains_key((r as usize, c as usize))
        &&& !self.row_cover@[r]
        &&& !self.col_cover@[c]
    }

    /// The solver for a matrix with at least one row and one column: every row
    /// reduced, nothing marked, nothing covered.
    pub(crate) fn new(matrix: &Vec<Vec<i16>>) -> (s: Solver)
        requires
            rectangular(costs(matrix@)),
            matrix@.len() > 0,
            matrix@[0]@.len() > 0,
        ensures
            s.sound(),
            s.slack_ok(-1),
            s.fresh(),
            s.blank(),
            s.rows() == matrix@.len(),
            s.cols() == matrix@[0]@.len(),
            s.grid() == reduced(costs(matrix@)),
    {
        let rows = matrix.len();
        let cols = matrix[0].len();
        let ghost grid = costs(matrix@);
        let mut work: Vec<Vec<i32>> = Vec::new();
        let mut r: usize = 0;
        while r < rows
            invariant
                r <= rows,
                rows == matrix@.len(),
                cols == matrix@[0]@.len(),
                cols > 0,
                grid == costs(matrix@),
                rectangular(grid),
                work@.len() == r,
                forall|i: int| 0 <= i < r ==> (#[trigger] work@[i])@.len() == cols,
                forall|i: int, c: int|
                    0 <= i < r && 0 <= c < cols ==> (#[trigger] work@[i]@[c]) as int == reduced(
                        grid,
                    )[i][c] && 0 <= work@[i]@[c] <= SPREAD,
            decreases rows - r,
        {
            assert(grid[r as int].len() == grid[0].len());
            assert(grid[r as int] =~= ints(matrix@[r as int]@));
            let row = reduce_row(&matrix[r]);
            work.push(row);
            r = r + 1;
        }
        let row_cover = cleared(rows);
        let col_cover = cleared(cols);
        let s = Solver {
            work,
            mask: FnvHashMap::default(),
            row_cover,
            col_cover,
            base: Ghost(reduced(grid)),
            row_dual: Ghost(Seq::new(rows as nat, |r: int| 0int)),
            col_dual: Ghost(Seq::new(cols as nat, |c: int| 0int)),
            top: Ghost(0int),
            row_star: Ghost(Seq::new(rows as nat, |r: int| -1int)),
            col_star: Ghost(Seq::new(cols as nat, |c: int| -1int)),
            row_prime: Ghost(Seq::new(rows as nat, |r: int| -1int)),
            rank: Ghost(Seq::new(rows as nat, |r: int| 0int)),
            clock: Ghost(0int),
        };
        proof {
            lemma_count_none(held(s.row_star@));
            lemma_count_none(held(s.col_star@));
            assert forall|r: int| 0 <= r < s.rows() implies (#[trigger] s.base@[r]).len()
                == s.cols() by {
                assert(grid[r].len() == grid[0].len());
            }
            assert forall|r: int, c: int| 0 <= r < s.rows() && 0 <= c < s.cols() implies {
                &&& #[trigger] s.work@[r]@[c] == s.base@[r][c] - s.row_dual@[r] - s.col_dual@[c]
                &&& s.work@[r]@[c] >= 0
                &&& 0 <= s.base@[r][c] <= SPREAD
            } by {
                assert(s.work@[r]@[c] as int == reduced(grid)[r][c]);
            }
        }
        s
    }

    /// Stars each zero that has no star in its row or column yet, going through
    /// the matrix row by row, then uncovers every line.
    pub(crate) fn star_zeros(&mut self)
        requires
            old(self).sound(),
            old(self).slack_ok(-1),
            old(self).fresh(),
            old(self).blank(),
        ensures
            final(self).sound(),
            final(self).slack_ok(-1),
            final(self).fresh(),
            final(self).stars() <= final(self).rows(),
            final(self).stars() <= final(self).cols(),
            final(self).rows() == old(self).rows(),
            final(self).cols() == old(self).cols(),
            final(self).grid() == old(self).grid(),
            final(self).star_columns() == first_stars(final(self).grid(), final(self).rows()),
    {
        let rows = self.row_cover.len();
        let cols = self.col_cover.len();
        let mut r: usize = 0;
        proof {
            lemma_count_none(held(self.row_star@));
            assert(self.row_star@.take(0) =~= first_stars(self.base@, 0));
        }
        while r < rows
            invariant
                r <= rows,
                rows == self.rows(),
                cols == self.cols(),
                self.shaped(),
                self.duals_ok(),
                self.slack_ok(-1),
                self.marks_ok(),
                self.marking(),
                self.level(),
                self.rows() == old(self).rows(),
                self.cols() == old(self).cols(),
                self.grid() == old(self).grid(),
                self.row_star@.take(r as int) == first_stars(self.base@, r as nat),
                forall|i: int| r <= i < rows ==> #[trigger] self.row_star@[i] == -1,
                forall|j: int|
                    0 <= j < cols ==> (#[trigger] self.col_cover@[j] <==> first_stars(
                        self.base@,
                        r as nat,
                    ).contains(j)),
            decreases rows - r,
        {
            let mut c: usize = 0;
            let ghost above = first_stars(self.base@, r as nat);
            while c < cols
                invariant
                    r < rows,
                    c <= cols,
                    rows == self.rows(),
                    cols == self.cols(),
                    self.shaped(),
                    self.duals_ok(),
                    self.slack_ok(-1),
                    self.marks_ok(),
                    self.marking(),
                    self.level(),
                    self.rows() == old(self).rows(),
                    self.cols() == old(self).cols(),
                    self.grid() == old(self).grid(),
                    above == first_stars(self.base@, r as nat),
                    self.row_star@.take(r as int) == above,
                    forall|i: int| r < i < rows ==> #[trigger] self.row_star@[i] == -1,
                    self.row_star@[r as int] == first_free_zero(self.base@[r as int], above, c as nat),
                    forall|j: int|
                        0 <= j < cols ==> (#[trigger] self.col_cover@[j] <==> above.contains(j) || j
                            == self.row_star@[r as int]),
                decreases cols - c,
            {
                proof {
                    assert(self.work@[r as int]@[c as int] == self.base@[r as int][c as int]
                        - self.row_dual@[r as int] - self.col_dual@[c as int]);
                    lemma_first_free_zero(self.base@[r as int], above, c as nat);
                }
                if self.work[r][c] == 0 && !(self.row_cover[r] || self.col_cover[c]) {
                    let ghost before = *self;
                    mask_insert(&mut self.mask, r, c, Mark::Star);
                    self.row_cover[r] = true;
                    self.col_cover[c] = true;
                    self.row_star = Ghost(self.row_star@.update(r as int, c as int));
                    self.col_star = Ghost(self.col_star@.update(c as int, r as int));
                    proof {
                        assert(held(self.row_star@) =~= held(before.row_star@).update(
                            r as int,
                            true,
                        ));
                        assert(held(self.col_star@) =~= held(before.col_star@).update(
                            c as int,
                            true,
                        ));
                        lemma_count_update(held(before.row_star@), r as int, true);
                        lemma_count_update(held(before.col_star@), c as int, true);
                        assert(self.row_star@.take(r as int) =~= before.row_star@.take(r as int));
                    }
                }
                c = c + 1;
            }
            proof {
                let now = self.row_star@.take(r + 1);
                assert(now =~= above.push(self.row_star@[r as int]));
                assert forall|j: int| 0 <= j < cols implies (#[trigger] self.col_cover@[j]
                    <==> now.contains(j)) by {
                    if now.contains(j) {
                        let i = choose|i: int| 0 <= i < now.len() && now[i] == j;
                        if i < r {
                            assert(above[i] == j);
                        }
                    }
                    if above.contains(j) {
                        let i = choose|i: int| 0 <= i < above.len() && above[i] == j;
                        assert(now[i] == j);
                    }
                    if j == self.row_star@[r as int] {
                        assert(now[r as int] == j);
                    }
                }
            }
            r = r + 1;
        }
        proof {
            lemma_count_bound(held(self.row_star@));
            lemma_count_bound(held(self.col_star@));
            assert(self.row_star@.take(r as int) =~= self.row_star@);
        }
        self.row_cover = cleared(rows);
        self.col_cover = cleared(cols);
    }

    /// Covers each column that holds a star.
    pub(crate) fn cover_starred_columns(&mut self)
        requires
            old(self).sound(),
            old(self).slack_ok(-1),
            old(self).fresh(),
        ensures
            final(self).sound(),
            final(self).slack_ok(-1),
            final(self).covers_ok(),
            final(self).covered_rows() == 0,
            final(self).covered_cols() == final(self).stars(),
            final(self).stars() == old(self).stars(),
            final(self).star_columns() == old(self).star_columns(),
            final(self).rows() == old(self).rows(),
            final(self).cols() == old(self).cols(),
            final(self).grid() == old(self).grid(),
    {
        let rows = self.row_cover.len();
        let cols = self.col_cover.len();
        let mut r: usize = 0;
        while r < rows
            invariant
                r <= rows,
                rows == self.rows(),
                cols == self.cols(),
                self.sound(),
                self.slack_ok(-1),
                self.stars() == old(self).stars(),
                self.star_columns() == old(self).star_columns(),
                self.rows() == old(self).rows(),
                self.cols() == old(self).cols(),
                self.grid() == old(self).grid(),
                forall|i: int| 0 <= i < self.rows() ==> !#[trigger] self.row_cover@[i],
                forall|i: int| 0 <= i < self.rows() ==> #[trigger] self.row_prime@[i] == -1,
                forall|j: int|
                    0 <= j < cols ==> (#[trigger] self.col_cover@[j] <==> 0 <= self.col_star@[j]
                        < r),
            decreases rows - r,
        {
            let mut c: usize = 0;
            while c < cols
                invariant
                    r < rows,
                    c <= cols,
                    rows == self.rows(),
                    cols == self.cols(),
                    self.sound(),
                    self.slack_ok(-1),
                    self.stars() == old(self).stars(),
                    self.star_columns() == old(self).star_columns(),
                    self.rows() == old(self).rows(),
                    self.cols() == old(self).cols(),
                    self.grid() == old(self).grid(),
                    forall|i: int| 0 <= i < self.rows() ==> !#[trigger] self.row_cover@[i],
                    forall|i: int| 0 <= i < self.rows() ==> #[trigger] self.row_prime@[i] == -1,
                    forall|j: int|
                        0 <= j < cols ==> (#[trigger] self.col_cover@[j] <==> (0
                            <= self.col_star@[j] < r || (self.col_star@[j] == r && j < c))),
                decreases cols - c,
            {
                let found = mask_get(&self.mask, r, c);
                if found == Some(Mark::Star) {
                    self.col_cover[c] = true;
                }
                c = c + 1;
            }
            r = r + 1;
        }
        proof {
            lemma_count_none(self.row_cover@);
            assert(self.col_cover@ =~= held(self.col_star@));
        }
    }

    /// How many columns are covered.
    pub(crate) fn count_covered_columns(&self) -> (n: usize)
        ensures
            n == self.covered_cols(),
    {
        count_set(&self.col_cover)
    }

    /// The first unmarked zero on no covered line, rows first.
    pub(crate) fn find_uncovered_zero(&self) -> (found: Option<(usize, usize)>)
        requires
            self.sound(),
        ensures
            match found {
                Some((r, c)) => r < self.rows() && c < self.cols() && self.is_open_zero(
                    r as int,
                    c as int,
                ),
                None => forall|r: int, c: int| !self.is_open_zero(r, c),
            },
    {
        let rows = self.row_cover.len();
        let cols = self.col_cover.len();
        let mut r: usize = 0;
        while r < rows
            invariant
                r <= rows,
                rows == self.rows(),
                cols == self.cols(),
                self.shaped(),
                forall|i: int, j: int| 0 <= i < r ==> !self.is_open_zero(i, j),
            decreases rows - r,
        {
            let mut c: usize = 0;
            while c < cols
                invariant
                    r < rows,
                    c <= cols,
                    rows == self.rows(),
                    cols == self.cols(),
                    self.shaped(),
                    forall|i: int, j: int| 0 <= i < r ==> !self.is_open_zero(i, j),
                    forall|j: int| 0 <= j < c ==> !self.is_open_zero(r as int, j),
                decreases cols - c,
            {
                if self.work[r][c] == 0 && mask_get(&self.mask, r, c).is_none()
                    && !self.row_cover[r] && !self.col_cover[c] {
                    return Some((r, c));
                }
                c = c + 1;
            }
            r = r + 1;
        }
        None
    }

    /// The column of the star in `row`, if it has one.
    pub(crate) fn find_star_in_row(&self, row: usize) -> (found: Option<usize>)
        requires
            self.sound(),
            row < self.rows(),
        ensures
            match found {
                Some(c) => c < self.cols() && self.star_in_row(row as int) == c,
                None => self.star_in_row(row as int) < 0,
            },
    {
        let cols = self.col_cover.len();
        let mut c: usize = 0;
        while c < cols
            invariant
                c <= cols,
                cols == self.cols(),
                row < self.rows(),
                self.sound(),
                !(0 <= self.row_star@[row as int] < c),
            decreases cols - c,
        {
            if mask_get(&self.mask, row, c) == Some(Mark::Star) {
                return Some(c);
            }
            c = c + 1;
        }
        None
    }

    /// The row of the star in `col`, if it has one.
    pub(crate) fn find_star_in_col(&self, col: usize) -> (found: Option<usize>)
        requires
            self.sound(),
            col < self.cols(),
        ensures
            match found {
                Some(r) => r < self.rows() && self.star_in_col(col as int) == r,
                None => self.star_in_col(col as int) < 0,
            },
    {
        let rows = self.row_cover.len();
        let mut r: usize = 0;
        while r < rows
            invariant
                r <= rows,
                rows == self.rows(),
                col < self.cols(),
                self.sound(),
                !(0 <= self.col_star@[col as int] < r),
            decreases rows - r,
        {
            if mask_get(&self.mask, r, col) == Some(Mark::Star) {
                return Some(r);
            }
            r = r + 1;
        }
        None
    }

    /// The column of the prime in `row`, if it has one.
    pub(crate) fn find_prime_in_row(&self, row: usize) -> (found: Option<usize>)
        requires
            self.sound(),
            row < self.rows(),
        ensures
            match found {
                Some(c) => c < self.cols() && self.prime_in_row(row as int) == c,
                None => self.prime_in_row(row as int) < 0,
            },
    {
        let cols = self.col_cover.len();
        let mut c: usize = 0;
        while c < cols
            invariant
                c <= cols,
                cols == self.cols(),
                row < self.rows(),
                self.sound(),
                !(0 <= self.row_prime@[row as int] < c),
            decreases cols - c,
        {
            if mask_get(&self.mask, row, c) == Some(Mark::Prime) {
                return Some(c);
            }
            c = c + 1;
        }
        None
    }

    /// Primes the uncovered zero at `row`, `col` in a row whose star stands in
    /// column `adj`, covers the row and uncovers that column.
    pub(crate) fn prime_and_cover(&mut self, row: usize, col: usize, adj: usize)
        requires
            old(self).sound(),
            old(self).slack_ok(-1),
            old(self).covers_ok(),
            old(self).is_open_zero(row as int, col as int),
            old(self).star_in_row(row as int) == adj,
        ensures
            final(self).sound(),
            final(self).slack_ok(-1),
            final(self).covers_ok(),
            final(self).covered_rows() == old(self).covered_rows() + 1,
            final(self).stars() == old(self).stars(),
            final(self).rows() == old(self).rows(),
            final(self).cols() == old(self).cols(),
            final(self).grid() == old(self).grid(),
    {
        let ghost before = *self;
        mask_insert(&mut self.mask, row, col, Mark::Prime);
        self.row_cover[row] = true;
        self.col_cover[adj] = false;
        self.row_prime = Ghost(self.row_prime@.update(row as int, col as int));
        self.rank = Ghost(self.rank@.update(row as int, self.clock@));
        self.clock = Ghost(self.clock@ + 1);
        proof {
            assert(before.col_star@[adj as int] == row);
            assert(before.col_cover@[adj as int]);
            lemma_count_update(before.row_cover@, row as int, true);
            lemma_count_update(before.col_cover@, adj as int, false);
            assert forall|r1: int, r2: int|
                #![trigger self.rank@[r1], self.rank@[r2]]
                0 <= r1 < self.rows() && 0 <= r2 < self.rows() && self.row_cover@[r1]
                    && self.row_prime@[r2] >= 0 && self.row_prime@[r2]
                    == self.row_star@[r1] implies self.rank@[r1] < self.rank@[r2] by {
                if r2 == row {
                    assert(before.col_star@[col as int] == r1);
                    assert(r1 != row);
                    assert(before.row_cover@[r1]);
                } else if r1 == row {
                    assert(before.row_prime@[r2] == adj);
                    assert(!before.col_cover@[before.row_prime@[r2]]);
                } else {
                    assert(before.rank@[r1] < before.rank@[r2]);
                }
            }
        }
    }

    /// Row `r` and column `c` are of the matrix and neither is covered.
    pub(crate) closed spec fn is_open(&self, r: int, c: int) -> bool {
        &&& 0 <= r < self.rows()
        &&& 0 <= c < self.cols()
        &&& !self.row_cover@[r]
        &&& !self.col_cover@[c]
    }

    /// What an adjustment by `min` adds to the entry at `r`, `c`.
    pub(crate) closed spec fn shift(&self, min: int, r: int, c: int) -> int {
        (if self.row_cover@[r] {
            min
        } else {
            0
        }) - (if self.col_cover@[c] {
            0
        } else {
            min
        })
    }

    /// The least entry on no covered line; `i32::MAX` where every entry is
    /// on one.
    fn least_uncovered(&self) -> (min: i32)
        requires
            self.shaped(),
        ensures
            forall|r: int, c: int|
                self.is_open(r, c) ==> min <= #[trigger] self.work@[r]@[c],
            min == i32::MAX || exists|r: int, c: int|
                self.is_open(r, c) && #[trigger] self.work@[r]@[c] == min,
    {
        let rows = self.row_cover.len();
        let cols = self.col_cover.len();
        let mut min: i32 = i32::MAX;
        let mut r: usize = 0;
        while r < rows
            invariant
                r <= rows,
                rows == self.rows(),
                cols == self.cols(),
                self.shaped(),
                forall|i: int, j: int|
                    self.is_open(i, j) && i < r ==> min <= #[trigger] self.work@[i]@[j],
                min == i32::MAX || exists|i: int, j: int|
                    self.is_open(i, j) && #[trigger] self.work@[i]@[j] == min,
            decreases rows - r,
        {
            let mut c: usize = 0;
            while c < cols
                invariant
                    r < rows,
                    c <= cols,
                    rows == self.rows(),
                    cols == self.cols(),
                    self.shaped(),
                    forall|i: int, j: int|
                        self.is_open(i, j) && (i < r || (i == r && j < c)) ==> min
                            <= #[trigger] self.work@[i]@[j],
                    min == i32::MAX || exists|i: int, j: int|
                        self.is_open(i, j) && #[trigger] self.work@[i]@[j] == min,
                decreases cols - c,
            {
                if !(self.row_cover[r] || self.col_cover[c]) {
                    let value = self.work[r][c];
                    if value < min {
                        min = value;
                        assert(self.is_open(r as int, c as int) && self.work@[r as int]@[c as int]
                            == min);
                    }
                }
                c = c + 1;
            }
            r = r + 1;
        }
        min
    }

    /// Adds `min` to every entry of a covered row and takes it from every
    /// entry of an uncovered column.
    fn shift_entries(&mut self, min: i32)
        requires
            old(self).shaped(),
            1 <= min <= 2 * SPREAD,
            forall|r: int, c: int|
                0 <= r < old(self).rows() && 0 <= c < old(self).cols() ==> 0 <= #[trigger] old(self).work@[r]@[c] <= 2 * SPREAD,
        ensures
            final(self).shaped(),
            final(self).row_cover@ == old(self).row_cover@,
            final(self).col_cover@ == old(self).col_cover@,
            final(self).mask@ == old(self).mask@,
            final(self).base@ == old(self).base@,
            final(self).row_dual@ == old(self).row_dual@,
            final(self).col_dual@ == old(self).col_dual@,
            final(self).top@ == old(self).top@,
            final(self).row_star@ == old(self).row_star@,
            final(self).col_star@ == old(self).col_star@,
            final(self).row_prime@ == old(self).row_prime@,
            final(self).rank@ == old(self).rank@,
            final(self).clock@ == old(self).clock@,
            forall|r: int, c: int|
                0 <= r < old(self).rows() && 0 <= c < old(self).cols() ==> #[trigger] final(self).work@[r]@[c] == old(self).work@[r]@[c] + old(self).shift(min as int, r, c),
    {
        let rows = self.row_cover.len();
        let cols = self.col_cover.len();
        let ghost before = *self;
        let mut r: usize = 0;
        while r < rows
            invariant
                r <= rows,
                rows == self.rows(),
                cols == self.cols(),
                self.shaped(),
                before.shaped(),
                1 <= min <= 2 * SPREAD,
                self.row_cover@ == before.row_cover@,
                self.col_cover@ == before.col_cover@,
                self.mask@ == before.mask@,
                self.base@ == before.base@,
                self.row_dual@ == before.row_dual@,
                self.col_dual@ == before.col_dual@,
                self.top@ == before.top@,
                self.row_star@ == before.row_star@,
                self.col_star@ == before.col_star@,
                self.row_prime@ == before.row_prime@,
                self.rank@ == before.rank@,
                self.clock@ == before.clock@,
                forall|i: int, j: int|
                    0 <= i < rows && 0 <= j < cols ==> 0 <= #[trigger] before.work@[i]@[j] <= 2
                        * SPREAD,
                forall|i: int, j: int|
                    0 <= i < rows && 0 <= j < cols ==> #[trigger] self.work@[i]@[j]
                        == before.work@[i]@[j] + if i < r {
                        before.shift(min as int, i, j)
                    } else {
                        0
                    },
            decreases rows - r,
        {
            let mut c: usize = 0;
            while c < cols
                invariant
                    r < rows,
                    c <= cols,
                    rows == self.rows(),
                    cols == self.cols(),
                    self.shaped(),
                    before.shaped(),
                    1 <= min <= 2 * SPREAD,
                    self.row_cover@ == before.row_cover@,
                    self.col_cover@ == before.col_cover@,
                    self.mask@ == before.mask@,
                    self.base@ == before.base@,
                    self.row_dual@ == before.row_dual@,
                    self.col_dual@ == before.col_dual@,
                    self.top@ == before.top@,
                    self.row_star@ == before.row_star@,
                    self.col_star@ == before.col_star@,
                    self.row_prime@ == before.row_prime@,
                    self.rank@ == before.rank@,
                    self.clock@ == before.clock@,
                    forall|i: int, j: int|
                        0 <= i < rows && 0 <= j < cols ==> 0 <= #[trigger] before.work@[i]@[j]
                            <= 2 * SPREAD,
                    forall|i: int, j: int|
                        0 <= i < rows && 0 <= j < cols ==> #[trigger] self.work@[i]@[j]
                            == before.work@[i]@[j] + if i < r || (i == r && j < c) {
                            before.shift(min as int, i, j)
                        } else {
                            0
                        },
                decreases cols - c,
            {
                assert(0 <= before.work@[r as int]@[c as int] <= 2 * SPREAD);
                assert(self.work@[r as int]@[c as int] == before.work@[r as int]@[c as int]);
                if self.row_cover[r] {
                    self.work[r][c] = self.work[r][c] + min;
                }
                if !self.col_cover[c] {
                    self.work[r][c] = self.work[r][c] - min;
                }
                c = c + 1;
            }
            r = r + 1;
        }
    }

    /// Where no uncovered zero is left: finds the least entry on no covered
    /// line, adds it to every covered row and takes it from every uncovered
    /// column. An uncovered zero appears.
    pub(crate) fn adjust(&mut self)
        requires
            old(self).sound(),
            old(self).slack_ok(-1),
            old(self).covers_ok(),
            old(self).stars() < old(self).rows(),
            old(self).stars() < old(self).cols(),
            forall|r: int, c: int| !old(self).is_open_zero(r, c),
        ensures
            final(self).sound(),
            final(self).slack_ok(-1),
            final(self).covers_ok(),
            exists|r: int, c: int| final(self).is_open_zero(r, c),
            final(self).covered_rows() == old(self).covered_rows(),
            final(self).stars() == old(self).stars(),
            final(self).rows() == old(self).rows(),
            final(self).cols() == old(self).cols(),
            final(self).grid() == old(self).grid(),
    {
        let ghost before = *self;
        let rows = self.row_cover.len();
        let cols = self.col_cover.len();
        let min = self.least_uncovered();
        let ghost free_row: int;
        let ghost free_col: int;
        proof {
            lemma_count_bound(self.col_cover@);
            free_row = lemma_count_gap(self.row_cover@);
            free_col = lemma_count_gap(held(self.col_star@));
            assert(self.col_star@[free_col] < 0);
            assert(!self.col_cover@[free_col]);
            assert(self.is_open(free_row, free_col));
            assert(min <= self.work@[free_row]@[free_col]);
            assert forall|r: int, c: int| self.is_open(r, c) implies #[trigger] self.work@[r]@[c]
                >= 1 by {
                assert(!self.is_open_zero(r, c));
                assert(r < rows && c < cols);
                assert((r as usize) as int == r && (c as usize) as int == c);
                if self.mask@.contains_key((r as usize, c as usize)) {
                    if self.row_star@[r] == c {
                        assert(self.col_star@[c] == r);
                    } else {
                        assert(self.row_prime@[r] == c);
                    }
                }
            }
            assert forall|r: int, c: int|
                0 <= r < self.rows() && 0 <= c < self.cols() implies 0 <= #[trigger] self.work@[r]@[c]
                <= 2 * SPREAD by {
                assert(self.row_dual@[r] >= 0);
                assert(self.col_dual@[c] >= -SPREAD);
            }
        }
        let ghost (low_row, low_col) = choose|r: int, c: int|
            self.is_open(r, c) && #[trigger] self.work@[r]@[c] == min;
        self.shift_entries(min);
        let ghost shifted = *self;
        self.row_dual = Ghost(
            Seq::new(
                before.rows(),
                |r: int|
                    if before.row_cover@[r] {
                        before.row_dual@[r]
                    } else {
                        before.row_dual@[r] + min
                    },
            ),
        );
        self.col_dual = Ghost(
            Seq::new(
                before.cols(),
                |c: int|
                    if before.col_cover@[c] {
                        before.col_dual@[c] - min
                    } else {
                        before.col_dual@[c]
                    },
            ),
        );
        self.top = Ghost(before.top@ + min);
        proof {
            assert forall|r: int, c: int| 0 <= r < self.rows() && 0 <= c < self.cols() implies {
                &&& #[trigger] self.work@[r]@[c] == self.base@[r][c] - self.row_dual@[r]
                    - self.col_dual@[c]
                &&& self.work@[r]@[c] >= 0
                &&& 0 <= self.base@[r][c] <= SPREAD
            } by {
                assert(self.work@[r]@[c] == before.work@[r]@[c] + before.shift(min as int, r, c));
                if before.is_open(r, c) {
                    assert(min <= before.work@[r]@[c]);
                }
            }
            assert forall|r: int| 0 <= r < self.rows() implies 0 <= #[trigger] self.row_dual@[r]
                <= self.top@ && self.row_dual@[r] <= SPREAD by {
                assert(before.row_dual@[r] <= before.top@);
                assert(self.work@[r]@[free_col] >= 0);
                assert(before.col_dual@[free_col] == 0);
            }
            assert forall|c: int| 0 <= c < self.cols() implies -SPREAD
                <= #[trigger] self.col_dual@[c] <= 0 && (self.col_star@[c] < 0
                ==> self.col_dual@[c] == 0) by {
                assert(before.col_dual@[c] <= 0);
                if before.col_cover@[c] {
                    let r = before.col_star@[c];
                    assert(!before.row_cover@[r]);
                    assert(before.row_star@[r] == c);
                    assert(before.work@[r]@[c] == 0);
                    assert(self.work@[r]@[c] == before.work@[r]@[c] + before.shift(
                        min as int,
                        r,
                        c,
                    ));
                    assert(self.row_dual@[r] <= SPREAD);
                }
            }
            assert forall|r: int| 0 <= r < self.rows() && self.row_star@[r] >= 0 implies self.work@[r]@[self.row_star@[r]]
                == 0 by {
                let c = self.row_star@[r];
                assert(before.col_star@[c] == r);
                assert(self.work@[r]@[c] == before.work@[r]@[c] + before.shift(min as int, r, c));
            }
            assert forall|r: int|
                0 <= r < self.rows() && self.row_prime@[r] >= 0 implies self.work@[r]@[self.row_prime@[r]]
                == 0 by {
                let c = self.row_prime@[r];
                assert(before.row_cover@[r]);
                assert(self.work@[r]@[c] == before.work@[r]@[c] + before.shift(min as int, r, c));
            }
            assert(self.marks_ok());
            assert forall|r: int|
                0 <= r < self.rows() && self.row_star@[r] < 0 implies #[trigger] self.row_dual@[r]
                == self.top@ by {
                assert(before.row_dual@[r] == before.top@);
                assert(!before.row_cover@[r]);
            }
            assert(self.work@[low_row]@[low_col] == before.work@[low_row]@[low_col] + before.shift(
                min as int,
                low_row,
                low_col,
            ));
            assert(low_row < rows && low_col < cols);
            assert((low_row as usize) as int == low_row && (low_col as usize) as int == low_col);
            assert(before.work@[low_row]@[low_col] >= 1);
            assert(!before.mask@.contains_key((low_row as usize, low_col as usize)));
            assert(self.is_open_zero(low_row, low_col));
        }
    }

    /// While stars and primes change places along a path: the prime at `r`,
    /// `c` is the next to become a star, the rows in `done` have theirs, and
    /// every other row is as it was when the path began.
    pub(crate) closed spec fn flipping(&self, r: int, c: int, done: Seq<bool>) -> bool {
        &&& done.len() == self.rows()
        &&& 0 <= r < self.rows()
        &&& 0 <= c < self.cols()
        &&& self.row_star@[r] == -1
        &&& self.row_prime@[r] == c
        &&& !self.col_cover@[c]
        &&& !done[r]
        &&& self.rank@[r] >= 0
        &&& forall|y: int|
            0 <= y < self.rows() && !done[y] && y != r ==> (#[trigger] self.row_cover@[y]
                <==> self.row_prime@[y] >= 0)
        &&& forall|y: int|
            0 <= y < self.rows() && #[trigger] self.row_prime@[y] >= 0
                ==> !self.col_cover@[self.row_prime@[y]]
        &&& forall|y: int|
            0 <= y < self.rows() && !done[y] && #[trigger] self.row_star@[y] >= 0
                ==> self.col_cover@[self.row_star@[y]] || (self.row_cover@[y] && self.rank@[y]
                >= 0)
        &&& forall|y: int|
            0 <= y < self.rows() && #[trigger] done[y] ==> self.row_star@[y] >= 0
                && self.row_prime@[y] == -1
        &&& forall|y1: int, y2: int|
            #![trigger self.rank@[y1], self.rank@[y2]]
            0 <= y1 < self.rows() && 0 <= y2 < self.rows() && !done[y1] && self.row_cover@[y1]
                && self.row_star@[y1] >= 0 && self.row_prime@[y2] >= 0 && self.row_prime@[y2]
                == self.row_star@[y1] ==> self.rank@[y1] < self.rank@[y2]
        &&& forall|y: int, z: int|
            #![trigger done[y], self.rank@[z]]
            0 <= y < self.rows() && 0 <= z < self.rows() && done[y] && self.row_prime@[z] >= 0
                && self.row_prime@[z] == self.row_star@[y] ==> self.rank@[z] > self.rank@[r]
    }

    /// Primes the uncovered zero at `row`, `col` in a row without a star, and
    /// follows the path from it: to the star in the prime's column, to the
    /// prime in that star's row, and on, until a prime's column holds no
    /// star. Each prime on the path becomes a star and each star on it goes.
    /// Then every line is uncovered and every prime erased. There is one star
    /// more than before.
    pub(crate) fn augment(&mut self, row: usize, col: usize)
        requires
            old(self).sound(),
            old(self).slack_ok(-1),
            old(self).covers_ok(),
            old(self).is_open_zero(row as int, col as int),
            old(self).star_in_row(row as int) < 0,
        ensures
            final(self).sound(),
            final(self).slack_ok(-1),
            final(self).fresh(),
            final(self).stars() == old(self).stars() + 1,
            final(self).rows() == old(self).rows(),
            final(self).cols() == old(self).cols(),
            final(self).grid() == old(self).grid(),
    {
        let rows = self.row_cover.len();
        let cols = self.col_cover.len();
        let ghost start = *self;
        mask_insert(&mut self.mask, row, col, Mark::Prime);
        self.row_prime = Ghost(self.row_prime@.update(row as int, col as int));
        self.rank = Ghost(self.rank@.update(row as int, self.clock@));
        self.clock = Ghost(self.clock@ + 1);
        let ghost mut done: Seq<bool> = Seq::new(rows as nat, |y: int| false);
        let mut r: usize = row;
        let mut c: usize = col;
        proof {
            assert forall|y1: int, y2: int|
                #![trigger self.rank@[y1], self.rank@[y2]]
                0 <= y1 < self.rows() && 0 <= y2 < self.rows() && !done[y1] && self.row_cover@[y1]
                    && self.row_star@[y1] >= 0 && self.row_prime@[y2] >= 0 && self.row_prime@[y2]
                    == self.row_star@[y1] implies self.rank@[y1] < self.rank@[y2] by {
                if y2 != row {
                    assert(start.rank@[y1] < start.rank@[y2]);
                }
            }
            assert(self.flipping(r as int, c as int, done));
        }
        loop
            invariant_except_break
                self.flipping(r as int, c as int, done),
                self.slack_ok(r as int),
                self.stars() == start.stars(),
            invariant
                rows == self.rows(),
                cols == self.cols(),
                self.sound(),
                self.rows() == start.rows(),
                self.cols() == start.cols(),
                self.grid() == start.grid(),
            ensures
                self.slack_ok(-1),
                self.stars() == start.stars() + 1,
            decreases self.rank@[r as int],
        {
            let ghost before = *self;
            let next = self.find_star_in_col(c);
            mask_insert(&mut self.mask, r, c, Mark::Star);
            self.row_star = Ghost(self.row_star@.update(r as int, c as int));
            self.col_star = Ghost(self.col_star@.update(c as int, r as int));
            self.row_prime = Ghost(self.row_prime@.update(r as int, -1));
            match next {
                None => {
                    proof {
                        assert(held(self.row_star@) =~= held(before.row_star@).update(
                            r as int,
                            true,
                        ));
                        assert(held(self.col_star@) =~= held(before.col_star@).update(
                            c as int,
                            true,
                        ));
                        lemma_count_update(held(before.row_star@), r as int, true);
                        lemma_count_update(held(before.col_star@), c as int, true);
                        assert(self.marks_ok());
                    }
                    break ;
                },
                Some(x) => {
                    mask_remove(&mut self.mask, x, c);
                    self.row_star = Ghost(self.row_star@.update(x as int, -1));
                    proof {
                        assert(before.row_star@[x as int] == c);
                        assert(x != r);
                        if done[x as int] {
                            assert(before.rank@[r as int] > before.rank@[r as int]);
                        }
                        assert(before.row_cover@[x as int]);
                        assert(before.row_prime@[x as int] >= 0);
                        assert(before.rank@[x as int] < before.rank@[r as int]);
                        assert(held(self.row_star@) =~= held(before.row_star@).update(
                            r as int,
                            true,
                        ).update(x as int, false));
                        assert(held(self.col_star@) =~= held(before.col_star@));
                        lemma_count_update(held(before.row_star@), r as int, true);
                        lemma_count_update(
                            held(before.row_star@).update(r as int, true),
                            x as int,
                            false,
                        );
                        assert(self.marks_ok());
                    }
                    let prime = self.find_prime_in_row(x);
                    proof {
                        done = done.update(r as int, true);
                    }
                    r = x;
                    c = prime.unwrap();
                    proof {
                        assert forall|y: int, z: int|
                            #![trigger done[y], self.rank@[z]]
                            0 <= y < self.rows() && 0 <= z < self.rows() && done[y]
                                && self.row_prime@[z] >= 0 && self.row_prime@[z]
                                == self.row_star@[y] implies self.rank@[z] > self.rank@[r as int] by {
                        }
                        assert(self.flipping(r as int, c as int, done));
                    }
                },
            }
        }
        let ghost flipped = *self;
        self.row_cover = cleared(rows);
        self.col_cover = cleared(cols);
        mask_keep_stars(&mut self.mask);
        self.row_prime = Ghost(Seq::new(rows as nat, |y: int| -1int));
        proof {
            assert forall|y: usize, x: usize| y < self.rows() && x < self.cols() implies (
            #[trigger] self.mask@.contains_key((y, x)) <==> self.row_star@[y as int] == x
                || self.row_prime@[y as int] == x) by {
                assert(flipped.mask@.contains_key((y, x)) <==> flipped.row_star@[y as int] == x
                    || flipped.row_prime@[y as int] == x);
            }
            assert(self.shaped());
            assert(self.duals_ok());
            assert(self.marks_ok());
        }
    }

    /// `a` pairs each row that holds a star with the column of its star.
    pub(crate) closed spec fn holds_stars(&self, a: Map<usize, usize>) -> bool {
        &&& a.dom().finite()
        &&& forall|r: usize| #[trigger]
            a.contains_key(r) <==> r < self.rows() && self.row_star@[r as int] >= 0
        &&& forall|r: usize| #[trigger] a.contains_key(r) ==> a[r] == self.row_star@[r as int]
    }

    /// The starred zeros as a map from row to column.
    pub(crate) fn starred(&self) -> (result: FnvHashMap<usize, usize>)
        requires
            self.sound(),
        ensures
            self.holds_stars(result@),
    {
        broadcast use vstd::std_specs::hash::group_hash_axioms;

        let rows = self.row_cover.len();
        let mut result: FnvHashMap<usize, usize> = FnvHashMap::default();
        let mut r: usize = 0;
        while r < rows
            invariant
                r <= rows,
                rows == self.rows(),
                self.sound(),
                result@.dom().finite(),
                forall|y: usize| #[trigger]
                    result@.contains_key(y) <==> y < r && self.row_star@[y as int] >= 0,
                forall|y: usize| #[trigger]
                    result@.contains_key(y) ==> result@[y] == self.row_star@[y as int],
            decreases rows - r,
        {
            match self.find_star_in_row(r) {
                Some(c) => {
                    map_insert(&mut result, r, c);
                },
                None => {},
            }
            r = r + 1;
        }
        result
    }

    /// With the stars as many as the smaller side of the matrix, they make an
    /// assignment of that size, and no assignment of that size costs less on
    /// the row-reduced matrix.
    pub(crate) proof fn lemma_stars_optimal(&self, a: Map<usize, usize>, other: Map<usize, usize>)
        requires
            self.sound(),
            self.slack_ok(-1),
            self.holds_stars(a),
            is_assignment(other, self.rows(), self.cols()),
            other.dom().len() == self.stars(),
            self.rows() <= usize::MAX,
        ensures
            is_assignment(a, self.rows(), self.cols()),
            a.dom().len() == self.stars(),
            total_cost(self.grid(), a) <= total_cost(self.grid(), other),
    {
        let rows = self.rows();
        let cols = self.cols();
        self.lemma_stars_assign(a);
        let best = choice(a, rows);
        let sel = choice(other, rows);
        assert(best =~= self.row_star@);
        lemma_choice_is_selection(a, rows, cols);
        lemma_choice_is_selection(other, rows, cols);
        lemma_assignment_size(a, rows, cols);
        lemma_assignment_size(other, rows, cols);
        assert forall|r: int, c: int| 0 <= r < rows && 0 <= c < cols implies #[trigger] self.base@[r][c]
            >= self.row_dual@[r] + self.col_dual@[c] by {
            assert(self.work@[r]@[c] >= 0);
        }
        assert forall|r: int| 0 <= r < rows && best[r] >= 0 implies #[trigger] self.base@[r][best[r]]
            == self.row_dual@[r] + self.col_dual@[best[r]] by {
            assert(self.work@[r]@[best[r]] == 0);
        }
        assert forall|c: int| 0 <= c < cols && self.col_dual@[c] != 0 implies exists|r: int|
            0 <= r < rows && best[r] == c by {
            let r = self.col_star@[c];
            assert(0 <= r < rows && best[r] == c);
        }
        lemma_certified_optimum(
            self.base@,
            rows,
            cols,
            self.row_dual@,
            self.col_dual@,
            self.top@,
            best,
            sel,
        );
    }

    /// The stars make an assignment with one pair for each star.
    pub(crate) proof fn lemma_stars_assign(&self, a: Map<usize, usize>)
        requires
            self.sound(),
            self.holds_stars(a),
            self.rows() <= usize::MAX,
        ensures
            is_assignment(a, self.rows(), self.cols()),
            a.dom().len() == self.stars(),
            choice(a, self.rows()) == self.star_columns(),
            self.stars() == count_upto(chosen(self.star_columns()), self.rows()),
    {
        let rows = self.rows();
        let cols = self.cols();
        assert forall|r1: usize, r2: usize|
            #![trigger a.contains_key(r1), a.contains_key(r2)]
            a.contains_key(r1) && a.contains_key(r2) && a[r1] == a[r2] implies r1 == r2 by {
            assert(self.col_star@[self.row_star@[r1 as int]] == r1);
            assert(self.col_star@[self.row_star@[r2 as int]] == r2);
        }
        assert forall|r: usize| #[trigger] a.contains_key(r) implies r < rows && a[r] < cols by {
            assert(self.row_star@[r as int] < cols);
        }
        lemma_assignment_size(a, rows, cols);
        assert(chosen(choice(a, rows)) =~= held(self.row_star@));
        lemma_count_upto_all(held(self.row_star@));
        assert(choice(a, rows) =~= self.row_star@);
    }

    /// There are as many stars as rows that hold one.
    pub(crate) proof fn lemma_star_count(&self)
        requires
            self.sound(),
        ensures
            self.stars() == count_upto(chosen(self.star_columns()), self.rows()),
    {
        assert(chosen(self.row_star@) =~= held(self.row_star@));
        lemma_count_upto_all(held(self.row_star@));
    }

    /// No more rows are covered than there are rows.
    pub(crate) proof fn lemma_covered_bound(&self)
        ensures
            self.covered_rows() <= self.rows(),
    {
        lemma_count_bound(self.row_cover@);
    }

    /// With no line covered, no row is covered.
    pub(crate) proof fn lemma_fresh_uncovered(&self)
        requires
            self.fresh(),
        ensures
            self.covered_rows() == 0,
    {
        lemma_count_none(self.row_cover@);
    }
}

} // verus!
