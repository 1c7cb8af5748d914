use crate::counting::count_upto;
use crate::counting::full_sum;
use crate::counting::lemma_count_full;
use crate::counting::lemma_count_upto_all;
use crate::counting::lemma_masked_above_full;
use crate::counting::lemma_masked_below_full;
use crate::counting::lemma_masked_complement;
use crate::counting::lemma_masked_is_full;
use crate::counting::lemma_masked_set;
use crate::counting::masked_sum;
use vstd::prelude::*;

verus! {

/// The cost matrix as a grid of mathematical integers.
pub open spec fn costs(matrix: Seq<Vec<i16>>) -> Seq<Seq<int>> {
    Seq::new(matrix.len(), |r: int| Seq::new(matrix[r]@.len(), |c: int| matrix[r]@[c] as int))
}

/// Every row is as long as the first one.
pub open spec fn rectangular(grid: Seq<Seq<int>>) -> bool {
    forall|r: int| 0 <= r < grid.len() ==> (#[trigger] grid[r]).len() == grid[0].len()
}

/// The number of columns of a grid; an empty grid has none.
pub open spec fn width(grid: Seq<Seq<int>>) -> nat {
    if grid.len() == 0 {
        0
    } else {
        grid[0].len()
    }
}

/// The least entry of a non-empty row.
pub open spec fn row_min(row: Seq<int>) -> int
    decreases row.len(),
{
    if row.len() == 0 {
        0
    } else if row.len() == 1 {
        row[0]
    } else if row.last() < row_min(row.drop_last()) {
        row.last()
    } else {
        row_min(row.drop_last())
    }
}

/// The least entry of a row is an entry of it, and none is smaller.
pub proof fn lemma_row_min(row: Seq<int>)
    requires
        row.len() > 0,
    ensures
        forall|c: int| 0 <= c < row.len() ==> row_min(row) <= row[c],
        exists|c: int| 0 <= c < row.len() && row[c] == row_min(row),
    decreases row.len(),
{
    if row.len() > 1 {
        let front = row.drop_last();
        lemma_row_min(front);
        let w = choose|c: int| 0 <= c < front.len() && front[c] == row_min(front);
        assert(front[w] == row[w]);
        assert forall|c: int| 0 <= c < row.len() implies row_min(row) <= row[c] by {
            if c < row.len() - 1 {
                assert(front[c] == row[c]);
            }
        }
        if row.last() < row_min(front) {
            assert(row[row.len() - 1] == row_min(row));
        } else {
            assert(row[w] == row_min(row));
        }
    } else {
        assert(row[0] == row_min(row));
    }
}

/// The grid after the least entry of each row has been taken from that row.
pub open spec fn reduced(grid: Seq<Seq<int>>) -> Seq<Seq<int>> {
    Seq::new(grid.len(), |r: int| Seq::new(grid[r].len(), |c: int| grid[r][c] - row_min(grid[r])))
}

/// A partial one-to-one map from rows to columns of a `rows` by `cols` grid.
pub open spec fn is_assignment(a: Map<usize, usize>, rows: nat, cols: nat) -> bool {
    &&& a.dom().finite()
    &&& forall|r: usize| #[trigger] a.contains_key(r) ==> r < rows && a[r] < cols
    &&& forall|r1: usize, r2: usize|
        #![trigger a.contains_key(r1), a.contains_key(r2)]
        a.contains_key(r1) && a.contains_key(r2) && a[r1] == a[r2] ==> r1 == r2
}

/// For each of the first `rows` rows the column that `a` gives it, or -1.
pub open spec fn choice(a: Map<usize, usize>, rows: nat) -> Seq<int> {
    Seq::new(
        rows,
        |r: int|
            if a.contains_key(r as usize) {
                a[r as usize] as int
            } else {
                -1
            },
    )
}

/// The sum, over the first `n` rows that have a column in `sel`, of the entry there.
pub open spec fn sel_cost(grid: Seq<Seq<int>>, sel: Seq<int>, n: nat) -> int
    decreases n,
{
    if n == 0 {
        0
    } else {
        sel_cost(grid, sel, (n - 1) as nat) + if sel[n - 1] >= 0 {
            grid[n - 1][sel[n - 1]]
        } else {
            0
        }
    }
}

/// What the pairs of an assignment cost in all.
pub open spec fn total_cost(grid: Seq<Seq<int>>, a: Map<usize, usize>) -> int {
    sel_cost(grid, choice(a, grid.len()), grid.len())
}

/// A column or -1 for each row, no column twice.
pub open spec fn is_selection(sel: Seq<int>, rows: nat, cols: nat) -> bool {
    &&& sel.len() == rows
    &&& forall|r: int| 0 <= r < rows ==> -1 <= #[trigger] sel[r] < cols
    &&& forall|r1: int, r2: int|
        #![trigger sel[r1], sel[r2]]
        0 <= r1 < rows && 0 <= r2 < rows && sel[r1] >= 0 && sel[r1] == sel[r2] ==> r1 == r2
}

/// Which rows have a column.
pub open spec fn chosen(sel: Seq<int>) -> Seq<bool> {
    Seq::new(sel.len(), |r: int| sel[r] >= 0)
}

/// Which columns the first `n` rows take.
pub open spec fn used(sel: Seq<int>, n: nat, cols: nat) -> Seq<bool>
    decreases n,
{
    if n == 0 {
        Seq::new(cols, |c: int| false)
    } else if 0 <= sel[n - 1] < cols {
        used(sel, (n - 1) as nat, cols).update(sel[n - 1], true)
    } else {
        used(sel, (n - 1) as nat, cols)
    }
}

/// The sum of `v` at the columns that the first `n` rows take.
pub open spec fn picked_sum(v: Seq<int>, sel: Seq<int>, n: nat) -> int
    decreases n,
{
    if n == 0 {
        0
    } else {
        picked_sum(v, sel, (n - 1) as nat) + if sel[n - 1] >= 0 {
            v[sel[n - 1]]
        } else {
            0
        }
    }
}

proof fn lemma_used(sel: Seq<int>, n: nat, cols: nat)
    requires
        n <= sel.len(),
    ensures
        used(sel, n, cols).len() == cols,
        forall|c: int|
            0 <= c < cols ==> (#[trigger] used(sel, n, cols)[c] <==> exists|r: int|
                0 <= r < n && sel[r] == c),
    decreases n,
{
    if n > 0 {
        lemma_used(sel, (n - 1) as nat, cols);
        let before = used(sel, (n - 1) as nat, cols);
        let after = used(sel, n, cols);
        assert forall|c: int| 0 <= c < cols implies (#[trigger] after[c] <==> exists|r: int|
            0 <= r < n && sel[r] == c) by {
            if after[c] {
                if before[c] {
                    let r = choose|r: int| 0 <= r < n - 1 && sel[r] == c;
                    assert(0 <= r < n && sel[r] == c);
                } else {
                    assert(sel[n - 1] == c);
                }
            }
            if exists|r: int| 0 <= r < n && sel[r] == c {
                let r = choose|r: int| 0 <= r < n && sel[r] == c;
                if r < n - 1 {
                    assert(before[c]);
                }
            }
        }
    }
}

proof fn lemma_picked_is_masked(v: Seq<int>, sel: Seq<int>, n: nat, rows: nat, cols: nat)
    requires
        is_selection(sel, rows, cols),
        n <= rows,
        v.len() == cols,
    ensures
        picked_sum(v, sel, n) == masked_sum(v, used(sel, n, cols), cols),
    decreases n,
{
    if n == 0 {
        lemma_masked_is_zero(v, used(sel, 0, cols), cols);
    } else {
        let m = (n - 1) as nat;
        lemma_picked_is_masked(v, sel, m, rows, cols);
        lemma_used(sel, m, cols);
        if sel[n - 1] >= 0 {
            let before = used(sel, m, cols);
            let c = sel[n - 1];
            if before[c] {
                let r = choose|r: int| 0 <= r < m && sel[r] == c;
                assert(sel[r] == sel[n - 1]);
                assert(false);
            }
            lemma_masked_set(v, before, c, cols);
        }
    }
}

proof fn lemma_masked_is_zero(w: Seq<int>, on: Seq<bool>, n: nat)
    requires
        n <= on.len(),
        forall|i: int| 0 <= i < n ==> !on[i],
    ensures
        masked_sum(w, on, n) == 0,
    decreases n,
{
    if n > 0 {
        lemma_masked_is_zero(w, on, (n - 1) as nat);
    }
}

/// A sum over chosen entries is at least the sum of lower bounds on them.
proof fn lemma_cost_above_duals(
    grid: Seq<Seq<int>>,
    u: Seq<int>,
    v: Seq<int>,
    sel: Seq<int>,
    n: nat,
    rows: nat,
    cols: nat,
)
    requires
        is_selection(sel, rows, cols),
        n <= rows,
        grid.len() == rows,
        u.len() == rows,
        v.len() == cols,
        forall|r: int, c: int|
            0 <= r < rows && 0 <= c < cols ==> #[trigger] grid[r][c] >= u[r] + v[c],
    ensures
        sel_cost(grid, sel, n) >= masked_sum(u, chosen(sel), n) + picked_sum(v, sel, n),
    decreases n,
{
    if n > 0 {
        lemma_cost_above_duals(grid, u, v, sel, (n - 1) as nat, rows, cols);
        if sel[n - 1] >= 0 {
            assert(grid[n - 1][sel[n - 1]] >= u[n - 1] + v[sel[n - 1]]);
        }
    }
}

/// Where each chosen entry meets its lower bound, so does the sum.
proof fn lemma_cost_is_duals(
    grid: Seq<Seq<int>>,
    u: Seq<int>,
    v: Seq<int>,
    sel: Seq<int>,
    n: nat,
    rows: nat,
    cols: nat,
)
    requires
        is_selection(sel, rows, cols),
        n <= rows,
        grid.len() == rows,
        u.len() == rows,
        v.len() == cols,
        forall|r: int|
            0 <= r < rows && sel[r] >= 0 ==> #[trigger] grid[r][sel[r]] == u[r] + v[sel[r]],
    ensures
        sel_cost(grid, sel, n) == masked_sum(u, chosen(sel), n) + picked_sum(v, sel, n),
    decreases n,
{
    if n > 0 {
        lemma_cost_is_duals(grid, u, v, sel, (n - 1) as nat, rows, cols);
        if sel[n - 1] >= 0 {
            assert(grid[n - 1][sel[n - 1]] == u[n - 1] + v[sel[n - 1]]);
        }
    }
}

/// A selection whose entries meet a feasible pair of row and column bounds, with
/// the rows it leaves out at the top bound and the columns it leaves out at
/// zero, costs no more than any selection of the same size.
pub proof fn lemma_certified_optimum(
    grid: Seq<Seq<int>>,
    rows: nat,
    cols: nat,
    u: Seq<int>,
    v: Seq<int>,
    top: int,
    best: Seq<int>,
    other: Seq<int>,
)
    requires
        grid.len() == rows,
        u.len() == rows,
        v.len() == cols,
        is_selection(best, rows, cols),
        is_selection(other, rows, cols),
        count_upto(chosen(best), rows) == count_upto(chosen(other), rows),
        forall|r: int, c: int|
            0 <= r < rows && 0 <= c < cols ==> #[trigger] grid[r][c] >= u[r] + v[c],
        forall|r: int|
            0 <= r < rows && best[r] >= 0 ==> #[trigger] grid[r][best[r]] == u[r] + v[best[r]],
        forall|r: int| 0 <= r < rows ==> #[trigger] u[r] <= top,
        forall|r: int| 0 <= r < rows && best[r] < 0 ==> #[trigger] u[r] == top,
        forall|c: int| 0 <= c < cols ==> #[trigger] v[c] <= 0,
        forall|c: int|
            0 <= c < cols && v[c] != 0 ==> exists|r: int| 0 <= r < rows && best[r] == c,
    ensures
        sel_cost(grid, best, rows) <= sel_cost(grid, other, rows),
{
    let slack = Seq::new(rows, |r: int| top - u[r]);
    lemma_cost_above_duals(grid, u, v, other, rows, rows, cols);
    lemma_cost_is_duals(grid, u, v, best, rows, rows, cols);
    // columns
    lemma_picked_is_masked(v, other, rows, rows, cols);
    lemma_picked_is_masked(v, best, rows, rows, cols);
    lemma_used(other, rows, cols);
    lemma_used(best, rows, cols);
    lemma_masked_above_full(v, used(other, rows, cols), cols);
    lemma_masked_is_full(v, used(best, rows, cols), cols);
    // rows
    lemma_masked_complement(u, slack, chosen(other), top, rows);
    lemma_masked_complement(u, slack, chosen(best), top, rows);
    lemma_masked_below_full(slack, chosen(other), rows);
    lemma_masked_is_full(slack, chosen(best), rows);
}

/// An assignment read row by row is a selection.
pub proof fn lemma_choice_is_selection(a: Map<usize, usize>, rows: nat, cols: nat)
    requires
        is_assignment(a, rows, cols),
        rows <= usize::MAX,
    ensures
        is_selection(choice(a, rows), rows, cols),
{
    let sel = choice(a, rows);
    assert forall|r1: int, r2: int|
        0 <= r1 < rows && 0 <= r2 < rows && sel[r1] >= 0 && sel[r1] == sel[r2] implies r1
        == r2 by {
        assert(a.contains_key(r1 as usize) && a.contains_key(r2 as usize));
    }
    assert forall|r: int| 0 <= r < rows implies -1 <= #[trigger] sel[r] < cols by {
        if a.contains_key(r as usize) {
        }
    }
}

/// The keys of an assignment are as many as the rows that have a column.
pub proof fn lemma_assignment_size(a: Map<usize, usize>, rows: nat, cols: nat)
    requires
        is_assignment(a, rows, cols),
        rows <= usize::MAX,
    ensures
        a.dom().len() == count_upto(chosen(choice(a, rows)), rows),
{
    lemma_keys_below(a, rows, cols, rows);
    assert(a.dom().filter(|k: usize| k < rows) =~= a.dom());
}

proof fn lemma_keys_below(a: Map<usize, usize>, rows: nat, cols: nat, n: nat)
    requires
        is_assignment(a, rows, cols),
        rows <= usize::MAX,
        n <= rows,
    ensures
        a.dom().filter(|k: usize| k < n).finite(),
        a.dom().filter(|k: usize| k < n).len() == count_upto(chosen(choice(a, rows)), n),
    decreases n,
{
    let below = a.dom().filter(|k: usize| k < n);
    a.dom().lemma_len_filter(|k: usize| k < n);
    if n == 0 {
        assert(below =~= Set::<usize>::empty());
    } else {
        let m = (n - 1) as nat;
        let before = a.dom().filter(|k: usize| k < m);
        lemma_keys_below(a, rows, cols, m);
        if a.contains_key(m as usize) {
            assert(below =~= before.insert(m as usize));
            assert(!before.contains(m as usize));
        } else {
            assert(below =~= before);
        }
        assert(chosen(choice(a, rows))[n - 1] == a.contains_key(m as usize));
    }
}

/// An assignment without pairs costs nothing.
pub proof fn lemma_empty_assignment_cost(grid: Seq<Seq<int>>, a: Map<usize, usize>, n: nat)
    requires
        a.dom().finite(),
        a.dom().len() == 0,
        n <= grid.len(),
    ensures
        sel_cost(grid, choice(a, grid.len()), n) == 0,
    decreases n,
{
    if n > 0 {
        lemma_empty_assignment_cost(grid, a, (n - 1) as nat);
        assert(a.dom() =~= Set::<usize>::empty());
    }
}

/// Taking a fixed amount from each row of the grid lowers the cost of a
/// selection by the amounts of the rows that have a column.
pub proof fn lemma_cost_shift(
    grid: Seq<Seq<int>>,
    low: Seq<Seq<int>>,
    shift: Seq<int>,
    sel: Seq<int>,
    n: nat,
    rows: nat,
    cols: nat,
)
    requires
        is_selection(sel, rows, cols),
        n <= rows,
        grid.len() == rows,
        low.len() == rows,
        shift.len() == rows,
        forall|r: int, c: int|
            0 <= r < rows && 0 <= c < cols ==> #[trigger] low[r][c] == grid[r][c] - shift[r],
    ensures
        sel_cost(grid, sel, n) == sel_cost(low, sel, n) + masked_sum(shift, chosen(sel), n),
    decreases n,
{
    if n > 0 {
        lemma_cost_shift(grid, low, shift, sel, (n - 1) as nat, rows, cols);
        if sel[n - 1] >= 0 {
            assert(low[n - 1][sel[n - 1]] == grid[n - 1][sel[n - 1]] - shift[n - 1]);
        }
    }
}

/// An assignment that gives every row a column costs on the grid what it
/// costs on the row-reduced grid and the least entries of all rows together.
pub proof fn lemma_full_rows_cost(grid: Seq<Seq<int>>, a: Map<usize, usize>, rows: nat, cols: nat)
    requires
        grid.len() == rows,
        forall|r: int| 0 <= r < rows ==> (#[trigger] grid[r]).len() == cols,
        is_assignment(a, rows, cols),
        a.dom().len() == rows,
        rows <= usize::MAX,
    ensures
        total_cost(grid, a) == total_cost(reduced(grid), a) + full_sum(
            Seq::new(rows, |r: int| row_min(grid[r])),
            rows,
        ),
{
    let shift = Seq::new(rows, |r: int| row_min(grid[r]));
    let sel = choice(a, rows);
    lemma_choice_is_selection(a, rows, cols);
    lemma_assignment_size(a, rows, cols);
    lemma_count_upto_all(chosen(sel));
    lemma_count_full(chosen(sel));
    lemma_cost_shift(grid, reduced(grid), shift, sel, rows, rows, cols);
    lemma_masked_is_full(shift, chosen(sel), rows);
}

/// The number of pairs that an assignment on a `rows` by `cols` grid has.
pub open spec fn pairs(rows: nat, cols: nat) -> nat {
    if rows < cols {
        rows
    } else {
        cols
    }
}

/// The assignment solves the grid: it pairs rows with columns, as many pairs
/// as the smaller side of the grid has, no row and no column twice, and no
/// assignment of that size costs less.
pub open spec fn solves(grid: Seq<Seq<int>>, a: Map<usize, usize>) -> bool {
    &&& is_assignment(a, grid.len(), width(grid))
    &&& a.dom().len() == pairs(grid.len(), width(grid))
    &&& forall|other: Map<usize, usize>|
        #[trigger] is_assignment(other, grid.len(), width(grid)) && other.dom().len()
            == a.dom().len() ==> total_cost(grid, a) <= total_cost(grid, other)
}

/// The assignment has the size of the smaller side of the grid, and solves
/// the grid where the grid has no more rows than columns or has no column.
pub open spec fn settles(grid: Seq<Seq<int>>, a: Map<usize, usize>) -> bool {
    &&& is_assignment(a, grid.len(), width(grid))
    &&& a.dom().len() == pairs(grid.len(), width(grid))
    &&& grid.len() <= width(grid) || width(grid) == 0 ==> solves(grid, a)
}

/// The assignment read from the columns: each column that is taken, with the
/// row that takes it.
pub open spec fn inverse(a: Map<usize, usize>) -> Map<usize, usize> {
    Map::new(
        |c: usize| a.values().contains(c),
        |c: usize| choose|r: usize| a.contains_key(r) && a[r] == c,
    )
}

/// The sum of the entries that the first `n` rows choose in the first `c`
/// columns.
pub open spec fn below_cost(grid: Seq<Seq<int>>, sel: Seq<int>, n: nat, c: int) -> int
    decreases n,
{
    if n == 0 {
        0
    } else {
        below_cost(grid, sel, (n - 1) as nat, c) + if 0 <= sel[n - 1] < c {
            grid[n - 1][sel[n - 1]]
        } else {
            0
        }
    }
}

/// The sum of the entries that the first `n` rows choose in column `c`.
pub open spec fn hit(grid: Seq<Seq<int>>, sel: Seq<int>, n: nat, c: int) -> int
    decreases n,
{
    if n == 0 {
        0
    } else {
        hit(grid, sel, (n - 1) as nat, c) + if sel[n - 1] == c {
            grid[n - 1][c]
        } else {
            0
        }
    }
}

/// Each of two selections is the other read from the columns.
pub open spec fn mirrored(sel: Seq<int>, inv: Seq<int>, rows: nat, cols: nat) -> bool {
    &&& is_selection(sel, rows, cols)
    &&& is_selection(inv, cols, rows)
    &&& forall|r: int| 0 <= r < rows && #[trigger] sel[r] >= 0 ==> inv[sel[r]] == r
    &&& forall|c: int| 0 <= c < cols && #[trigger] inv[c] >= 0 ==> sel[inv[c]] == c
}

proof fn lemma_below_all(grid: Seq<Seq<int>>, sel: Seq<int>, n: nat, rows: nat, cols: nat)
    requires
        is_selection(sel, rows, cols),
        n <= rows,
    ensures
        below_cost(grid, sel, n, cols as int) == sel_cost(grid, sel, n),
    decreases n,
{
    if n > 0 {
        lemma_below_all(grid, sel, (n - 1) as nat, rows, cols);
        assert(-1 <= sel[n - 1] < cols);
    }
}

proof fn lemma_below_step(grid: Seq<Seq<int>>, sel: Seq<int>, n: nat, c: int)
    requires
        c >= 0,
    ensures
        below_cost(grid, sel, n, c + 1) == below_cost(grid, sel, n, c) + hit(grid, sel, n, c),
    decreases n,
{
    if n > 0 {
        lemma_below_step(grid, sel, (n - 1) as nat, c);
    }
}

proof fn lemma_hit(grid: Seq<Seq<int>>, sel: Seq<int>, inv: Seq<int>, n: nat, c: int, rows: nat, cols: nat)
    requires
        mirrored(sel, inv, rows, cols),
        n <= rows,
        0 <= c < cols,
    ensures
        hit(grid, sel, n, c) == (if 0 <= inv[c] < n {
            grid[inv[c]][c]
        } else {
            0
        }),
    decreases n,
{
    if n > 0 {
        lemma_hit(grid, sel, inv, (n - 1) as nat, c, rows, cols);
        if sel[n - 1] == c {
            assert(inv[sel[n - 1]] == n - 1);
        } else if inv[c] == n - 1 {
            assert(sel[inv[c]] == c);
        }
    }
}

proof fn lemma_below_is_mirror(
    grid: Seq<Seq<int>>,
    gt: Seq<Seq<int>>,
    sel: Seq<int>,
    inv: Seq<int>,
    c: nat,
    rows: nat,
    cols: nat,
)
    requires
        mirrored(sel, inv, rows, cols),
        c <= cols,
        gt.len() == cols,
        grid.len() == rows,
        forall|i: int, j: int|
            0 <= i < rows && 0 <= j < cols ==> #[trigger] gt[j][i] == grid[i][j],
    ensures
        below_cost(grid, sel, rows, c as int) == sel_cost(gt, inv, c),
    decreases c,
{
    if c == 0 {
        lemma_below_none(grid, sel, rows);
    } else {
        lemma_below_is_mirror(grid, gt, sel, inv, (c - 1) as nat, rows, cols);
        lemma_below_step(grid, sel, rows, c - 1);
        lemma_hit(grid, sel, inv, rows, c - 1, rows, cols);
        assert(-1 <= inv[c - 1] < rows);
        if inv[c - 1] >= 0 {
            assert(gt[c - 1][inv[c - 1]] == grid[inv[c - 1]][c - 1]);
        }
    }
}

proof fn lemma_below_none(grid: Seq<Seq<int>>, sel: Seq<int>, n: nat)
    ensures
        below_cost(grid, sel, n, 0) == 0,
    decreases n,
{
    if n > 0 {
        lemma_below_none(grid, sel, (n - 1) as nat);
    }
}

/// A selection costs what the selection read from the columns costs on the
/// grid read from the columns.
pub proof fn lemma_mirror_cost(
    grid: Seq<Seq<int>>,
    gt: Seq<Seq<int>>,
    sel: Seq<int>,
    inv: Seq<int>,
    rows: nat,
    cols: nat,
)
    requires
        mirrored(sel, inv, rows, cols),
        gt.len() == cols,
        grid.len() == rows,
        forall|i: int, j: int|
            0 <= i < rows && 0 <= j < cols ==> #[trigger] gt[j][i] == grid[i][j],
    ensures
        sel_cost(grid, sel, rows) == sel_cost(gt, inv, cols),
{
    lemma_below_all(grid, sel, rows, rows, cols);
    lemma_below_is_mirror(grid, gt, sel, inv, cols, rows, cols);
}

proof fn lemma_ones_cost(ones: Seq<Seq<int>>, sel: Seq<int>, n: nat, rows: nat, cols: nat)
    requires
        is_selection(sel, rows, cols),
        n <= rows,
        ones.len() == rows,
        forall|i: int, j: int| 0 <= i < rows && 0 <= j < cols ==> #[trigger] ones[i][j] == 1,
    ensures
        sel_cost(ones, sel, n) == count_upto(chosen(sel), n),
    decreases n,
{
    if n > 0 {
        lemma_ones_cost(ones, sel, (n - 1) as nat, rows, cols);
        if sel[n - 1] >= 0 {
            assert(ones[n - 1][sel[n - 1]] == 1);
        }
    }
}

/// A selection and the selection read from the columns choose as often.
pub proof fn lemma_mirror_count(sel: Seq<int>, inv: Seq<int>, rows: nat, cols: nat)
    requires
        mirrored(sel, inv, rows, cols),
    ensures
        count_upto(chosen(sel), rows) == count_upto(chosen(inv), cols),
{
    let ones = Seq::new(rows, |i: int| Seq::new(cols, |j: int| 1int));
    let seno = Seq::new(cols, |j: int| Seq::new(rows, |i: int| 1int));
    lemma_ones_cost(ones, sel, rows, rows, cols);
    lemma_ones_cost(seno, inv, cols, cols, rows);
    lemma_mirror_cost(ones, seno, sel, inv, rows, cols);
}

/// An assignment read from the columns is an assignment of the grid read
/// from the columns, of the same size and the same cost.
pub proof fn lemma_inverse(
    grid: Seq<Seq<int>>,
    gt: Seq<Seq<int>>,
    a: Map<usize, usize>,
    rows: nat,
    cols: nat,
)
    requires
        is_assignment(a, rows, cols),
        rows <= usize::MAX,
        cols <= usize::MAX,
        gt.len() == cols,
        grid.len() == rows,
        forall|i: int, j: int|
            0 <= i < rows && 0 <= j < cols ==> #[trigger] gt[j][i] == grid[i][j],
    ensures
        is_assignment(inverse(a), cols, rows),
        inverse(a).dom().len() == a.dom().len(),
        total_cost(gt, inverse(a)) == total_cost(grid, a),
        inverse(inverse(a)) == a,
{
    let b = inverse(a);
    vstd::map_lib::lemma_values_finite(a);
    assert(b.dom() =~= a.values());
    assert forall|c: usize| #[trigger] b.contains_key(c) implies a.contains_key(b[c]) && a[b[c]]
        == c by {
        let r = choose|r: usize| a.dom().contains(r) && a[r] == c;
        assert(a.contains_key(r) && a[r] == c);
    }
    assert forall|r: usize| #[trigger] a.contains_key(r) implies b.contains_key(a[r]) && b[a[r]]
        == r by {
        assert(a.values().contains(a[r]));
        assert(a.contains_key(b[a[r]]) && a.contains_key(r));
    }
    assert forall|c1: usize, c2: usize|
        #![trigger b.contains_key(c1), b.contains_key(c2)]
        b.contains_key(c1) && b.contains_key(c2) && b[c1] == b[c2] implies c1 == c2 by {}
    assert forall|c: usize| #[trigger] b.contains_key(c) implies c < cols && b[c] < rows by {
        assert(a.contains_key(b[c]));
    }
    let sel = choice(a, rows);
    let inv = choice(b, cols);
    lemma_choice_is_selection(a, rows, cols);
    lemma_choice_is_selection(b, cols, rows);
    assert forall|r: int| 0 <= r < rows && #[trigger] sel[r] >= 0 implies inv[sel[r]] == r by {
        assert(a.contains_key(r as usize));
    }
    assert forall|c: int| 0 <= c < cols && #[trigger] inv[c] >= 0 implies sel[inv[c]] == c by {
        assert(b.contains_key(c as usize));
    }
    lemma_mirror_cost(grid, gt, sel, inv, rows, cols);
    lemma_mirror_count(sel, inv, rows, cols);
    lemma_assignment_size(a, rows, cols);
    lemma_assignment_size(b, cols, rows);
    let back = inverse(b);
    assert(back.dom() =~= a.dom()) by {
        assert forall|r: usize| back.dom().contains(r) <==> a.dom().contains(r) by {
            if back.dom().contains(r) {
                let c = choose|c: usize| b.dom().contains(c) && b[c] == r;
                assert(b.contains_key(c));
            }
            if a.dom().contains(r) {
                assert(b.contains_key(a[r]) && b[a[r]] == r);
                assert(b.values().contains(r));
            }
        }
    }
    assert forall|r: usize| a.contains_key(r) implies #[trigger] back[r] == a[r] by {
        let c = choose|c: usize| b.contains_key(c) && b[c] == r;
        assert(b.contains_key(a[r]) && b[a[r]] == r);
        assert(b.contains_key(c) && b[c] == r);
    }
    assert(back =~= a);
}

/// The first of the first `c` columns in which the row holds a zero and which
/// no row above has taken, or -1.
pub open spec fn first_free_zero(row: Seq<int>, above: Seq<int>, c: nat) -> int
    decreases c,
{
    if c == 0 {
        -1
    } else {
        let before = first_free_zero(row, above, (c - 1) as nat);
        if before >= 0 {
            before
        } else if row[c - 1] == 0 && !above.contains(c - 1) {
            c - 1
        } else {
            -1
        }
    }
}

/// For each of the first `n` rows the column of the first zero that no row
/// above has taken, or -1: the zeros that are starred before any search.
pub open spec fn first_stars(grid: Seq<Seq<int>>, n: nat) -> Seq<int>
    decreases n,
{
    if n == 0 {
        Seq::empty()
    } else {
        let above = first_stars(grid, (n - 1) as nat);
        above.push(first_free_zero(grid[n - 1], above, grid[n - 1].len()))
    }
}

/// The first free zero among the first `c` columns is one of them, or -1.
pub proof fn lemma_first_free_zero(row: Seq<int>, above: Seq<int>, c: nat)
    requires
        c <= row.len(),
    ensures
        -1 <= first_free_zero(row, above, c) < c,
    decreases c,
{
    if c > 0 {
        lemma_first_free_zero(row, above, (c - 1) as nat);
    }
}

/// The zeros that are starred before any search are as many as the smaller
/// side of the grid: each row, or each column, has a zero of the row-reduced
/// grid to itself.
pub open spec fn starred_at_once(grid: Seq<Seq<int>>) -> bool {
    count_upto(chosen(first_stars(reduced(grid), grid.len())), grid.len()) == pairs(
        grid.len(),
        width(grid),
    )
}

/// In a grid without columns no row has a zero.
pub proof fn lemma_no_first_stars(grid: Seq<Seq<int>>, n: nat)
    requires
        n <= grid.len(),
        forall|r: int| 0 <= r < grid.len() ==> (#[trigger] grid[r]).len() == 0,
    ensures
        first_stars(grid, n) == Seq::new(n, |r: int| -1int),
    decreases n,
{
    if n > 0 {
        lemma_no_first_stars(grid, (n - 1) as nat);
        assert(grid[n - 1].len() == 0);
        assert(first_stars(grid, n) =~= Seq::new(n, |r: int| -1int));
    } else {
        assert(first_stars(grid, n) =~= Seq::new(n, |r: int| -1int));
    }
}

} // verus!
