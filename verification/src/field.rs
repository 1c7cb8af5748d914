use crate::counting::count_true;
use crate::counting::lemma_count_bound;
use crate::counting::lemma_count_update;
use crate::grid::Distance;
use crate::grid::king_distance;
use crate::grid::Point;
use crate::grid::UNREACHABLE;
use crate::terrain::Terrain;
use vstd::prelude::*;

verus! {

/// Which cells of a row of a field have no number of moves yet.
pub open spec fn blanks(row: Seq<i32>) -> Seq<bool> {
    Seq::new(row.len(), |x: int| row[x] == UNREACHABLE)
}

/// How many cells of the first `n` rows of a field have no number of moves yet.
pub open spec fn unmarked(dist: Seq<Vec<i32>>, n: nat) -> nat
    decreases n,
{
    if n == 0 {
        0
    } else {
        unmarked(dist, (n - 1) as nat) + count_true(blanks(dist[n - 1]@))
    }
}

proof fn lemma_unmarked_bound(dist: Seq<Vec<i32>>, n: nat)
    requires
        n <= dist.len(),
        forall|y: int| 0 <= y < dist.len() ==> (#[trigger] dist[y])@.len() <= 127,
    ensures
        unmarked(dist, n) <= 127 * n,
    decreases n,
{
    if n > 0 {
        lemma_unmarked_bound(dist, (n - 1) as nat);
        lemma_count_bound(blanks(dist[n - 1]@));
    }
}

proof fn lemma_unmarked_set(before: Seq<Vec<i32>>, after: Seq<Vec<i32>>, x: int, y: int, n: nat)
    requires
        n <= before.len(),
        before.len() == after.len(),
        0 <= y < before.len(),
        0 <= x < before[y]@.len(),
        before[y]@[x] == UNREACHABLE,
        after[y]@ == before[y]@.update(x, after[y]@[x]),
        after[y]@[x] != UNREACHABLE,
        forall|j: int| 0 <= j < before.len() && j != y ==> after[j]@ == before[j]@,
    ensures
        unmarked(after, n) + (if y < n { 1int } else { 0int }) == unmarked(before, n),
    decreases n,
{
    if n > 0 {
        lemma_unmarked_set(before, after, x, y, (n - 1) as nat);
        if y == n - 1 {
            assert(blanks(after[y]@) =~= blanks(before[y]@).update(x, false));
            lemma_count_update(blanks(before[y]@), x, false);
        }
    }
}

/// A field of `w` columns and `h` rows without a number of moves in any cell.
fn blank_field(w: Distance, h: Distance) -> (dist: Vec<Vec<i32>>)
    requires
        0 <= w,
        0 <= h,
    ensures
        dist@.len() == h,
        forall|y: int| 0 <= y < h ==> (#[trigger] dist@[y])@.len() == w,
        forall|x: int, y: int| 0 <= x < w && 0 <= y < h ==> #[trigger] dist@[y]@[x] == UNREACHABLE,
{
    let mut dist: Vec<Vec<i32>> = Vec::new();
    let mut y: Distance = 0;
    while y < h
        invariant
            0 <= y <= h,
            0 <= w,
            dist@.len() == y,
            forall|j: int| 0 <= j < y ==> (#[trigger] dist@[j])@.len() == w,
            forall|i: int, j: int|
                0 <= i < w && 0 <= j < y ==> #[trigger] dist@[j]@[i] == UNREACHABLE,
        decreases h - y,
    {
        let mut row: Vec<i32> = Vec::new();
        let mut x: Distance = 0;
        while x < w
            invariant
                0 <= x <= w,
                row@.len() == x,
                forall|i: int| 0 <= i < x ==> #[trigger] row@[i] == UNREACHABLE,
            decreases w - x,
        {
            row.push(UNREACHABLE);
            x = x + 1;
        }
        dist.push(row);
        y = y + 1;
    }
    dist
}

impl Terrain {
    /// Steps lead from `a` to `b`, `k` of them or fewer.
    pub open spec fn within(&self, a: Point, b: Point, k: nat) -> bool
        decreases k,
    {
        if k == 0 {
            a == b && self.contains(a)
        } else {
            self.within(a, b, (k - 1) as nat) || exists|m: Point|
                self.within(a, m, (k - 1) as nat) && self.edge(m, b)
        }
    }

    /// Steps lead from `a` to `b`.
    pub open spec fn reachable(&self, a: Point, b: Point) -> bool {
        exists|k: nat| self.within(a, b, k)
    }

    /// `k` steps lead from `a` to `b`, and fewer do not.
    pub open spec fn least(&self, a: Point, b: Point, k: nat) -> bool {
        self.within(a, b, k) && (k == 0 || !self.within(a, b, (k - 1) as nat))
    }

    /// The least number of steps that lead from `a` to `b`, or `UNREACHABLE`
    /// where none do.
    pub open spec fn hops(&self, a: Point, b: Point) -> int {
        if self.reachable(a, b) {
            (choose|k: nat| self.least(a, b, k)) as int
        } else {
            UNREACHABLE as int
        }
    }

    /// The number of moves that a unit at `start` needs to `end`: the least
    /// number of steps that lead from `end` to `start`.
    pub open spec fn moves(&self, start: Point, end: Point) -> int {
        self.hops(end, start)
    }

    /// Steps that lead somewhere in `k` lead there in any number no smaller.
    pub proof fn lemma_within_more(&self, a: Point, b: Point, k: nat, n: nat)
        requires
            self.within(a, b, k),
            k <= n,
        ensures
            self.within(a, b, n),
        decreases n,
    {
        if k < n {
            self.lemma_within_more(a, b, k, (n - 1) as nat);
        }
    }

    /// Steps begin on the map and lead to cells that can be entered.
    pub proof fn lemma_within_on_map(&self, a: Point, b: Point, k: nat)
        requires
            self.within(a, b, k),
        ensures
            self.contains(a),
            a == b || self.passable(b),
        decreases k,
    {
        if k > 0 {
            if self.within(a, b, (k - 1) as nat) {
                self.lemma_within_on_map(a, b, (k - 1) as nat);
            } else {
                let m = choose|m: Point| self.within(a, m, (k - 1) as nat) && self.edge(m, b);
                self.lemma_within_on_map(a, m, (k - 1) as nat);
            }
        }
    }

    /// Among the numbers of steps that lead from `a` to `b` one is the least.
    pub proof fn lemma_has_least(&self, a: Point, b: Point, k: nat) -> (n: nat)
        requires
            self.within(a, b, k),
        ensures
            n <= k,
            self.least(a, b, n),
        decreases k,
    {
        if k == 0 || !self.within(a, b, (k - 1) as nat) {
            k
        } else {
            self.lemma_has_least(a, b, (k - 1) as nat)
        }
    }

    /// The least number of steps is `hops`.
    pub proof fn lemma_hops(&self, a: Point, b: Point, k: nat)
        requires
            self.least(a, b, k),
        ensures
            self.hops(a, b) == k,
            self.reachable(a, b),
    {
        let n = choose|n: nat| self.least(a, b, n);
        if n < k {
            self.lemma_within_more(a, b, n, (k - 1) as nat);
        } else if k < n {
            self.lemma_within_more(a, b, k, (n - 1) as nat);
        }
    }

    /// Where a step more reaches no new cell, no number of steps does.
    pub proof fn lemma_closed(&self, a: Point, b: Point, k: nat, n: nat)
        requires
            forall|p: Point| #[trigger] self.within(a, p, (k + 1) as nat) ==> self.within(a, p, k),
            self.within(a, b, n),
        ensures
            self.within(a, b, k),
        decreases n,
    {
        if n <= k {
            self.lemma_within_more(a, b, n, k);
        } else {
            if self.within(a, b, (n - 1) as nat) {
                self.lemma_closed(a, b, k, (n - 1) as nat);
            } else {
                let m = choose|m: Point| self.within(a, m, (n - 1) as nat) && self.edge(m, b);
                self.lemma_closed(a, m, k, (n - 1) as nat);
                assert(self.within(a, b, (k + 1) as nat));
            }
        }
    }

    /// A cell is no step from itself.
    pub proof fn lemma_hops_self(&self, a: Point)
        requires
            self.contains(a),
        ensures
            self.hops(a, a) == 0,
    {
        assert(self.least(a, a, 0));
        self.lemma_hops(a, a, 0);
    }

    /// Steps from `a` to `b` and steps from `b` to `c` lead from `a` to `c`.
    pub proof fn lemma_within_join(&self, a: Point, b: Point, c: Point, k: nat, n: nat)
        requires
            self.within(a, b, k),
            self.within(b, c, n),
        ensures
            self.within(a, c, k + n),
        decreases n,
    {
        if n == 0 {
        } else if self.within(b, c, (n - 1) as nat) {
            self.lemma_within_join(a, b, c, k, (n - 1) as nat);
        } else {
            let m = choose|m: Point| self.within(b, m, (n - 1) as nat) && self.edge(m, c);
            self.lemma_within_join(a, b, m, k, (n - 1) as nat);
            assert(self.within(a, m, (k + n - 1) as nat) && self.edge(m, c));
        }
    }

    /// A step from `a` to `m` and steps from `m` to `b` lead from `a` to `b`.
    pub proof fn lemma_within_front(&self, a: Point, m: Point, b: Point, k: nat)
        requires
            self.edge(a, m),
            self.within(m, b, k),
        ensures
            self.within(a, b, k + 1),
    {
        assert(self.within(a, a, 0));
        assert(self.within(a, m, 1));
        self.lemma_within_join(a, m, b, 1, k);
    }

    /// From a cell that can be entered, steps that lead to `b` lead back.
    pub proof fn lemma_within_back(&self, a: Point, b: Point, k: nat)
        requires
            self.within(a, b, k),
            self.passable(a),
        ensures
            self.within(b, a, k),
        decreases k,
    {
        self.lemma_within_on_map(a, b, k);
        self.lemma_passable_on_map(a);
        self.lemma_passable_on_map(b);
        if k == 0 {
        } else if self.within(a, b, (k - 1) as nat) {
            self.lemma_within_back(a, b, (k - 1) as nat);
        } else {
            let m = choose|m: Point| self.within(a, m, (k - 1) as nat) && self.edge(m, b);
            self.lemma_within_back(a, m, (k - 1) as nat);
            self.lemma_within_on_map(a, m, (k - 1) as nat);
            self.lemma_within_on_map(a, b, k);
            assert(self.edge(b, m));
            self.lemma_within_front(b, m, a, (k - 1) as nat);
        }
    }

    /// Steps that lead from `a` to `b` are no fewer than the cells are apart
    /// in columns or in rows.
    pub proof fn lemma_within_king(&self, a: Point, b: Point, k: nat)
        requires
            self.within(a, b, k),
        ensures
            king_distance((a.0 as int, a.1 as int), (b.0 as int, b.1 as int)) <= k,
        decreases k,
    {
        if k > 0 {
            if self.within(a, b, (k - 1) as nat) {
                self.lemma_within_king(a, b, (k - 1) as nat);
            } else {
                let m = choose|m: Point| self.within(a, m, (k - 1) as nat) && self.edge(m, b);
                self.lemma_within_king(a, m, (k - 1) as nat);
            }
        }
    }

    /// Where a unit can get from `start` to `end`, the moves are no fewer
    /// than on a map without walls.
    pub proof fn lemma_moves_at_least_king(&self, start: Point, end: Point)
        requires
            self.reachable(end, start),
        ensures
            king_distance((start.0 as int, start.1 as int), (end.0 as int, end.1 as int))
                <= self.moves(start, end),
    {
        let k = choose|k: nat| self.within(end, start, k);
        let n = self.lemma_has_least(end, start, k);
        self.lemma_hops(end, start, n);
        self.lemma_within_king(end, start, n);
    }

    /// A step to a neighbour brings a cell that can be entered no more than
    /// one step nearer to where the steps began.
    pub proof fn lemma_hops_step(&self, a: Point, u: Point, v: Point)
        requires
            self.edge(u, v),
            self.passable(u),
        ensures
            self.hops(a, u) <= self.hops(a, v) + 1,
    {
        self.lemma_passable_on_map(v);
        if self.reachable(a, v) {
            let k0 = choose|k: nat| self.within(a, v, k);
            let k = self.lemma_has_least(a, v, k0);
            self.lemma_hops(a, v, k);
            assert(self.edge(v, u));
            assert(self.within(a, u, (k + 1) as nat));
            let n = self.lemma_has_least(a, u, (k + 1) as nat);
            self.lemma_hops(a, u, n);
        } else if self.reachable(a, u) {
            let k = choose|k: nat| self.within(a, u, k);
            assert(self.within(a, v, (k + 1) as nat));
        }
    }

    /// The number of moves from a cell to itself is 0.
    pub proof fn lemma_moves_self(&self, a: Point)
        requires
            self.contains(a),
        ensures
            self.moves(a, a) == 0,
    {
        self.lemma_hops_self(a);
    }

    /// Between two cells that can be entered the number of moves is the same
    /// both ways.
    pub proof fn lemma_moves_symmetric(&self, a: Point, b: Point)
        requires
            self.passable(a),
            self.passable(b),
        ensures
            self.moves(a, b) == self.moves(b, a),
    {
        self.lemma_hops_symmetric(a, b);
    }

    proof fn lemma_hops_symmetric(&self, a: Point, b: Point)
        requires
            self.passable(a),
            self.passable(b),
        ensures
            self.hops(a, b) == self.hops(b, a),
    {
        if self.reachable(a, b) {
            let k = choose|k: nat| self.within(a, b, k);
            let n = self.lemma_has_least(a, b, k);
            self.lemma_within_back(a, b, n);
            if n > 0 && self.within(b, a, (n - 1) as nat) {
                self.lemma_within_back(b, a, (n - 1) as nat);
            }
            self.lemma_hops(a, b, n);
            self.lemma_hops(b, a, n);
        } else if self.reachable(b, a) {
            let k = choose|k: nat| self.within(b, a, k);
            self.lemma_within_back(b, a, k);
        }
    }

    /// The moves from `a` to `c` are no more than those from `a` to `b` and
    /// from `b` to `c` together, where each of the two ways exists.
    pub proof fn lemma_moves_triangle(&self, a: Point, b: Point, c: Point)
        requires
            self.reachable(b, a),
            self.reachable(c, b),
        ensures
            self.moves(a, c) <= self.moves(a, b) + self.moves(b, c),
    {
        let k1 = choose|k: nat| self.within(c, b, k);
        let n1 = self.lemma_has_least(c, b, k1);
        self.lemma_hops(c, b, n1);
        let k2 = choose|k: nat| self.within(b, a, k);
        let n2 = self.lemma_has_least(b, a, k2);
        self.lemma_hops(b, a, n2);
        self.lemma_within_join(c, b, a, n1, n2);
        let n = self.lemma_has_least(c, a, n1 + n2);
        self.lemma_hops(c, a, n);
    }

    /// The grid holds for every cell of the map the least number of steps
    /// that lead from `goal` to it, and `UNREACHABLE` where none do.
    pub open spec fn is_field(&self, goal: Point, dist: Seq<Vec<i32>>) -> bool {
        &&& dist.len() == self.height()
        &&& forall|y: int| 0 <= y < self.height() ==> (#[trigger] dist[y])@.len() == self.width()
        &&& forall|x: int, y: int|
            0 <= x < self.width() && 0 <= y < self.height() ==> #[trigger] dist[y]@[x]
                == self.hops(goal, (x as Distance, y as Distance)) && 0 <= dist[y]@[x]
                <= UNREACHABLE
    }

    /// The grid holds the cells within `k` steps of `goal`, each with its
    /// least number of steps.
    pub open spec fn is_level(&self, goal: Point, dist: Seq<Vec<i32>>, k: int) -> bool {
        &&& dist.len() == self.height()
        &&& forall|y: int| 0 <= y < self.height() ==> (#[trigger] dist[y])@.len() == self.width()
        &&& forall|x: int, y: int|
            0 <= x < self.width() && 0 <= y < self.height() ==> {
                let d = #[trigger] dist[y]@[x];
                let p = (x as Distance, y as Distance);
                &&& d != UNREACHABLE <==> self.within(goal, p, k as nat)
                &&& d != UNREACHABLE ==> 0 <= d <= k && self.least(goal, p, d as nat)
            }
    }

    /// The list holds the cells that the grid gives `k` steps.
    pub open spec fn is_frontier(&self, dist: Seq<Vec<i32>>, list: Seq<Point>, k: int) -> bool {
        &&& forall|i: int|
            0 <= i < list.len() ==> self.contains(#[trigger] list[i]) && dist[list[i].1 as int]@[list[i].0 as int]
                == k
        &&& forall|x: int, y: int|
            0 <= x < self.width() && 0 <= y < self.height() && #[trigger] dist[y]@[x] == k
                ==> list.contains((x as Distance, y as Distance))
    }

    /// While the cells `k` steps from `goal` are expanded: what the grid held
    /// it holds, and what it holds more are cells `k + 1` steps away, all of
    /// them in `next`.
    pub open spec fn is_growing(
        &self,
        goal: Point,
        before: Seq<Vec<i32>>,
        dist: Seq<Vec<i32>>,
        next: Seq<Point>,
        k: int,
    ) -> bool {
        &&& dist.len() == self.height()
        &&& forall|y: int| 0 <= y < self.height() ==> (#[trigger] dist[y])@.len() == self.width()
        &&& forall|x: int, y: int|
            0 <= x < self.width() && 0 <= y < self.height() ==> {
                let d = #[trigger] dist[y]@[x];
                let p = (x as Distance, y as Distance);
                &&& before[y]@[x] != UNREACHABLE ==> d == before[y]@[x]
                &&& before[y]@[x] == UNREACHABLE && d != UNREACHABLE ==> d == k + 1 && self.within(
                    goal,
                    p,
                    (k + 1) as nat,
                )
            }
        &&& self.is_frontier(dist, next, k + 1)
    }

    /// The least number of steps that lead from `goal` to each cell of the
    /// map, found by widening the set of reached cells step by step.
    pub fn field(&self, goal: Point) -> (dist: Vec<Vec<i32>>)
        requires
            self.wf(),
            self.contains(goal),
        ensures
            self.is_field(goal, dist@),
    {
        let w = self.columns();
        let h = self.rows();
        let mut dist = blank_field(w, h);
        let ghost empty = dist@;
        dist[goal.1 as usize][goal.0 as usize] = 0;
        let mut frontier: Vec<Point> = Vec::new();
        frontier.push(goal);
        let mut k: i32 = 0;
        let ghost mut left: nat = unmarked(dist@, h as nat);
        proof {
            lemma_unmarked_bound(empty, h as nat);
            lemma_unmarked_set(empty, dist@, goal.0 as int, goal.1 as int, h as nat);
            assert(127 * h <= 16129) by (nonlinear_arith)
                requires
                    0 <= h <= 127,
            ;
            assert forall|x: int, y: int| 0 <= x < w && 0 <= y < h implies {
                let d = #[trigger] dist@[y]@[x];
                let p = (x as Distance, y as Distance);
                &&& d != UNREACHABLE <==> self.within(goal, p, 0)
                &&& d != UNREACHABLE ==> 0 <= d <= 0 && self.least(goal, p, d as nat)
            } by {
                if x == goal.0 && y == goal.1 {
                } else {
                    assert(empty[y]@[x] == UNREACHABLE);
                }
            }
            assert(frontier@[0] == goal);
        }
        loop
            invariant_except_break
                self.is_level(goal, dist@, k as int),
                self.is_frontier(dist@, frontier@, k as int),
            invariant
                self.wf(),
                self.contains(goal),
                w == self.width(),
                h == self.height(),
                0 <= k,
                left == unmarked(dist@, h as nat),
                k + left <= 16128,
            ensures
                self.is_field(goal, dist@),
            decreases left,
        {
            let ghost before = dist@;
            let ghost left_before = left;
            let mut next: Vec<Point> = Vec::new();
            let mut i: usize = 0;
            while i < frontier.len()
                invariant
                    self.wf(),
                    self.contains(goal),
                    w == self.width(),
                    h == self.height(),
                    0 <= k,
                    i <= frontier@.len(),
                    self.is_level(goal, before, k as int),
                    self.is_frontier(before, frontier@, k as int),
                    self.is_growing(goal, before, dist@, next@, k as int),
                    left == unmarked(dist@, h as nat),
                    left + next@.len() == left_before,
                    k + left_before <= 16128,
                    forall|n: int, q: Point|
                        0 <= n < i && #[trigger] self.edge(frontier@[n], q) ==> dist@[q.1 as int]@[q.0 as int]
                            != UNREACHABLE,
                decreases frontier@.len() - i,
            {
                let u = frontier[i];
                let list = self.neighbors(u);
                let mut j: usize = 0;
                while j < list.len()
                    invariant
                        self.wf(),
                        self.contains(goal),
                        w == self.width(),
                        h == self.height(),
                        0 <= k,
                        i < frontier@.len(),
                        u == frontier@[i as int],
                        self.contains(u),
                        before[u.1 as int]@[u.0 as int] == k,
                        list@ == self.neighbors_of(u),
                        j <= list@.len(),
                        self.is_level(goal, before, k as int),
                        self.is_frontier(before, frontier@, k as int),
                        self.is_growing(goal, before, dist@, next@, k as int),
                        left == unmarked(dist@, h as nat),
                        left + next@.len() == left_before,
                        k + left_before <= 16128,
                        forall|n: int, q: Point|
                            0 <= n < i && #[trigger] self.edge(frontier@[n], q) ==> dist@[q.1 as int]@[q.0 as int]
                                != UNREACHABLE,
                        forall|n: int|
                            0 <= n < j ==> dist@[(#[trigger] list@[n]).1 as int]@[list@[n].0 as int]
                                != UNREACHABLE,
                    decreases list@.len() - j,
                {
                    let v = list[j];
                    proof {
                        assert(list@.contains(v));
                        self.lemma_neighbors(u, v);
                        self.lemma_passable_on_map(v);
                    }
                    if dist[v.1 as usize][v.0 as usize] == UNREACHABLE {
                        let ghost prior = dist@;
                        let ghost earlier = next@;
                        dist[v.1 as usize][v.0 as usize] = k + 1;
                        next.push(v);
                        proof {
                            lemma_unmarked_set(prior, dist@, v.0 as int, v.1 as int, h as nat);
                            left = (left - 1) as nat;
                            assert(before[v.1 as int]@[v.0 as int] == UNREACHABLE);
                            assert(self.within(goal, u, k as nat));
                            assert(self.within(goal, v, (k + 1) as nat));
                            let ghost grown = next@;
                            assert(grown[grown.len() - 1] == v);
                            assert forall|x: int, y: int|
                                0 <= x < self.width() && 0 <= y < self.height()
                                    && #[trigger] dist@[y]@[x] == k + 1 implies grown.contains(
                                (x as Distance, y as Distance),
                            ) by {
                                if x == v.0 && y == v.1 {
                                    assert(grown[grown.len() - 1] == (x as Distance, y as Distance));
                                } else {
                                    assert(prior[y]@[x] == k + 1);
                                    assert(earlier.contains((x as Distance, y as Distance)));
                                    let n = choose|n: int|
                                        0 <= n < earlier.len() && earlier[n] == (
                                            x as Distance,
                                            y as Distance,
                                        );
                                    assert(grown[n] == (x as Distance, y as Distance));
                                }
                            }
                            assert forall|n: int, q: Point|
                                0 <= n < i && #[trigger] self.edge(
                                    frontier@[n],
                                    q,
                                ) implies dist@[q.1 as int]@[q.0 as int] != UNREACHABLE by {
                                self.lemma_passable_on_map(q);
                                assert(prior[q.1 as int]@[q.0 as int] != UNREACHABLE);
                            }
                            assert forall|n: int| 0 <= n < j implies dist@[(#[trigger] list@[n]).1 as int]@[list@[n].0 as int]
                                != UNREACHABLE by {
                                let q = list@[n];
                                assert(list@.contains(q));
                                self.lemma_neighbors(u, q);
                                self.lemma_passable_on_map(q);
                                assert(prior[q.1 as int]@[q.0 as int] != UNREACHABLE);
                            }
                            assert forall|n: int| 0 <= n < grown.len() implies self.contains(
                                #[trigger] grown[n],
                            ) && dist@[grown[n].1 as int]@[grown[n].0 as int] == k + 1 by {
                                if n < grown.len() - 1 {
                                    assert(earlier[n] == grown[n]);
                                }
                            }
                        }
                    }
                    j = j + 1;
                }
                proof {
                    assert forall|q: Point| #[trigger] self.edge(u, q) implies dist@[q.1 as int]@[q.0 as int]
                        != UNREACHABLE by {
                        self.lemma_neighbors(u, q);
                        let n = choose|n: int| 0 <= n < list@.len() && list@[n] == q;
                        assert(dist@[list@[n].1 as int]@[list@[n].0 as int] != UNREACHABLE);
                    }
                }
                i = i + 1;
            }
            proof {
                assert forall|x: int, y: int|
                    0 <= x < self.width() && 0 <= y < self.height() implies {
                    let d = #[trigger] dist@[y]@[x];
                    let p = (x as Distance, y as Distance);
                    &&& d != UNREACHABLE <==> self.within(goal, p, (k + 1) as nat)
                    &&& d != UNREACHABLE ==> 0 <= d <= k + 1 && self.least(goal, p, d as nat)
                } by {
                    let d = dist@[y]@[x];
                    let p = (x as Distance, y as Distance);
                    let b = before[y]@[x];
                    if b != UNREACHABLE {
                        self.lemma_within_more(goal, p, k as nat, (k + 1) as nat);
                    }
                    if self.within(goal, p, (k + 1) as nat) && !self.within(goal, p, k as nat) {
                        let m = choose|m: Point| self.within(goal, m, k as nat) && self.edge(m, p);
                        let dm = before[m.1 as int]@[m.0 as int];
                        self.lemma_within_on_map(goal, m, k as nat);
                        assert(dm != UNREACHABLE);
                        if dm == k {
                            assert(frontier@.contains((m.0 as int as Distance, m.1 as int as Distance)));
                            let n = choose|n: int| 0 <= n < frontier@.len() && frontier@[n] == m;
                            assert(self.edge(frontier@[n], p));
                        } else {
                            self.lemma_within_more(goal, m, dm as nat, (k - 1) as nat);
                            assert(self.within(goal, p, k as nat));
                        }
                    }
                }
            }
            if next.len() == 0 {
                proof {
                    let ghost reach = k as nat;
                    assert forall|p: Point| #[trigger]
                        self.within(goal, p, (reach + 1) as nat) implies self.within(
                        goal,
                        p,
                        reach,
                    ) by {
                        self.lemma_within_on_map(goal, p, (k + 1) as nat);
                        self.lemma_passable_on_map(p);
                        let d = dist@[p.1 as int]@[p.0 as int];
                        assert(d != UNREACHABLE);
                        if before[p.1 as int]@[p.0 as int] == UNREACHABLE {
                            assert(next@.contains((p.0 as int as Distance, p.1 as int as Distance)));
                        }
                    }
                    assert forall|x: int, y: int|
                        0 <= x < self.width() && 0 <= y < self.height() implies #[trigger] dist@[y]@[x]
                        == self.hops(goal, (x as Distance, y as Distance)) && 0 <= dist@[y]@[x]
                        <= UNREACHABLE by {
                        let p = (x as Distance, y as Distance);
                        let d = dist@[y]@[x];
                        if d != UNREACHABLE {
                            self.lemma_hops(goal, p, d as nat);
                        } else if self.reachable(goal, p) {
                            let n = choose|n: nat| self.within(goal, p, n);
                            self.lemma_closed(goal, p, k as nat, n);
                            self.lemma_within_more(goal, p, k as nat, (k + 1) as nat);
                        }
                    }
                }
                break ;
            }
            frontier = next;
            k = k + 1;
        }
        dist
    }
}

} // verus!
