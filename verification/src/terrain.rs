use crate::grid::adjacent;
use crate::grid::Distance;
use crate::grid::on_map;
use crate::grid::Point;
use vstd::prelude::*;

verus! {

/// The `k`-th of the eight steps to a neighbour, in the order in which
/// neighbours are listed.
pub open spec fn offset(k: int) -> (int, int) {
    if k == 0 {
        (-1, 1)
    } else if k == 1 {
        (0, 1)
    } else if k == 2 {
        (1, 1)
    } else if k == 3 {
        (-1, 0)
    } else if k == 4 {
        (1, 0)
    } else if k == 5 {
        (-1, -1)
    } else if k == 6 {
        (0, -1)
    } else {
        (1, -1)
    }
}

/// The `k`-th of the eight steps to a neighbour.
pub fn around(k: usize) -> (step: Point)
    requires
        k < 8,
    ensures
        step.0 == offset(k as int).0,
        step.1 == offset(k as int).1,
{
    if k == 0 {
        (-1, 1)
    } else if k == 1 {
        (0, 1)
    } else if k == 2 {
        (1, 1)
    } else if k == 3 {
        (-1, 0)
    } else if k == 4 {
        (1, 0)
    } else if k == 5 {
        (-1, -1)
    } else if k == 6 {
        (0, -1)
    } else {
        (1, -1)
    }
}

/// The cell lies on the map and can be entered.
pub open spec fn open_at(open: Seq<Seq<bool>>, w: int, h: int, x: int, y: int) -> bool {
    0 <= x < w && 0 <= y < h && open[y][x]
}

/// The neighbours of `p` that can be entered, among the first `n` of the
/// eight, in their order.
pub open spec fn listed(open: Seq<Seq<bool>>, w: int, h: int, p: Point, n: nat) -> Seq<Point>
    decreases n,
{
    if n == 0 {
        Seq::empty()
    } else {
        let rest = listed(open, w, h, p, (n - 1) as nat);
        let x = p.0 + offset(n - 1).0;
        let y = p.1 + offset(n - 1).1;
        if open_at(open, w, h, x, y) {
            rest.push((x as Distance, y as Distance))
        } else {
            rest
        }
    }
}

/// What `listed` lists: the neighbours, among the first `n`, that can be
/// entered.
pub proof fn lemma_listed(open: Seq<Seq<bool>>, w: int, h: int, p: Point, n: nat, q: Point)
    requires
        0 <= w <= 127,
        0 <= h <= 127,
        on_map(w, h, p),
        n <= 8,
    ensures
        listed(open, w, h, p, n).contains(q) <==> open_at(open, w, h, q.0 as int, q.1 as int)
            && exists|k: int| 0 <= k < n && q.0 == p.0 + offset(k).0 && q.1 == p.1 + offset(k).1,
    decreases n,
{
    if n > 0 {
        let m = (n - 1) as nat;
        lemma_listed(open, w, h, p, m, q);
        let rest = listed(open, w, h, p, m);
        let x = p.0 + offset(n - 1).0;
        let y = p.1 + offset(n - 1).1;
        if open_at(open, w, h, x, y) {
            let now = rest.push((x as Distance, y as Distance));
            assert(now[now.len() - 1] == (x as Distance, y as Distance));
            if rest.contains(q) {
                let i = choose|i: int| 0 <= i < rest.len() && rest[i] == q;
                assert(now[i] == q);
            }
            if now.contains(q) {
                let i = choose|i: int| 0 <= i < now.len() && now[i] == q;
                if i < rest.len() {
                    assert(rest[i] == q);
                }
            }
        }
        if exists|k: int| 0 <= k < n && q.0 == p.0 + offset(k).0 && q.1 == p.1 + offset(k).1 {
            let k = choose|k: int| 0 <= k < n && q.0 == p.0 + offset(k).0 && q.1 == p.1 + offset(k).1;
            if k < m {
                assert(0 <= k < m && q.0 == p.0 + offset(k).0 && q.1 == p.1 + offset(k).1);
            }
        }
    }
}

/// No more neighbours are listed than were looked at.
pub proof fn lemma_listed_few(open: Seq<Seq<bool>>, w: int, h: int, p: Point, n: nat)
    ensures
        listed(open, w, h, p, n).len() <= n,
    decreases n,
{
    if n > 0 {
        lemma_listed_few(open, w, h, p, (n - 1) as nat);
    }
}

/// The map as a graph: for every cell the neighbouring cells that can be
/// entered. Built once and never changed.
pub struct Terrain {
    w: Distance,
    h: Distance,
    adj: Vec<Vec<Vec<Point>>>,
    open: Ghost<Seq<Seq<bool>>>,
}

impl Terrain {
    /// The number of columns.
    pub closed spec fn width(&self) -> int {
        self.w as int
    }

    /// The number of rows.
    pub closed spec fn height(&self) -> int {
        self.h as int
    }

    /// The cell lies on the map.
    pub open spec fn contains(&self, p: Point) -> bool {
        on_map(self.width(), self.height(), p)
    }

    /// Which cells can be entered, row by row.
    pub closed spec fn grid(&self) -> Seq<Seq<bool>> {
        self.open@
    }

    /// The cell lies on the map and can be entered.
    pub open spec fn passable(&self, p: Point) -> bool {
        open_at(self.grid(), self.width(), self.height(), p.0 as int, p.1 as int)
    }

    /// A step leads from `a` to `b`: `a` lies on the map, and `b` is a
    /// neighbour of it that can be entered.
    pub open spec fn edge(&self, a: Point, b: Point) -> bool {
        self.contains(a) && adjacent(a, b) && self.passable(b)
    }

    /// The neighbours listed for a cell.
    pub closed spec fn neighbors_of(&self, p: Point) -> Seq<Point> {
        self.adj@[p.1 as int]@[p.0 as int]@
    }

    /// The lists are those of a map of this size.
    pub closed spec fn wf(&self) -> bool {
        &&& 0 <= self.w
        &&& 0 <= self.h
        &&& self.adj@.len() == self.h
        &&& forall|y: int| 0 <= y < self.h ==> (#[trigger] self.adj@[y])@.len() == self.w
        &&& forall|x: int, y: int|
            0 <= x < self.w && 0 <= y < self.h ==> (#[trigger] self.adj@[y]@[x])@ == listed(
                self.open@,
                self.w as int,
                self.h as int,
                (x as Distance, y as Distance),
                8,
            )
    }

    /// A cell has eight neighbours at most.
    pub proof fn lemma_neighbors_few(&self, p: Point)
        requires
            self.wf(),
            self.contains(p),
        ensures
            self.neighbors_of(p).len() <= 8,
    {
        lemma_listed_few(self.open@, self.w as int, self.h as int, p, 8);
        assert(self.adj@[p.1 as int]@[p.0 as int]@ == listed(
            self.open@,
            self.w as int,
            self.h as int,
            (p.0 as int as Distance, p.1 as int as Distance),
            8,
        ));
    }

    /// The neighbours of a cell are listed in the order of the eight steps:
    /// those to the north from west to east, the one to the west and the one
    /// to the east, then those to the south from west to east.
    pub proof fn lemma_neighbors_order(&self, p: Point)
        requires
            self.wf(),
            self.contains(p),
        ensures
            self.neighbors_of(p) == listed(self.grid(), self.width(), self.height(), p, 8),
    {
        assert(self.adj@[p.1 as int]@[p.0 as int]@ == listed(
            self.open@,
            self.w as int,
            self.h as int,
            (p.0 as int as Distance, p.1 as int as Distance),
            8,
        ));
    }

    /// A map has 127 columns and 127 rows at most.
    pub proof fn lemma_small(&self)
        ensures
            self.width() <= 127,
            self.height() <= 127,
    {
    }

    /// Only cells of the map can be entered.
    pub proof fn lemma_passable_on_map(&self, p: Point)
        ensures
            self.passable(p) ==> self.contains(p),
    {
    }

    /// The listed neighbours of a cell are the cells that a step from it
    /// leads to.
    pub proof fn lemma_neighbors(&self, p: Point, q: Point)
        requires
            self.wf(),
            self.contains(p),
        ensures
            self.neighbors_of(p).contains(q) <==> self.edge(p, q),
    {
        lemma_listed(self.open@, self.w as int, self.h as int, p, 8, q);
        assert(self.adj@[p.1 as int]@[p.0 as int]@ == listed(
            self.open@,
            self.w as int,
            self.h as int,
            (p.0 as int as Distance, p.1 as int as Distance),
            8,
        ));
        if self.edge(p, q) {
            let dx = q.0 - p.0;
            let dy = q.1 - p.1;
            let k: int = if dx == -1 && dy == 1 {
                0
            } else if dx == 0 && dy == 1 {
                1
            } else if dx == 1 && dy == 1 {
                2
            } else if dx == -1 && dy == 0 {
                3
            } else if dx == 1 && dy == 0 {
                4
            } else if dx == -1 && dy == -1 {
                5
            } else if dx == 0 && dy == -1 {
                6
            } else {
                7
            };
            assert(0 <= k < 8 && q.0 == p.0 + offset(k).0 && q.1 == p.1 + offset(k).1);
        }
    }

    /// The graph of a map, from a grid that says row by row which cells can
    /// be entered.
    pub fn build(passable: &Vec<Vec<bool>>) -> (terrain: Terrain)
        requires
            passable@.len() <= 127,
            forall|y: int| 0 <= y < passable@.len() ==> (#[trigger] passable@[y])@.len() <= 127,
            forall|y: int|
                0 <= y < passable@.len() ==> (#[trigger] passable@[y])@.len()
                    == passable@[0]@.len(),
        ensures
            terrain.wf(),
            terrain.height() == passable@.len(),
            terrain.width() == (if passable@.len() == 0 {
                0
            } else {
                passable@[0]@.len() as int
            }),
            forall|p: Point|
                terrain.passable(p) <==> terrain.contains(p) && passable@[p.1 as int]@[p.0 as int],
    {
        let h: Distance = passable.len() as Distance;
        let w: Distance = if passable.len() == 0 {
            0
        } else {
            passable[0].len() as Distance
        };
        let ghost open = Seq::new(
            passable@.len(),
            |y: int| Seq::new(passable@[y]@.len(), |x: int| passable@[y]@[x]),
        );
        let mut adj: Vec<Vec<Vec<Point>>> = Vec::new();
        let mut y: Distance = 0;
        while y < h
            invariant
                0 <= y <= h,
                h == passable@.len(),
                0 <= w <= 127,
                forall|j: int| 0 <= j < h ==> (#[trigger] passable@[j])@.len() == w,
                open == Seq::new(
                    passable@.len(),
                    |j: int| Seq::new(passable@[j]@.len(), |i: int| passable@[j]@[i]),
                ),
                adj@.len() == y,
                forall|j: int| 0 <= j < y ==> (#[trigger] adj@[j])@.len() == w,
                forall|i: int, j: int|
                    0 <= i < w && 0 <= j < y ==> (#[trigger] adj@[j]@[i])@ == listed(
                        open,
                        w as int,
                        h as int,
                        (i as Distance, j as Distance),
                        8,
                    ),
            decreases h - y,
        {
            let mut row: Vec<Vec<Point>> = Vec::new();
            let mut x: Distance = 0;
            while x < w
                invariant
                    0 <= x <= w,
                    0 <= y < h,
                    h == passable@.len(),
                    0 <= w <= 127,
                    forall|j: int| 0 <= j < h ==> (#[trigger] passable@[j])@.len() == w,
                    open == Seq::new(
                        passable@.len(),
                        |j: int| Seq::new(passable@[j]@.len(), |i: int| passable@[j]@[i]),
                    ),
                    row@.len() == x,
                    forall|i: int|
                        0 <= i < x ==> (#[trigger] row@[i])@ == listed(
                            open,
                            w as int,
                            h as int,
                            (i as Distance, y),
                            8,
                        ),
                decreases w - x,
            {
                let mut list: Vec<Point> = Vec::new();
                let mut k: usize = 0;
                while k < 8
                    invariant
                        k <= 8,
                        0 <= x < w,
                        0 <= y < h,
                        h == passable@.len(),
                        0 <= w <= 127,
                        forall|j: int| 0 <= j < h ==> (#[trigger] passable@[j])@.len() == w,
                        open == Seq::new(
                            passable@.len(),
                            |j: int| Seq::new(passable@[j]@.len(), |i: int| passable@[j]@[i]),
                        ),
                        list@ == listed(open, w as int, h as int, (x, y), k as nat),
                    decreases 8 - k,
                {
                    let (dx, dy) = around(k);
                    let nx: Distance = x + dx;
                    let ny: Distance = y + dy;
                    if nx >= 0 && nx < w && ny >= 0 && ny < h {
                        assert(passable@[ny as int]@.len() == w);
                        if passable[ny as usize][nx as usize] {
                            list.push((nx, ny));
                        }
                    }
                    k = k + 1;
                }
                row.push(list);
                x = x + 1;
            }
            adj.push(row);
            y = y + 1;
        }
        let terrain = Terrain { w, h, adj, open: Ghost(open) };
        proof {
            assert forall|p: Point|
                terrain.passable(p) <==> terrain.contains(p) && passable@[p.1 as int]@[p.0 as int] by {
                if terrain.contains(p) {
                    assert(passable@[p.1 as int]@.len() == w);
                }
            }
        }
        terrain
    }

    /// The number of columns.
    pub fn columns(&self) -> (w: Distance)
        ensures
            w == self.width(),
    {
        self.w
    }

    /// The number of rows.
    pub fn rows(&self) -> (h: Distance)
        ensures
            h == self.height(),
    {
        self.h
    }

    /// The cell lies on the map.
    pub fn holds(&self, p: Point) -> (yes: bool)
        ensures
            yes == self.contains(p),
    {
        0 <= p.0 && p.0 < self.w && 0 <= p.1 && p.1 < self.h
    }

    /// The neighbours of a cell that can be entered.
    pub fn neighbors(&self, p: Point) -> (list: &Vec<Point>)
        requires
            self.wf(),
            self.contains(p),
        ensures
            list@ == self.neighbors_of(p),
    {
        &self.adj[p.1 as usize][p.0 as usize]
    }
}

} // verus!
