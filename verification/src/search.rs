use crate::grid::cell_key;
use crate::grid::cell_key_of;
use crate::grid::Distance;
use crate::grid::Heat;
use crate::grid::LAST_TURN;
use crate::grid::MAX_HEAT;
use crate::grid::Point;
use crate::grid::SEARCH_DEPTH;
use crate::grid::slot_key;
use crate::grid::slot_key_of;
use crate::grid::sqdist;
use crate::grid::sqdist_of;
use crate::grid::Time;
use crate::grid::TimePoint;
use crate::grid::UNREACHABLE;
use crate::reservation::ReservationTable;
use crate::tables::set_contains;
use crate::tables::set_insert;
use crate::terrain::Terrain;
use fnv::FnvHashSet;
use vstd::prelude::*;

verus! {

broadcast use vstd::std_specs::hash::group_hash_axioms;

/// What a search for a route goes by: the map, the cells and turns that
/// other routes pass, the cells that enemies and waiting units of ours hold,
/// what a move adds to the unit's heat, the cell to reach and the last turn
/// to plan for.
pub struct Ground {
    pub map: Terrain,
    pub reserved: Set<u32>,
    pub enemies: Set<u16>,
    pub unmoved: Set<u16>,
    pub cooldown: int,
    pub goal: Point,
    pub horizon: int,
}

/// The cell of a state.
pub open spec fn place(s: TimePoint) -> Point {
    (s.0, s.1)
}

/// The state `s` with the estimate `a` is taken before the state `t` with
/// the estimate `b`: with the lower estimate; of two with one estimate the
/// one at the earlier turn, then the one further east, then the one further
/// north, then the one with more heat.
pub open spec fn earlier(s: TimePoint, a: int, t: TimePoint, b: int) -> bool {
    if a != b {
        a < b
    } else if s.2 != t.2 {
        s.2 < t.2
    } else if s.0 != t.0 {
        s.0 > t.0
    } else if s.1 != t.1 {
        s.1 > t.1
    } else {
        s.3 > t.3
    }
}

impl Ground {
    /// No route passes the cell at the turn.
    pub open spec fn free(self, p: Point, t: int) -> bool {
        !self.reserved.contains(slot_key_of(p, t) as u32)
    }

    /// The heat after a turn without a move.
    pub open spec fn cooled(self, heat: int) -> int {
        if heat - self.cooldown > 0 {
            heat - self.cooldown
        } else {
            0
        }
    }

    /// From `a` the unit can wait a turn and be in `b`.
    pub open spec fn stay(self, a: TimePoint, b: TimePoint) -> bool {
        &&& place(b) == place(a)
        &&& b.2 == a.2 + 1
        &&& b.3 == self.cooled(a.3 as int)
        &&& self.free(place(b), b.2 as int)
    }

    /// From `a` the unit can move and be in `b`.
    pub open spec fn step(self, a: TimePoint, b: TimePoint) -> bool {
        &&& a.3 < MAX_HEAT
        &&& self.map.edge(place(a), place(b))
        &&& b.2 == a.2 + 1
        &&& b.3 == a.3 + self.cooldown - MAX_HEAT
        &&& self.free(place(b), b.2 as int)
        &&& !self.enemies.contains(cell_key_of(place(b)) as u16)
        &&& !self.unmoved.contains(cell_key_of(place(b)) as u16)
    }

    /// The unit can be in `b` the turn after it was in `a`.
    pub open spec fn legal(self, a: TimePoint, b: TimePoint) -> bool {
        self.stay(a, b) || self.step(a, b)
    }

    /// A route ends in a state at the goal or at the last turn.
    pub open spec fn ended(self, s: TimePoint) -> bool {
        place(s) == self.goal || s.2 == self.horizon
    }

    /// The states are a way from `start`, first state first: each state but
    /// the first can be reached from the one before it, and only the last
    /// may be one that a route ends in.
    pub open spec fn chain(self, start: TimePoint, states: Seq<TimePoint>) -> bool {
        &&& states.len() > 0
        &&& states[0] == start
        &&& forall|k: int| 0 <= k < states.len() - 1 ==> #[trigger] self.link(states, k)
    }

    /// The state after the `k`-th of a way can be reached from the `k`-th,
    /// which is no state that a route ends in.
    pub open spec fn link(self, states: Seq<TimePoint>, k: int) -> bool {
        self.legal(states[k], states[k + 1]) && !self.ended(states[k])
    }

    /// The `k`-th state of a route can be reached from the one after it,
    /// which is no state that a route ends in.
    pub open spec fn hop(self, route: Seq<TimePoint>, k: int) -> bool {
        self.legal(route[k + 1], route[k]) && !self.ended(route[k + 1])
    }

    /// The states are a route from `start`, last state first.
    pub open spec fn routed(self, start: TimePoint, route: Seq<TimePoint>) -> bool {
        &&& route.len() > 0
        &&& route.last() == start
        &&& forall|k: int| 0 <= k < route.len() - 1 ==> #[trigger] self.hop(route, k)
    }

    /// The number of moves from a state's cell to the goal.
    pub open spec fn rest(self, s: TimePoint) -> int {
        self.map.hops(self.goal, place(s))
    }

    /// The estimate of the moves that a route through `b` needs, where `b` is
    /// reached from `a`, which has the estimate `before`, in a search that
    /// began at the turn `now`. After a move it is the moves still to make
    /// and the turns gone. After a wait it is the estimate before and one
    /// more, or no more where the goal is next to the cell.
    pub open spec fn toll(self, now: int, before: int, a: TimePoint, b: TimePoint) -> int {
        if place(b) == place(a) {
            if sqdist_of(place(a), self.goal) <= 2 {
                before
            } else {
                before + 1
            }
        } else {
            self.rest(b) + (b.2 - now)
        }
    }

    /// The estimate of the `k`-th state of a way, first state first.
    pub open spec fn est(self, way: Seq<TimePoint>, k: nat) -> int
        decreases k,
    {
        if k == 0 {
            self.rest(way[0])
        } else {
            self.toll(way[0].2 as int, self.est(way, (k - 1) as nat), way[k - 1], way[k as int])
        }
    }

    /// The greatest estimate among the first states of a way, up to the
    /// `k`-th.
    pub open spec fn peak(self, way: Seq<TimePoint>, k: nat) -> int
        decreases k,
    {
        if k == 0 {
            self.est(way, 0)
        } else if self.est(way, k) > self.peak(way, (k - 1) as nat) {
            self.est(way, k)
        } else {
            self.peak(way, (k - 1) as nat)
        }
    }

    /// The estimate of the `k`-th state of a route, last state first.
    pub open spec fn est_back(self, route: Seq<TimePoint>, k: int) -> int
        decreases route.len() - k,
    {
        if k >= route.len() - 1 {
            self.rest(route[route.len() - 1])
        } else {
            self.toll(
                route[route.len() - 1].2 as int,
                self.est_back(route, k + 1),
                route[k + 1],
                route[k],
            )
        }
    }

    /// The `j`-th state of the way, with its estimate, is not taken before
    /// the end of the route, with its estimate.
    pub open spec fn holds_off(self, way: Seq<TimePoint>, j: int, route: Seq<TimePoint>) -> bool {
        !earlier(way[j], self.est(way, j as nat), route[0], self.est_back(route, 0))
    }

    /// What a search from `start` may give: a route from `start` that ends at
    /// the goal or at the last turn, with an estimate at its end that is no
    /// greater than the greatest estimate on any way from `start` that ends
    /// so, and an end that is not taken after every state of such a way; or,
    /// where no way from `start` ends so, a route from `start` to a state
    /// that is as near to the goal as any state that a way from `start` leads
    /// to.
    pub open spec fn planned(self, start: TimePoint, route: Seq<TimePoint>) -> bool {
        &&& self.routed(start, route)
        &&& self.ended(route[0]) || forall|way: Seq<TimePoint>| #[trigger]
            self.chain(start, way) ==> !self.ended(way.last()) && self.rest(route[0]) <= self.rest(
                way.last(),
            )
        &&& self.ended(route[0]) ==> forall|way: Seq<TimePoint>| #[trigger]
            self.chain(start, way) && self.ended(way.last()) ==> self.est_back(route, 0)
                <= self.peak(way, (way.len() - 1) as nat) && exists|j: int|
                0 <= j < way.len() && #[trigger] self.holds_off(way, j, route)
    }
}

/// A state that the search has reached, with the estimate of the moves that a
/// route through it needs and the place of the state that it was reached
/// from.
#[derive(Clone, Copy, Debug)]
pub struct ANode {
    pub a: i32,
    pub x: Distance,
    pub y: Distance,
    pub t: Time,
    pub h: Heat,
    pub parent: usize,
}

impl ANode {
    /// The state of the node.
    pub open spec fn state(self) -> TimePoint {
        (self.x, self.y, self.t, self.h)
    }

    /// The node is taken before `other`: with the lower estimate; of two with
    /// one estimate the one at the earlier turn, then the one further east,
    /// then the one further north, then the one with more heat.
    pub open spec fn precedes(self, other: ANode) -> bool {
        earlier(self.state(), self.a as int, other.state(), other.a as int)
    }

    /// The node is taken before `other`.
    pub fn before(&self, other: &ANode) -> (yes: bool)
        ensures
            yes == self.precedes(*other),
    {
        if self.a != other.a {
            self.a < other.a
        } else if self.t != other.t {
            self.t < other.t
        } else if self.x != other.x {
            self.x > other.x
        } else if self.y != other.y {
            self.y > other.y
        } else {
            self.h > other.h
        }
    }
}

/// Some node has the state.
pub open spec fn among(nodes: Seq<ANode>, s: TimePoint) -> bool {
    exists|k: int| 0 <= k < nodes.len() && (#[trigger] nodes[k]).state() == s
}

/// Some node has the state and the estimate.
pub open spec fn held(nodes: Seq<ANode>, s: TimePoint, a: int) -> bool {
    exists|k: int| 0 <= k < nodes.len() && (#[trigger] nodes[k]).state() == s && nodes[k].a == a
}

/// Ten to the power of `d`.
pub open spec fn weight(d: int) -> int
    decreases d,
{
    if d <= 0 {
        1
    } else {
        10 * weight(d - 1)
    }
}

/// The weights of the nodes together: what is left to search at most.
pub open spec fn mass(nodes: Seq<ANode>, horizon: int) -> int
    decreases nodes.len(),
{
    if nodes.len() == 0 {
        0
    } else {
        mass(nodes.drop_last(), horizon) + weight(horizon - nodes.last().t)
    }
}

proof fn lemma_weight_positive(d: int)
    ensures
        weight(d) >= 1,
    decreases d,
{
    if d > 0 {
        lemma_weight_positive(d - 1);
    }
}

proof fn lemma_mass_push(nodes: Seq<ANode>, node: ANode, horizon: int)
    ensures
        mass(nodes.push(node), horizon) == mass(nodes, horizon) + weight(horizon - node.t),
{
    assert(nodes.push(node).drop_last() =~= nodes);
}

proof fn lemma_mass_update(nodes: Seq<ANode>, i: int, node: ANode, horizon: int)
    requires
        0 <= i < nodes.len(),
    ensures
        mass(nodes.update(i, node), horizon) == mass(nodes, horizon) - weight(
            horizon - nodes[i].t,
        ) + weight(horizon - node.t),
    decreases nodes.len(),
{
    if i == nodes.len() - 1 {
        assert(nodes.update(i, node).drop_last() =~= nodes.drop_last());
    } else {
        assert(nodes.update(i, node).drop_last() =~= nodes.drop_last().update(i, node));
        lemma_mass_update(nodes.drop_last(), i, node, horizon);
    }
}

proof fn lemma_mass_positive(nodes: Seq<ANode>, horizon: int)
    ensures
        mass(nodes, horizon) >= 0,
    decreases nodes.len(),
{
    if nodes.len() > 0 {
        lemma_mass_positive(nodes.drop_last(), horizon);
        lemma_weight_positive(horizon - nodes.last().t);
    }
}

/// The index of a node that no other node is taken before.
fn first_of(open: &Vec<ANode>) -> (best: usize)
    requires
        open@.len() > 0,
    ensures
        best < open@.len(),
        forall|i: int| 0 <= i < open@.len() ==> !(#[trigger] open@[i]).precedes(open@[best as int]),
{
    let mut best: usize = 0;
    let mut i: usize = 1;
    while i < open.len()
        invariant
            1 <= i <= open@.len(),
            best < i,
            forall|k: int| 0 <= k < i ==> !(#[trigger] open@[k]).precedes(open@[best as int]),
        decreases open@.len() - i,
    {
        if open[i].before(&open[best]) {
            best = i;
        }
        i = i + 1;
    }
    best
}

/// Takes the node at `at` out of the list; the last node takes its place.
fn take(open: &mut Vec<ANode>, at: usize, Ghost(horizon): Ghost<int>) -> (node: ANode)
    requires
        at < old(open)@.len(),
    ensures
        node == old(open)@[at as int],
        final(open)@.len() == old(open)@.len() - 1,
        mass(final(open)@, horizon) == mass(old(open)@, horizon) - weight(horizon - node.t),
        forall|i: int|
            0 <= i < old(open)@.len() && i != at ==> exists|j: int|
                0 <= j < final(open)@.len() && final(open)@[j] == #[trigger] old(open)@[i],
        forall|j: int|
            0 <= j < final(open)@.len() ==> exists|i: int|
                0 <= i < old(open)@.len() && i != at && #[trigger] final(open)@[j] == old(open)@[i],
{
    let node = open[at];
    let ghost whole = open@;
    let last = open.pop().unwrap();
    proof {
        assert(whole.drop_last().push(last) =~= whole);
        lemma_mass_push(whole.drop_last(), last, horizon);
    }
    if at < open.len() {
        let ghost short = open@;
        open[at] = last;
        proof {
            lemma_mass_update(short, at as int, last, horizon);
            assert forall|i: int| 0 <= i < whole.len() && i != at implies exists|j: int|
                0 <= j < open@.len() && open@[j] == #[trigger] whole[i] by {
                if i == whole.len() - 1 {
                    assert(open@[at as int] == whole[i]);
                } else {
                    assert(open@[i] == whole[i]);
                }
            }
            assert forall|j: int| 0 <= j < open@.len() implies exists|i: int|
                0 <= i < whole.len() && i != at && #[trigger] open@[j] == whole[i] by {
                if j == at {
                    assert(open@[j] == whole[whole.len() - 1]);
                } else {
                    assert(open@[j] == whole[j]);
                }
            }
        }
    } else {
        proof {
            assert forall|i: int| 0 <= i < whole.len() && i != at implies exists|j: int|
                0 <= j < open@.len() && open@[j] == #[trigger] whole[i] by {
                assert(open@[i] == whole[i]);
            }
            assert forall|j: int| 0 <= j < open@.len() implies exists|i: int|
                0 <= i < whole.len() && i != at && #[trigger] open@[j] == whole[i] by {
                assert(open@[j] == whole[j]);
            }
        }
    }
    node
}

/// The node lies on the map, at a turn of the search, with heat and estimate
/// in the bounds that the turn gives.
pub open spec fn sane(g: Ground, now: int, n: ANode) -> bool {
    &&& g.map.contains((n.x, n.y))
    &&& now <= n.t <= g.horizon
    &&& -128 - 138 * (n.t - now) <= n.h <= 128 + 138 * (n.t - now)
    &&& 0 <= n.a <= UNREACHABLE + (n.t - now)
}

/// The `k`-th node of the arena is no state that a route ends in; it is the
/// start if it is the first, and was reached from a node before it if not.
pub open spec fn node_ok(g: Ground, start: TimePoint, now: int, arena: Seq<ANode>, k: int) -> bool {
    let n = arena[k];
    &&& sane(g, now, n)
    &&& !g.ended(n.state())
    &&& k == 0 ==> n.state() == start && n.a == g.rest(start)
    &&& k > 0 ==> n.parent < k && g.legal(arena[n.parent as int].state(), n.state()) && n.a
        == g.toll(now, arena[n.parent as int].a as int, arena[n.parent as int].state(), n.state())
}

/// The nodes that were taken and expanded are in order.
pub open spec fn arena_ok(g: Ground, start: TimePoint, now: int, arena: Seq<ANode>) -> bool {
    forall|k: int| 0 <= k < arena.len() ==> #[trigger] node_ok(g, start, now, arena, k)
}

/// The `i`-th node that waits was reached from a node of the arena; while
/// the arena is empty it is the start.
pub open spec fn wait_ok(
    g: Ground,
    start: TimePoint,
    now: int,
    arena: Seq<ANode>,
    open: Seq<ANode>,
    i: int,
) -> bool {
    let n = open[i];
    &&& sane(g, now, n)
    &&& arena.len() == 0 ==> n.state() == start && n.a == g.rest(start)
    &&& arena.len() > 0 ==> n.parent < arena.len() && g.legal(
        arena[n.parent as int].state(),
        n.state(),
    ) && n.a == g.toll(
        now,
        arena[n.parent as int].a as int,
        arena[n.parent as int].state(),
        n.state(),
    )
}

/// The nodes that wait are in order.
pub open spec fn open_ok(
    g: Ground,
    start: TimePoint,
    now: int,
    arena: Seq<ANode>,
    open: Seq<ANode>,
) -> bool {
    forall|i: int| 0 <= i < open.len() ==> #[trigger] wait_ok(g, start, now, arena, open, i)
}

/// Whatever can be reached from one of the first `closed` nodes of the arena
/// is in the arena or waits, with the estimate that it has when reached from
/// there.
pub open spec fn closure(
    g: Ground,
    now: int,
    arena: Seq<ANode>,
    open: Seq<ANode>,
    closed: int,
) -> bool {
    forall|k: int, s: TimePoint|
        0 <= k < closed && #[trigger] g.legal(arena[k].state(), s) ==> held(
            arena,
            s,
            g.toll(now, arena[k].a as int, arena[k].state(), s),
        ) || held(open, s, g.toll(now, arena[k].a as int, arena[k].state(), s))
}

proof fn lemma_held_among(nodes: Seq<ANode>, s: TimePoint, a: int)
    ensures
        held(nodes, s, a) ==> among(nodes, s),
{
    if held(nodes, s, a) {
        let k = choose|k: int|
            0 <= k < nodes.len() && (#[trigger] nodes[k]).state() == s && nodes[k].a == a;
        assert(nodes[k].state() == s);
    }
}

/// With nothing left to wait, every way from the start ends in a state of
/// the arena.
proof fn lemma_exhausted(g: Ground, start: TimePoint, now: int, arena: Seq<ANode>, way: Seq<TimePoint>)
    requires
        arena_ok(g, start, now, arena),
        closure(g, now, arena, Seq::empty(), arena.len() as int),
        arena.len() > 0,
        g.chain(start, way),
    ensures
        among(arena, way.last()),
    decreases way.len(),
{
    if way.len() == 1 {
        assert(node_ok(g, start, now, arena, 0));
        assert(arena[0].state() == start);
    } else {
        let front = way.drop_last();
        assert forall|k: int| 0 <= k < front.len() - 1 implies #[trigger] g.link(front, k) by {
            assert(g.link(way, k));
        }
        lemma_exhausted(g, start, now, arena, front);
        let k = choose|k: int| 0 <= k < arena.len() && (#[trigger] arena[k]).state() == front.last();
        assert(g.link(way, way.len() - 2));
        assert(g.legal(way[way.len() - 2], way[way.len() - 1]));
        assert(g.legal(arena[k].state(), way.last()));
        let none = Seq::<ANode>::empty();
        let e = g.toll(now, arena[k].a as int, arena[k].state(), way.last());
        assert(!held(none, way.last(), e));
        lemma_held_among(arena, way.last(), e);
    }
}

/// The `m`-th node of a trail is not the first of the arena, and the node
/// after it on the trail is the one that it was reached from.
pub open spec fn stepped(arena: Seq<ANode>, idx: Seq<int>, m: int) -> bool {
    idx[m] > 0 && idx[m + 1] == arena[idx[m]].parent
}

/// The trail names, for each state of the route from the `base`-th on, a
/// node of the arena with that state, each reached from the next, down to
/// the first node.
pub open spec fn trailed(arena: Seq<ANode>, route: Seq<TimePoint>, idx: Seq<int>, base: int) -> bool {
    &&& idx.len() == route.len() - base
    &&& forall|m: int|
        0 <= m < idx.len() ==> 0 <= #[trigger] idx[m] < arena.len() && arena[idx[m]].state()
            == route[m + base]
    &&& forall|m: int| 0 <= m < idx.len() - 1 ==> #[trigger] stepped(arena, idx, m)
}

/// Along a route that follows the nodes of the arena back to the start, each
/// state has the estimate of its node.
proof fn lemma_est_back(
    g: Ground,
    now: int,
    start: TimePoint,
    arena: Seq<ANode>,
    route: Seq<TimePoint>,
    idx: Seq<int>,
    base: int,
    m: int,
)
    requires
        arena_ok(g, start, now, arena),
        0 <= base,
        0 <= m < idx.len(),
        trailed(arena, route, idx, base),
        start.2 == now,
        route.last() == start,
        idx.last() == 0,
    ensures
        g.est_back(route, m + base) == arena[idx[m]].a,
    decreases idx.len() - m,
{
    if m == idx.len() - 1 {
        assert(node_ok(g, start, now, arena, 0));
    } else {
        lemma_est_back(g, now, start, arena, route, idx, base, m + 1);
        assert(stepped(arena, idx, m));
        assert(0 <= idx[m] < arena.len());
        assert(0 <= idx[m + 1] < arena.len());
        assert(node_ok(g, start, now, arena, idx[m]));
        assert(arena[idx[m + 1]].state() == route[m + 1 + base]);
        assert(arena[idx[m]].state() == route[m + base]);
    }
}

/// Follows the states that a node of the arena was reached through back to
/// the start and adds them to the route.
fn extend_back(
    arena: &Vec<ANode>,
    from: usize,
    route: &mut Vec<TimePoint>,
    Ghost(g): Ghost<Ground>,
    Ghost(start): Ghost<TimePoint>,
    Ghost(now): Ghost<int>,
    Ghost(head): Ghost<int>,
)
    requires
        from < arena@.len(),
        arena_ok(g, start, now, arena@),
        start.2 == now,
        old(route)@.len() <= 1,
        old(route)@.len() == 1 ==> g.legal(arena@[from as int].state(), old(route)@[0]) && head
            == g.toll(
            now,
            arena@[from as int].a as int,
            arena@[from as int].state(),
            old(route)@[0],
        ),
    ensures
        g.routed(start, final(route)@),
        final(route)@[0] == (if old(route)@.len() == 1 {
            old(route)@[0]
        } else {
            arena@[from as int].state()
        }),
        g.est_back(final(route)@, 0) == (if old(route)@.len() == 1 {
            head
        } else {
            arena@[from as int].a as int
        }),
        forall|k: int|
            old(route)@.len() <= k < final(route)@.len() ==> among(arena@, #[trigger] final(route)@[k]),
{
    let mut cur: usize = from;
    let ghost base = route@.len() as int;
    let ghost mut idx: Seq<int> = Seq::empty();
    loop
        invariant_except_break
            cur < arena@.len(),
            route@.len() > 0 ==> g.legal(arena@[cur as int].state(), route@.last()),
            route@.len() == old(route)@.len() ==> cur == from,
            idx.len() > 0 ==> idx.last() > 0 && cur == arena@[idx.last()].parent,
        invariant
            arena_ok(g, start, now, arena@),
            old(route)@.len() <= 1,
            base == old(route)@.len(),
            route@.len() >= old(route)@.len(),
            from < arena@.len(),
            trailed(arena@, route@, idx, base),
            idx.len() > 0 ==> idx[0] == from,
            route@.len() > 0 ==> route@[0] == (if old(route)@.len() == 1 {
                old(route)@[0]
            } else {
                arena@[from as int].state()
            }),
            forall|k: int| 0 <= k < route@.len() - 1 ==> #[trigger] g.hop(route@, k),
            forall|k: int|
                old(route)@.len() <= k < route@.len() ==> among(arena@, #[trigger] route@[k]),
        ensures
            route@.len() > base,
            route@.last() == start,
            idx.len() > 0,
            idx.last() == 0,
        decreases cur,
    {
        let node = arena[cur];
        let ghost before = route@;
        let ghost marks = idx;
        route.push((node.x, node.y, node.t, node.h));
        proof {
            idx = idx.push(cur as int);
            assert(node_ok(g, start, now, arena@, cur as int));
            assert(arena@[cur as int].state() == route@.last());
            if before.len() > 0 {
                assert(route@[0] == before[0]);
            }
            assert forall|k: int| 0 <= k < route@.len() - 1 implies #[trigger] g.hop(
                route@,
                k,
            ) by {
                if k < before.len() - 1 {
                    assert(g.hop(before, k));
                }
            }
            assert forall|k: int| old(route)@.len() <= k < route@.len() implies among(
                arena@,
                #[trigger] route@[k],
            ) by {
                if k < before.len() {
                    assert(among(arena@, before[k]));
                }
            }
            assert forall|m: int| 0 <= m < idx.len() implies 0 <= #[trigger] idx[m] < arena@.len()
                && arena@[idx[m]].state() == route@[m + base] by {
                if m < marks.len() {
                    assert(marks[m] == idx[m]);
                    assert(before[m + base] == route@[m + base]);
                }
            }
            assert forall|m: int| 0 <= m < idx.len() - 1 implies #[trigger] stepped(
                arena@,
                idx,
                m,
            ) by {
                if m < marks.len() - 1 {
                    assert(stepped(arena@, marks, m));
                } else {
                    assert(marks.last() == idx[m]);
                    assert(idx[m + 1] == cur);
                }
            }
        }
        if cur == 0 {
            break ;
        }
        cur = node.parent;
    }
    proof {
        lemma_est_back(g, now, start, arena@, route@, idx, base, 0);
        assert(idx[0] == from);
        if base == 1 {
            assert(route@[1] == arena@[from as int].state());
        }
    }
}

/// The index of the node of the arena whose cell is nearest to the goal; of
/// two as near the one at the earlier turn, then the one further west, then
/// the one further south.
fn nearest(
    arena: &Vec<ANode>,
    field: &Vec<Vec<i32>>,
    Ghost(g): Ghost<Ground>,
    Ghost(start): Ghost<TimePoint>,
    Ghost(now): Ghost<int>,
) -> (best: usize)
    requires
        arena@.len() > 0,
        arena_ok(g, start, now, arena@),
        g.map.is_field(g.goal, field@),
    ensures
        best < arena@.len(),
        forall|k: int|
            0 <= k < arena@.len() ==> g.rest(arena@[best as int].state()) <= g.rest(
                (#[trigger] arena@[k]).state(),
            ),
{
    let mut best: usize = 0;
    let mut i: usize = 1;
    while i < arena.len()
        invariant
            1 <= i <= arena@.len(),
            best < i,
            arena_ok(g, start, now, arena@),
            g.map.is_field(g.goal, field@),
            forall|k: int|
                0 <= k < i ==> g.rest(arena@[best as int].state()) <= g.rest(
                    (#[trigger] arena@[k]).state(),
                ),
        decreases arena@.len() - i,
    {
        let n = arena[i];
        let b = arena[best];
        proof {
            assert(node_ok(g, start, now, arena@, i as int));
            assert(node_ok(g, start, now, arena@, best as int));
        }
        let dn = field[n.y as usize][n.x as usize];
        let db = field[b.y as usize][b.x as usize];
        let nearer = if dn != db {
            dn < db
        } else if n.t != b.t {
            n.t < b.t
        } else if n.x != b.x {
            n.x < b.x
        } else {
            n.y < b.y
        };
        if nearer {
            best = i;
        }
        i = i + 1;
    }
    best
}

/// `n` times `unit`.
pub open spec fn times(n: nat, unit: int) -> int
    decreases n,
{
    if n == 0 {
        0
    } else {
        times((n - 1) as nat, unit) + unit
    }
}

proof fn lemma_times(n: nat, unit: int)
    requires
        n <= 8,
        unit >= 0,
    ensures
        times(n, unit) <= 8 * unit,
    decreases 8 - n,
{
    if n < 8 {
        lemma_times((n + 1) as nat, unit);
    } else {
        reveal_with_fuel(times, 9);
    }
}

/// What a search on these tables goes by.
pub open spec fn ground_of(
    terrain: Terrain,
    reserved: Set<u32>,
    enemies: Set<u16>,
    unmoved: Set<u16>,
    cooldown: int,
    goal: Point,
    now: int,
) -> Ground {
    Ground { map: terrain, reserved, enemies, unmoved, cooldown, goal, horizon: now + SEARCH_DEPTH }
}

/// The key that a state has in the table of states met.
pub open spec fn state_key_of(s: TimePoint) -> u64 {
    (slot_key_of(place(s), s.2 as int) * 4096 + (s.3 + 2048)) as u64
}

/// The key that a state has in the table of states met.
fn state_key(s: TimePoint) -> (key: u64)
    requires
        s.0 >= 0,
        s.1 >= 0,
        s.2 >= 0,
        -2048 <= s.3 < 2048,
    ensures
        key == state_key_of(s),
        key == slot_key_of(place(s), s.2 as int) * 4096 + (s.3 + 2048),
{
    (slot_key((s.0, s.1), s.2) as u64) * 4096 + ((s.3 + 2048) as u64)
}

/// Two states on a map, at turns that are not negative and with heat in the
/// bounds of the table, have one key only if they are one state.
pub proof fn lemma_state_key(a: TimePoint, b: TimePoint)
    requires
        0 <= a.0 <= 126 && 0 <= a.1 <= 126 && 0 <= a.2 && -2048 <= a.3 < 2048,
        0 <= b.0 <= 126 && 0 <= b.1 <= 126 && 0 <= b.2 && -2048 <= b.3 < 2048,
        state_key_of(a) == state_key_of(b),
    ensures
        a == b,
{
    let ca = a.1 * 128 + a.0;
    let cb = b.1 * 128 + b.0;
    let sa = a.2 * 16384 + ca;
    let sb = b.2 * 16384 + cb;
    let ha = a.3 + 2048;
    let hb = b.3 + 2048;
    assert(0 <= ca < 16384 && 0 <= cb < 16384);
    assert(0 <= sa <= 32767 * 16384 + 16383 && 0 <= sb <= 32767 * 16384 + 16383);
    assert(0 <= ha < 4096 && 0 <= hb < 4096);
    assert(slot_key_of(place(a), a.2 as int) == sa);
    assert(slot_key_of(place(b), b.2 as int) == sb);
    assert(0 <= sa * 4096 + ha <= u64::MAX);
    assert(0 <= sb * 4096 + hb <= u64::MAX);
    assert(state_key_of(a) == sa * 4096 + ha);
    assert(state_key_of(b) == sb * 4096 + hb);
    assert(sa == sb) by {
        if sa < sb {
            assert(sa * 4096 + 4096 <= sb * 4096);
        } else if sb < sa {
            assert(sb * 4096 + 4096 <= sa * 4096);
        }
    }
    assert(ha == hb);
    assert(a.2 == b.2) by {
        if a.2 < b.2 {
            assert(a.2 * 16384 + 16384 <= b.2 * 16384);
        } else if b.2 < a.2 {
            assert(b.2 * 16384 + 16384 <= a.2 * 16384);
        }
    }
    assert(ca == cb);
    assert(a.1 == b.1) by {
        if a.1 < b.1 {
            assert(a.1 * 128 + 128 <= b.1 * 128);
        } else if b.1 < a.1 {
            assert(b.1 * 128 + 128 <= a.1 * 128);
        }
    }
    assert(a.0 == b.0);
}

/// The key that a state with an estimate has in the table of states met.
pub open spec fn node_key_of(s: TimePoint, a: int) -> u64 {
    (state_key_of(s) * 32768 + a) as u64
}

/// The key that a state with an estimate has in the table of states met.
fn node_key(s: TimePoint, a: i32) -> (key: u64)
    requires
        0 <= s.0 <= 126,
        0 <= s.1 <= 126,
        s.2 >= 0,
        -2048 <= s.3 < 2048,
        0 <= a < 32768,
    ensures
        key == node_key_of(s, a as int),
        key == state_key_of(s) * 32768 + a,
{
    let inner = state_key(s);
    assert(inner <= (32767 * 16384 + 16383) * 4096 + 4095);
    inner * 32768 + (a as u64)
}

/// Two states with estimates have one key only if they are one state with
/// one estimate.
pub proof fn lemma_node_key(s: TimePoint, a: int, t: TimePoint, b: int)
    requires
        0 <= s.0 <= 126 && 0 <= s.1 <= 126 && 0 <= s.2 && -2048 <= s.3 < 2048,
        0 <= t.0 <= 126 && 0 <= t.1 <= 126 && 0 <= t.2 && -2048 <= t.3 < 2048,
        0 <= a < 32768,
        0 <= b < 32768,
        node_key_of(s, a) == node_key_of(t, b),
    ensures
        s == t,
        a == b,
{
    let ks = state_key_of(s) as int;
    let kt = state_key_of(t) as int;
    assert(0 <= ks <= (32767 * 16384 + 16383) * 4096 + 4095) by {
        assert(0 <= slot_key_of(place(s), s.2 as int) <= 32767 * 16384 + 16383);
    }
    assert(0 <= kt <= (32767 * 16384 + 16383) * 4096 + 4095) by {
        assert(0 <= slot_key_of(place(t), t.2 as int) <= 32767 * 16384 + 16383);
    }
    assert(node_key_of(s, a) == ks * 32768 + a);
    assert(node_key_of(t, b) == kt * 32768 + b);
    assert(ks == kt) by {
        if ks < kt {
            assert(ks * 32768 + 32768 <= kt * 32768);
        } else if kt < ks {
            assert(kt * 32768 + 32768 <= ks * 32768);
        }
    }
    lemma_state_key(s, t);
}

/// The state lies on the map, at a turn of the search, with heat in the
/// bounds of the table of states met.
pub open spec fn bounded(g: Ground, now: int, s: TimePoint) -> bool {
    &&& g.map.contains(place(s))
    &&& now <= s.2 <= g.horizon
    &&& -2048 <= s.3 < 2048
}

/// Every state that was met with an estimate is in the arena or waits, with
/// that estimate.
pub open spec fn known(g: Ground, now: int, arena: Seq<ANode>, open: Seq<ANode>, seen: Set<u64>) -> bool {
    forall|s: TimePoint, a: int|
        #[trigger] seen.contains(node_key_of(s, a)) && bounded(g, now, s) && 0 <= a < 32768
            ==> held(arena, s, a) || held(open, s, a)
}

proof fn lemma_held_push(nodes: Seq<ANode>, node: ANode, s: TimePoint, a: int)
    ensures
        held(nodes, s, a) ==> held(nodes.push(node), s, a),
        held(nodes.push(node), node.state(), node.a as int),
{
    let more = nodes.push(node);
    assert(more[more.len() - 1].state() == node.state() && more[more.len() - 1].a == node.a);
    if held(nodes, s, a) {
        let k = choose|k: int|
            0 <= k < nodes.len() && (#[trigger] nodes[k]).state() == s && nodes[k].a == a;
        assert(more[k].state() == s && more[k].a == a);
    }
}

/// Lets a state that was reached wait, unless it was met before with the
/// same estimate.
fn let_wait(
    open: &mut Vec<ANode>,
    seen: &mut FnvHashSet<u64>,
    child: ANode,
    Ghost(g): Ghost<Ground>,
    Ghost(start): Ghost<TimePoint>,
    Ghost(now): Ghost<int>,
    Ghost(arena): Ghost<Seq<ANode>>,
)
    requires
        0 <= now <= LAST_TURN,
        g.horizon == now + SEARCH_DEPTH,
        g.map.width() <= 127,
        g.map.height() <= 127,
        arena.len() > 0,
        sane(g, now, child),
        child.parent < arena.len(),
        g.legal(arena[child.parent as int].state(), child.state()),
        child.a == g.toll(
            now,
            arena[child.parent as int].a as int,
            arena[child.parent as int].state(),
            child.state(),
        ),
        open_ok(g, start, now, arena, old(open)@),
        known(g, now, arena, old(open)@, old(seen)@),
    ensures
        open_ok(g, start, now, arena, final(open)@),
        known(g, now, arena, final(open)@, final(seen)@),
        final(open)@.len() >= old(open)@.len(),
        forall|i: int| 0 <= i < old(open)@.len() ==> final(open)@[i] == old(open)@[i],
        held(arena, child.state(), child.a as int) || held(
            final(open)@,
            child.state(),
            child.a as int,
        ),
        mass(final(open)@, g.horizon) <= mass(old(open)@, g.horizon) + weight(g.horizon - child.t),
{
    let key = node_key((child.x, child.y, child.t, child.h), child.a);
    let ghost prior = open@;
    let ghost met = seen@;
    proof {
        assert(bounded(g, now, child.state()));
        lemma_weight_positive(g.horizon - child.t);
    }
    if !set_contains(seen, key) {
        set_insert(seen, key);
        open.push(child);
        proof {
            lemma_mass_push(prior, child, g.horizon);
            lemma_held_push(prior, child, child.state(), child.a as int);
            assert(wait_ok(g, start, now, arena, open@, open@.len() - 1));
            assert forall|i: int| 0 <= i < open@.len() implies #[trigger] wait_ok(
                g,
                start,
                now,
                arena,
                open@,
                i,
            ) by {
                if i < prior.len() {
                    assert(wait_ok(g, start, now, arena, prior, i));
                }
            }
            assert forall|s: TimePoint, a: int|
                #[trigger] seen@.contains(node_key_of(s, a)) && bounded(g, now, s) && 0 <= a
                    < 32768 implies held(arena, s, a) || held(open@, s, a) by {
                if met.contains(node_key_of(s, a)) {
                    lemma_held_push(prior, child, s, a);
                } else {
                    assert(node_key_of(s, a) == node_key_of(child.state(), child.a as int));
                    lemma_node_key(s, a, child.state(), child.a as int);
                }
            }
        }
    }
}

/// Puts among the nodes that wait whatever can be reached from the last node
/// of the arena: the state after a turn of waiting, unless the cell is
/// reserved then, and, if the unit's heat lets it move, each neighbouring
/// cell that can be entered and is neither reserved then nor held by an enemy
/// or by a waiting unit of ours.
fn expand(
    terrain: &Terrain,
    reserved: &ReservationTable,
    enemies: &FnvHashSet<u16>,
    unmoved: &FnvHashSet<u16>,
    field: &Vec<Vec<i32>>,
    goal: Point,
    now: Time,
    cooldown: i8,
    arena: &Vec<ANode>,
    open: &mut Vec<ANode>,
    seen: &mut FnvHashSet<u64>,
    Ghost(g): Ghost<Ground>,
    Ghost(start): Ghost<TimePoint>,
)
    requires
        terrain.wf(),
        terrain.contains(goal),
        terrain.is_field(goal, field@),
        0 <= now <= LAST_TURN,
        g == ground_of(
            *terrain,
            reserved@,
            enemies@,
            unmoved@,
            cooldown as int,
            goal,
            now as int,
        ),
        arena@.len() > 0,
        arena_ok(g, start, now as int, arena@),
        open_ok(g, start, now as int, arena@, old(open)@),
        closure(g, now as int, arena@, old(open)@, arena@.len() - 1),
        known(g, now as int, arena@, old(open)@, old(seen)@),
    ensures
        open_ok(g, start, now as int, arena@, final(open)@),
        closure(g, now as int, arena@, final(open)@, arena@.len() as int),
        known(g, now as int, arena@, final(open)@, final(seen)@),
        mass(final(open)@, g.horizon) <= mass(old(open)@, g.horizon) + 9 * weight(
            g.horizon - arena@.last().t - 1,
        ),
{
    let p = arena.len() - 1;
    let node = arena[p];
    let ghost first = open@;
    let ghost from = node.state();
    let ghost unit = weight(g.horizon - node.t - 1);
    let cell: Point = (node.x, node.y);
    let cd: i32 = cooldown as i32;
    proof {
        assert(node_ok(g, start, now as int, arena@, p as int));
        lemma_weight_positive(g.horizon - node.t - 1);
    }
    let next_t: Time = node.t + 1;
    let next_heat: Heat = if node.h - cd > 0 {
        node.h - cd
    } else {
        0
    };
    let next_cost: i32 = if sqdist(cell, goal) <= 2 {
        node.a
    } else {
        node.a + 1
    };
    let ghost waited: TimePoint = (node.x, node.y, next_t, next_heat);
    proof {
        terrain.lemma_small();
    }
    if !reserved.is_reserved(cell, next_t) {
        let child = ANode { a: next_cost, x: node.x, y: node.y, t: next_t, h: next_heat, parent: p };
        proof {
            assert(g.stay(from, child.state()));
            assert(place(child.state()) == place(from));
        }
        let_wait(open, seen, child, Ghost(g), Ghost(start), Ghost(now as int), Ghost(arena@));
    }
    let ghost price = node.a as int;
    proof {
        assert forall|s: TimePoint| g.stay(from, s) implies held(
            arena@,
            s,
            g.toll(now as int, price, from, s),
        ) || held(open@, s, g.toll(now as int, price, from, s)) by {
            assert(s == waited);
        }
    }
    let ghost second = open@;
    if node.h < MAX_HEAT {
        let list = terrain.neighbors(cell);
        let next_h: Heat = node.h + cd - MAX_HEAT;
        let elapsed: i32 = (node.t - now + 1) as i32;
        proof {
            terrain.lemma_neighbors_few(cell);
        }
        let mut j: usize = 0;
        while j < list.len()
            invariant
                j <= list@.len(),
                list@.len() <= 8,
                list@ == terrain.neighbors_of(cell),
                terrain.wf(),
                terrain.contains(goal),
                terrain.contains(cell),
                terrain.is_field(goal, field@),
                0 <= now <= LAST_TURN,
                g == ground_of(
                    *terrain,
                    reserved@,
                    enemies@,
                    unmoved@,
                    cooldown as int,
                    goal,
                    now as int,
                ),
                arena@.len() > 0,
                p == arena@.len() - 1,
                node == arena@[p as int],
                from == node.state(),
                cell == (node.x, node.y),
                next_t == node.t + 1,
                next_h == node.h + cd - MAX_HEAT,
                cd == cooldown,
                elapsed == node.t - now + 1,
                node.h < MAX_HEAT,
                sane(g, now as int, node),
                node.t < g.horizon,
                unit == weight(g.horizon - node.t - 1),
                unit >= 1,
                open@.len() >= second.len(),
                forall|i: int| 0 <= i < second.len() ==> open@[i] == second[i],
                open_ok(g, start, now as int, arena@, open@),
                known(g, now as int, arena@, open@, seen@),
                arena_ok(g, start, now as int, arena@),
                g.map.width() <= 127,
                g.map.height() <= 127,
                mass(open@, g.horizon) <= mass(second, g.horizon) + times(j as nat, unit),
                price == node.a,
                forall|n: int|
                    0 <= n < j && g.step(from, moved(node, #[trigger] list@[n], cd as int))
                        ==> held(
                        arena@,
                        moved(node, list@[n], cd as int),
                        g.toll(now as int, price, from, moved(node, list@[n], cd as int)),
                    ) || held(
                        open@,
                        moved(node, list@[n], cd as int),
                        g.toll(now as int, price, from, moved(node, list@[n], cd as int)),
                    ),
            decreases list@.len() - j,
        {
            let v = list[j];
            let ghost prior = open@;
            proof {
                assert(list@.contains(v));
                terrain.lemma_neighbors(cell, v);
                terrain.lemma_passable_on_map(v);
            }
            if !reserved.is_reserved(v, next_t) && !set_contains(enemies, cell_key(v))
                && !set_contains(unmoved, cell_key(v)) {
                let child = ANode {
                    a: field[v.1 as usize][v.0 as usize] + elapsed,
                    x: v.0,
                    y: v.1,
                    t: next_t,
                    h: next_h,
                    parent: p,
                };
                proof {
                    assert(child.state() == moved(node, v, cd as int));
                    assert(g.step(from, child.state()));
                    assert(field@[v.1 as int]@[v.0 as int] == g.rest(child.state()));
                    assert(place(child.state()) != place(from));
                }
                let_wait(open, seen, child, Ghost(g), Ghost(start), Ghost(now as int), Ghost(arena@));
                proof {
                    assert forall|n: int|
                        0 <= n < j + 1 && g.step(
                            from,
                            moved(node, #[trigger] list@[n], cd as int),
                        ) implies held(
                        arena@,
                        moved(node, list@[n], cd as int),
                        g.toll(now as int, price, from, moved(node, list@[n], cd as int)),
                    ) || held(
                        open@,
                        moved(node, list@[n], cd as int),
                        g.toll(now as int, price, from, moved(node, list@[n], cd as int)),
                    ) by {
                        let s = moved(node, list@[n], cd as int);
                        let e = g.toll(now as int, price, from, s);
                        if n < j && held(prior, s, e) {
                            let i = choose|i: int|
                                0 <= i < prior.len() && (#[trigger] prior[i]).state() == s
                                    && prior[i].a == e;
                            assert(open@[i].state() == s && open@[i].a == e);
                        }
                        if n == j {
                            assert(s == child.state());
                            assert(e == child.a);
                        }
                    }
                    assert(weight(g.horizon - child.t) == unit);
                }
            } else {
                proof {
                    assert(!g.step(from, moved(node, v, cd as int)));
                }
            }
            j = j + 1;
        }
        proof {
            lemma_times(j as nat, unit);
            assert forall|s: TimePoint| g.step(from, s) implies held(
                arena@,
                s,
                g.toll(now as int, price, from, s),
            ) || held(open@, s, g.toll(now as int, price, from, s)) by {
                let v = place(s);
                terrain.lemma_neighbors(cell, v);
                let n = choose|n: int| 0 <= n < list@.len() && list@[n] == v;
                assert(s == moved(node, list@[n], cd as int));
            }
        }
    }
    proof {
        assert forall|s: TimePoint| g.stay(from, s) implies held(
            arena@,
            s,
            g.toll(now as int, price, from, s),
        ) || held(open@, s, g.toll(now as int, price, from, s)) by {
            let e = g.toll(now as int, price, from, s);
            if held(second, s, e) {
                let k = choose|k: int|
                    0 <= k < second.len() && (#[trigger] second[k]).state() == s && second[k].a
                        == e;
                assert(open@[k].state() == s && open@[k].a == e);
            }
        }
        assert forall|k: int, s: TimePoint|
            0 <= k < arena@.len() && #[trigger] g.legal(arena@[k].state(), s) implies held(
            arena@,
            s,
            g.toll(now as int, arena@[k].a as int, arena@[k].state(), s),
        ) || held(open@, s, g.toll(now as int, arena@[k].a as int, arena@[k].state(), s)) by {
            let e = g.toll(now as int, arena@[k].a as int, arena@[k].state(), s);
            if k < arena@.len() - 1 {
                if held(first, s, e) {
                    let i = choose|i: int|
                        0 <= i < first.len() && (#[trigger] first[i]).state() == s && first[i].a
                            == e;
                    assert(second[i] == first[i]);
                    assert(open@[i].state() == s && open@[i].a == e);
                }
            }
        }
    }
}

/// The state that a move from a node to the cell `v` leads to.
pub open spec fn moved(node: ANode, v: Point, cooldown: int) -> TimePoint {
    (v.0, v.1, (node.t + 1) as Time, (node.h + cooldown - MAX_HEAT) as Heat)
}

/// The `j`-th state of the way waits with the estimate that it has on the
/// way.
pub open spec fn met_on(g: Ground, waiting: Seq<ANode>, way: Seq<TimePoint>, j: int) -> bool {
    held(waiting, way[j], g.est(way, j as nat))
}

/// On every way from the start some state waits with its estimate on the
/// way, or the last state is in the arena with it.
proof fn lemma_frontier(
    g: Ground,
    now: int,
    start: TimePoint,
    arena: Seq<ANode>,
    waiting: Seq<ANode>,
    way: Seq<TimePoint>,
    i: int,
)
    requires
        arena_ok(g, start, now, arena),
        arena.len() > 0,
        closure(g, now, arena, waiting, arena.len() as int),
        g.chain(start, way),
        start.2 == now,
        0 <= i < way.len(),
    ensures
        (exists|j: int| 0 <= j <= i && #[trigger] met_on(g, waiting, way, j)) || held(
            arena,
            way[i],
            g.est(way, i as nat),
        ),
    decreases i,
{
    if i == 0 {
        assert(node_ok(g, start, now, arena, 0));
        assert(arena[0].state() == way[0] && arena[0].a == g.est(way, 0));
    } else {
        lemma_frontier(g, now, start, arena, waiting, way, i - 1);
        if exists|j: int| 0 <= j <= i - 1 && #[trigger] met_on(g, waiting, way, j) {
            let j = choose|j: int| 0 <= j <= i - 1 && #[trigger] met_on(g, waiting, way, j);
            assert(0 <= j <= i && met_on(g, waiting, way, j));
        } else {
            let before = g.est(way, (i - 1) as nat);
            let k = choose|k: int|
                0 <= k < arena.len() && (#[trigger] arena[k]).state() == way[i - 1] && arena[k].a
                    == before;
            assert(g.link(way, i - 1));
            assert(g.legal(arena[k].state(), way[i]));
            let e = g.toll(now, arena[k].a as int, arena[k].state(), way[i]);
            assert(e == g.est(way, i as nat));
            if held(waiting, way[i], e) {
                assert(met_on(g, waiting, way, i));
            }
        }
    }
}

/// No estimate on a way is greater than the greatest.
proof fn lemma_peak(g: Ground, way: Seq<TimePoint>, j: nat, k: nat)
    requires
        j <= k,
    ensures
        g.est(way, j) <= g.peak(way, k),
    decreases k,
{
    if j < k {
        lemma_peak(g, way, j, (k - 1) as nat);
    }
}

/// On a way from a cell that can be entered, every cell can be entered, the
/// turns go up by one, and no estimate is greater than the moves still to
/// make and the turns gone.
pub proof fn lemma_est_bound(g: Ground, start: TimePoint, way: Seq<TimePoint>, k: nat)
    requires
        g.chain(start, way),
        g.map.passable(place(start)),
        k < way.len(),
    ensures
        g.map.passable(place(way[k as int])),
        way[k as int].2 == start.2 + k,
        g.est(way, k) <= g.rest(way[k as int]) + k,
    decreases k,
{
    if k > 0 {
        lemma_est_bound(g, start, way, (k - 1) as nat);
        assert(g.link(way, k - 1));
    }
}

/// On a way from a cell that can be entered the estimates never fall, so the
/// greatest is the last.
pub proof fn lemma_est_grows(g: Ground, start: TimePoint, way: Seq<TimePoint>, k: nat)
    requires
        g.chain(start, way),
        g.map.passable(place(start)),
        k < way.len(),
    ensures
        g.peak(way, k) == g.est(way, k),
    decreases k,
{
    if k > 0 {
        lemma_est_grows(g, start, way, (k - 1) as nat);
        lemma_est_bound(g, start, way, (k - 1) as nat);
        lemma_est_bound(g, start, way, k);
        assert(g.link(way, k - 1));
        let u = way[k - 1];
        let v = way[k as int];
        if place(v) != place(u) {
            g.map.lemma_hops_step(g.goal, place(u), place(v));
        }
    }
}

/// Plans a route for a unit at `at`, at the turn `now`, towards `goal`: a
/// best-first search through the states that the unit can be in over the next
/// `SEARCH_DEPTH` turns. The search ends with the first state taken that lies
/// at the goal or at the last turn. Where no state is left to take, the route
/// leads to the state taken that is nearest to the goal.
pub fn a_star(
    terrain: &Terrain,
    reserved: &ReservationTable,
    enemies: &FnvHashSet<u16>,
    unmoved: &FnvHashSet<u16>,
    field: &Vec<Vec<i32>>,
    now: Time,
    at: Point,
    heat: i8,
    cooldown: i8,
    goal: Point,
) -> (route: Vec<TimePoint>)
    requires
        terrain.wf(),
        terrain.contains(at),
        terrain.contains(goal),
        terrain.is_field(goal, field@),
        0 <= now <= LAST_TURN,
        at != goal,
    ensures
        ground_of(
            *terrain,
            reserved@,
            enemies@,
            unmoved@,
            cooldown as int,
            goal,
            now as int,
        ).planned((at.0, at.1, now, heat as Heat), route@),
        forall|k: int|
            0 <= k < route@.len() ==> terrain.contains(place(#[trigger] route@[k])) && now
                <= route@[k].2 <= now + SEARCH_DEPTH,
{
    let ghost g = ground_of(
        *terrain,
        reserved@,
        enemies@,
        unmoved@,
        cooldown as int,
        goal,
        now as int,
    );
    let ghost start: TimePoint = (at.0, at.1, now, heat as Heat);
    let horizon: Time = now + SEARCH_DEPTH;
    let mut arena: Vec<ANode> = Vec::new();
    let mut open: Vec<ANode> = Vec::new();
    let first = ANode {
        a: field[at.1 as usize][at.0 as usize],
        x: at.0,
        y: at.1,
        t: now,
        h: heat as Heat,
        parent: 0,
    };
    open.push(first);
    let mut seen: FnvHashSet<u64> = FnvHashSet::default();
    proof {
        terrain.lemma_small();
    }
    proof {
        assert(field@[at.1 as int]@[at.0 as int] == g.rest(start));
    }
    set_insert(&mut seen, node_key((at.0, at.1, now, heat as Heat), first.a));
    proof {
        assert(wait_ok(g, start, now as int, arena@, open@, 0));
        assert forall|s: TimePoint, e: int|
            #[trigger] seen@.contains(node_key_of(s, e)) && bounded(g, now as int, s) && 0 <= e
                < 32768 implies held(arena@, s, e) || held(open@, s, e) by {
            assert(node_key_of(s, e) == node_key_of(start, first.a as int));
            lemma_node_key(s, e, start, first.a as int);
            assert(open@[0].state() == s && open@[0].a == e);
        }
    }
    loop
        invariant
            terrain.wf(),
            terrain.contains(at),
            terrain.contains(goal),
            terrain.is_field(goal, field@),
            0 <= now <= LAST_TURN,
            at != goal,
            horizon == now + SEARCH_DEPTH,
            start == (at.0, at.1, now, heat as Heat),
            g == ground_of(
                *terrain,
                reserved@,
                enemies@,
                unmoved@,
                cooldown as int,
                goal,
                now as int,
            ),
            arena_ok(g, start, now as int, arena@),
            open_ok(g, start, now as int, arena@, open@),
            closure(g, now as int, arena@, open@, arena@.len() as int),
            known(g, now as int, arena@, open@, seen@),
            arena@.len() == 0 ==> open@.len() == 1,
        ensures
            open@.len() == 0,
            arena@.len() > 0,
        decreases mass(open@, g.horizon),
    {
        if open.len() == 0 {
            break ;
        }
        let ghost waiting = open@;
        let ghost taken = arena@;
        let at_best = first_of(&open);
        let node = take(&mut open, at_best, Ghost(g.horizon));
        proof {
            assert(wait_ok(g, start, now as int, taken, waiting, at_best as int));
            lemma_mass_positive(open@, g.horizon);
        }
        if (node.x == goal.0 && node.y == goal.1) || node.t == horizon {
            let mut route: Vec<TimePoint> = Vec::new();
            route.push((node.x, node.y, node.t, node.h));
            extend_back(
                &arena,
                node.parent,
                &mut route,
                Ghost(g),
                Ghost(start),
                Ghost(now as int),
                Ghost(node.a as int),
            );
            proof {
                assert forall|way: Seq<TimePoint>| #[trigger]
                    g.chain(start, way) && g.ended(way.last()) implies g.est_back(route@, 0)
                    <= g.peak(way, (way.len() - 1) as nat) && exists|j: int|
                    0 <= j < way.len() && #[trigger] g.holds_off(way, j, route@) by {
                    let last = way.len() - 1;
                    lemma_frontier(g, now as int, start, taken, waiting, way, last);
                    if held(taken, way[last], g.est(way, last as nat)) {
                        let k = choose|k: int|
                            0 <= k < taken.len() && (#[trigger] taken[k]).state() == way[last]
                                && taken[k].a == g.est(way, last as nat);
                        assert(node_ok(g, start, now as int, taken, k));
                    }
                    let j = choose|j: int| 0 <= j <= last && #[trigger] met_on(g, waiting, way, j);
                    let m = choose|m: int|
                        0 <= m < waiting.len() && (#[trigger] waiting[m]).state() == way[j]
                            && waiting[m].a == g.est(way, j as nat);
                    assert(!waiting[m].precedes(waiting[at_best as int]));
                    lemma_peak(g, way, j as nat, last as nat);
                    assert(route@[0] == node.state());
                    assert(g.holds_off(way, j, route@));
                }
                assert forall|k: int| 0 <= k < route@.len() implies terrain.contains(
                    place(#[trigger] route@[k]),
                ) && now <= route@[k].2 <= now + SEARCH_DEPTH by {
                    if k >= 1 {
                        let n = choose|n: int|
                            0 <= n < arena@.len() && (#[trigger] arena@[n]).state() == route@[k];
                        assert(node_ok(g, start, now as int, arena@, n));
                    }
                }
            }
            return route;
        }
        let ghost lighter = open@;
        arena.push(node);
        proof {
            let p = taken.len() as int;
            assert forall|k: int| 0 <= k < arena@.len() implies #[trigger] node_ok(
                g,
                start,
                now as int,
                arena@,
                k,
            ) by {
                if k < p {
                    assert(node_ok(g, start, now as int, taken, k));
                }
            }
            assert forall|i: int| 0 <= i < open@.len() implies #[trigger] wait_ok(
                g,
                start,
                now as int,
                arena@,
                open@,
                i,
            ) by {
                let j = choose|j: int|
                    0 <= j < waiting.len() && j != at_best && #[trigger] open@[i] == waiting[j];
                assert(wait_ok(g, start, now as int, taken, waiting, j));
            }
            assert forall|s: TimePoint, e: int|
                held(taken, s, e) || held(waiting, s, e) implies held(arena@, s, e) || held(
                open@,
                s,
                e,
            ) by {
                if held(taken, s, e) {
                    lemma_held_push(taken, node, s, e);
                } else {
                    let i = choose|i: int|
                        0 <= i < waiting.len() && (#[trigger] waiting[i]).state() == s
                            && waiting[i].a == e;
                    if i == at_best {
                        lemma_held_push(taken, node, s, e);
                    } else {
                        let j = choose|j: int| 0 <= j < open@.len() && open@[j] == waiting[i];
                        assert(open@[j].state() == s && open@[j].a == e);
                    }
                }
            }
            assert forall|k: int, s: TimePoint|
                0 <= k < arena@.len() - 1 && #[trigger] g.legal(arena@[k].state(), s) implies held(
                arena@,
                s,
                g.toll(now as int, arena@[k].a as int, arena@[k].state(), s),
            ) || held(
                open@,
                s,
                g.toll(now as int, arena@[k].a as int, arena@[k].state(), s),
            ) by {
                assert(g.legal(taken[k].state(), s));
                let e = g.toll(now as int, taken[k].a as int, taken[k].state(), s);
                assert(held(taken, s, e) || held(waiting, s, e));
            }
            assert forall|s: TimePoint, e: int|
                #[trigger] seen@.contains(node_key_of(s, e)) && bounded(g, now as int, s) && 0
                    <= e < 32768 implies held(arena@, s, e) || held(open@, s, e) by {
                assert(held(taken, s, e) || held(waiting, s, e));
            }
        }
        expand(
            terrain,
            reserved,
            enemies,
            unmoved,
            field,
            goal,
            now,
            cooldown,
            &arena,
            &mut open,
            &mut seen,
            Ghost(g),
            Ghost(start),
        );
        proof {
            let d = g.horizon - node.t;
            assert(d >= 1);
            assert(weight(d) == 10 * weight(d - 1));
            lemma_weight_positive(d - 1);
            assert(arena@.last() == node);
            assert(mass(lighter, g.horizon) == mass(waiting, g.horizon) - weight(d));
            assert(mass(open@, g.horizon) <= mass(lighter, g.horizon) + 9 * weight(d - 1));
            lemma_mass_positive(open@, g.horizon);
        }
    }
    let best = nearest(&arena, field, Ghost(g), Ghost(start), Ghost(now as int));
    let mut route: Vec<TimePoint> = Vec::new();
    extend_back(
        &arena,
        best,
        &mut route,
        Ghost(g),
        Ghost(start),
        Ghost(now as int),
        Ghost(0int),
    );
    proof {
        assert(open@ =~= Seq::<ANode>::empty());
        assert(node_ok(g, start, now as int, arena@, best as int));
        assert forall|way: Seq<TimePoint>| #[trigger] g.chain(start, way) implies !g.ended(
            way.last(),
        ) && g.rest(route@[0]) <= g.rest(way.last()) by {
            lemma_exhausted(g, start, now as int, arena@, way);
            let k = choose|k: int| 0 <= k < arena@.len() && (#[trigger] arena@[k]).state() == way.last();
            assert(node_ok(g, start, now as int, arena@, k));
        }
        assert forall|k: int| 0 <= k < route@.len() implies terrain.contains(
            place(#[trigger] route@[k]),
        ) && now <= route@[k].2 <= now + SEARCH_DEPTH by {
            let n = choose|n: int| 0 <= n < arena@.len() && (#[trigger] arena@[n]).state() == route@[k];
            assert(node_ok(g, start, now as int, arena@, n));
        }
    }
    route
}

} // verus!
