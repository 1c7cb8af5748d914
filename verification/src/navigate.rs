use crate::grid::CACHE_LIMIT;
use crate::grid::cell_key;
use crate::grid::cell_key_of;
use crate::grid::Direction;
use crate::grid::direction_of;
use crate::grid::EXPIRE_TIME;
use crate::grid::Heat;
use crate::grid::ID;
use crate::grid::LAST_TURN;
use crate::grid::MAX_HEAT;
use crate::grid::near;
use crate::grid::on_map;
use crate::grid::Point;
use crate::grid::SEARCH_DEPTH;
use crate::grid::slot_key_of;
use crate::grid::Time;
use crate::grid::TimePoint;
use crate::grid::to_direction;
use crate::grid::UNREACHABLE;
use crate::reservation::ReservationTable;
use crate::search::a_star;
use crate::search::ground_of;
use crate::search::place;
use crate::tables::map_get_ref;
use crate::tables::map_insert;
use crate::tables::map_remove;
use crate::tables::set_insert;
use crate::tables::set_remove;
use crate::terrain::Terrain;
use fnv::FnvHashMap;
use fnv::FnvHashSet;
use vstd::prelude::*;

verus! {

broadcast use vstd::std_specs::hash::group_hash_axioms;

/// What planning needs to know of a unit: its number, its cell, the heat of
/// its movement and what a move adds to that heat.
#[derive(Clone, Copy, Debug)]
pub struct Unit {
    pub id: ID,
    pub at: Point,
    pub heat: i8,
    pub cooldown: i8,
}

/// What is kept for a unit on its way: the cell it was last sent to, the
/// turns for which the route is still kept, and the route, last state first.
#[derive(Debug)]
pub struct Target {
    pub goal: Point,
    pub expiration: Time,
    pub route: Vec<TimePoint>,
}

/// A `Target` as a mathematical value.
pub struct Plan {
    pub goal: Point,
    pub expiration: int,
    pub route: Seq<TimePoint>,
}

impl View for Target {
    type V = Plan;

    open spec fn view(&self) -> Plan {
        Plan { goal: self.goal, expiration: self.expiration as int, route: self.route@ }
    }
}

/// What a navigator holds, as a mathematical value.
#[verifier::ext_equal]
pub struct State {
    /// The turn.
    pub tick: int,
    /// The units on their way.
    pub plans: Map<ID, Plan>,
    /// The keys of the cells, each at a turn, that the routes pass.
    pub reserved: Set<u32>,
    /// The units on their way, in the order in which they were planned.
    pub order: Seq<ID>,
    /// The step of this turn for each unit that asked for one.
    pub moves: Map<ID, Option<Direction>>,
    /// The keys of the cells that hold an enemy.
    pub enemies: Set<u16>,
    /// The keys of the cells that hold a unit of ours without a route.
    pub unmoved: Set<u16>,
}

/// The key under which the cell and turn of a state are reserved.
pub open spec fn slot_of(s: TimePoint) -> int {
    slot_key_of((s.0, s.1), s.2 as int)
}

/// A route on the map: one state for each turn, last turn first, each state
/// in the cell of the one before it or in a neighbour of that cell that can
/// be entered.
pub open spec fn route_ok(map: Terrain, route: Seq<TimePoint>) -> bool {
    &&& route.len() > 0
    &&& forall|k: int|
        0 <= k < route.len() ==> map.contains(place(#[trigger] route[k])) && 0 <= route[k].2
            <= LAST_TURN + SEARCH_DEPTH
    &&& forall|k: int| 0 <= k < route.len() - 1 ==> #[trigger] paced(map, route, k)
}

/// The `k`-th state of a route is at the turn after the state that follows
/// it in the list, and the unit has waited in its cell or, with a heat under
/// `MAX_HEAT`, stepped to a neighbour that can be entered.
pub open spec fn paced(map: Terrain, route: Seq<TimePoint>, k: int) -> bool {
    &&& route[k].2 == route[k + 1].2 + 1
    &&& place(route[k]) == place(route[k + 1]) || (route[k + 1].3 < MAX_HEAT && map.edge(
        place(route[k + 1]),
        place(route[k]),
    ))
}

/// The route of unit `id` passes the cell and turn with key `slot`.
pub open spec fn claims(plans: Map<ID, Plan>, id: ID, slot: int) -> bool {
    plans.contains_key(id) && exists|k: int|
        0 <= k < plans[id].route.len() && slot_of(#[trigger] plans[id].route[k]) == slot
}

/// Some route passes the cell and turn with key `slot`.
pub open spec fn claimed(plans: Map<ID, Plan>, slot: int) -> bool {
    exists|id: ID| claims(plans, id, slot)
}

/// Those of `order` that are in `keep`, in their order.
pub open spec fn kept(order: Seq<ID>, keep: Set<ID>) -> Seq<ID>
    decreases order.len(),
{
    if order.len() == 0 {
        Seq::empty()
    } else if keep.contains(order.last()) {
        kept(order.drop_last(), keep).push(order.last())
    } else {
        kept(order.drop_last(), keep)
    }
}

/// Every unit but `id`.
pub open spec fn all_but(id: ID) -> Set<ID> {
    Set::new(|x: ID| x != id)
}

/// What is kept of a list is what the list and the set both hold; a list
/// without repetition stays so, and grows no longer.
pub proof fn lemma_kept(order: Seq<ID>, keep: Set<ID>)
    ensures
        forall|x: ID| #[trigger]
            kept(order, keep).contains(x) <==> order.contains(x) && keep.contains(x),
        order.no_duplicates() ==> kept(order, keep).no_duplicates(),
        kept(order, keep).len() <= order.len(),
    decreases order.len(),
{
    if order.len() > 0 {
        let front = order.drop_last();
        let last = order.last();
        lemma_kept(front, keep);
        let out = kept(order, keep);
        let rest = kept(front, keep);
        assert forall|x: ID| out.contains(x) <==> order.contains(x) && keep.contains(x) by {
            if out.contains(x) {
                let i = choose|i: int| 0 <= i < out.len() && out[i] == x;
                if keep.contains(last) && i == out.len() - 1 {
                    assert(order[order.len() - 1] == x);
                } else {
                    assert(rest[i] == x);
                    assert(rest.contains(x));
                    assert(front.contains(x));
                    let j = choose|j: int| 0 <= j < front.len() && front[j] == x;
                    assert(order[j] == x);
                }
            }
            if order.contains(x) && keep.contains(x) {
                let j = choose|j: int| 0 <= j < order.len() && order[j] == x;
                if j == order.len() - 1 {
                    assert(out[out.len() - 1] == x);
                } else {
                    assert(front[j] == x);
                    assert(front.contains(x));
                    assert(rest.contains(x));
                    let i = choose|i: int| 0 <= i < rest.len() && rest[i] == x;
                    assert(out[i] == x);
                }
            }
        }
        if order.no_duplicates() {
            assert(front.no_duplicates());
            if keep.contains(last) {
                assert forall|i: int, j: int|
                    0 <= i < out.len() && 0 <= j < out.len() && i != j implies out[i] != out[j] by {
                    if i == out.len() - 1 || j == out.len() - 1 {
                        let other = if i == out.len() - 1 {
                            j
                        } else {
                            i
                        };
                        assert(rest[other] == out[other]);
                        assert(rest.contains(out[other]));
                        assert(front.contains(out[other]));
                        let n = choose|n: int| 0 <= n < front.len() && front[n] == out[other];
                        assert(order[n] == out[other]);
                    }
                }
            }
        }
    }
}

/// Keeping what is in `a` and then what is in `b` keeps what is in both.
pub proof fn lemma_kept_twice(order: Seq<ID>, a: Set<ID>, b: Set<ID>)
    ensures
        kept(kept(order, a), b) == kept(order, a.intersect(b)),
    decreases order.len(),
{
    if order.len() > 0 {
        lemma_kept_twice(order.drop_last(), a, b);
        let rest = kept(order.drop_last(), a);
        if a.contains(order.last()) {
            assert(rest.push(order.last()).drop_last() =~= rest);
        }
    }
}

/// Keeping all of a list leaves it as it is.
pub proof fn lemma_kept_all(order: Seq<ID>, keep: Set<ID>)
    requires
        forall|x: ID| order.contains(x) ==> keep.contains(x),
    ensures
        kept(order, keep) == order,
    decreases order.len(),
{
    if order.len() > 0 {
        let front = order.drop_last();
        assert(order[order.len() - 1] == order.last());
        assert forall|x: ID| front.contains(x) implies keep.contains(x) by {
            let j = choose|j: int| 0 <= j < front.len() && front[j] == x;
            assert(order[j] == x);
        }
        lemma_kept_all(front, keep);
        assert(front.push(order.last()) =~= order);
    }
}

/// The state is one that a navigator on the map can be in: every route is a
/// route on the map, the reserved cells are those of the routes, no two
/// routes share a cell at one turn, and the units in order are those with a
/// plan, each once.
pub open spec fn state_ok(map: Terrain, s: State) -> bool {
    &&& 0 <= s.tick <= LAST_TURN
    &&& forall|id: ID| #[trigger]
        s.plans.contains_key(id) ==> route_ok(map, s.plans[id].route) && 1
            <= s.plans[id].expiration <= EXPIRE_TIME
    &&& forall|slot: u32| #[trigger] s.reserved.contains(slot) <==> claimed(s.plans, slot as int)
    &&& forall|id1: ID, id2: ID, slot: int|
        #![trigger claims(s.plans, id1, slot), claims(s.plans, id2, slot)]
        claims(s.plans, id1, slot) && claims(s.plans, id2, slot) ==> id1 == id2
    &&& s.order.no_duplicates()
    &&& forall|id: ID| #[trigger] s.plans.contains_key(id) <==> s.order.contains(id)
}

/// The keys of those of the cells that lie on the map.
pub open spec fn keys_on_map(w: int, h: int, cells: Seq<Point>) -> Set<u16> {
    Set::new(
        |key: u16|
            exists|i: int|
                0 <= i < cells.len() && on_map(w, h, #[trigger] cells[i]) && cell_key_of(cells[i])
                    == key,
    )
}

/// The keys of the cells and turns that the routes pass.
pub open spec fn slots_of(plans: Map<ID, Plan>) -> Set<u32> {
    Set::new(|slot: u32| claimed(plans, slot as int))
}

/// The plans after a turn: each a turn nearer to its end, those at their end
/// gone.
pub open spec fn aged(plans: Map<ID, Plan>) -> Map<ID, Plan> {
    Map::new(
        |id: ID| plans.contains_key(id) && plans[id].expiration != 1,
        |id: ID|
            Plan {
                goal: plans[id].goal,
                expiration: plans[id].expiration - 1,
                route: plans[id].route,
            },
    )
}

/// The keys of the cells on the map of those units that have no plan.
pub open spec fn idle_keys(w: int, h: int, friends: Seq<(ID, Point)>, plans: Map<ID, Plan>) -> Set<
    u16,
> {
    Set::new(
        |key: u16|
            exists|i: int|
                0 <= i < friends.len() && on_map(w, h, (#[trigger] friends[i]).1)
                    && !plans.contains_key(friends[i].0) && cell_key_of(friends[i].1) == key,
    )
}

/// The steps to hand to the host, in the order in which the units were
/// planned: for each unit on its way that asked for a step this turn and got
/// one.
pub open spec fn issued(order: Seq<ID>, moves: Map<ID, Option<Direction>>) -> Seq<(ID, Direction)>
    decreases order.len(),
{
    if order.len() == 0 {
        Seq::empty()
    } else {
        let rest = issued(order.drop_last(), moves);
        let id = order.last();
        if moves.contains_key(id) && moves[id] is Some {
            rest.push((id, moves[id]->0))
        } else {
            rest
        }
    }
}

/// The plans with those of the units in `seen` a turn nearer to their end,
/// and those of them at their end gone.
pub open spec fn partly_aged(plans: Map<ID, Plan>, seen: Set<ID>) -> Map<ID, Plan> {
    Map::new(
        |id: ID| plans.contains_key(id) && (seen.contains(id) ==> plans[id].expiration != 1),
        |id: ID|
            if seen.contains(id) {
                Plan {
                    goal: plans[id].goal,
                    expiration: plans[id].expiration - 1,
                    route: plans[id].route,
                }
            } else {
                plans[id]
            },
    )
}

/// The state that a unit is in at a turn.
pub open spec fn start_of(unit: Unit, tick: int) -> TimePoint {
    (unit.at.0, unit.at.1, tick as Time, unit.heat as Heat)
}

/// The place of a state in a route.
pub open spec fn position(route: Seq<TimePoint>, s: TimePoint) -> int {
    choose|k: int| 0 <= k < route.len() && route[k] == s
}

/// The step that leads from the state `s` of a route to the state after it:
/// none where the route ends with `s` or the unit waits.
pub open spec fn step_along(route: Seq<TimePoint>, s: TimePoint) -> Option<Direction> {
    let k = position(route, s);
    if k >= 1 {
        direction_of(route[k - 1].0 - s.0, route[k - 1].1 - s.1)
    } else {
        None
    }
}

/// What asking for a step of `unit` towards `goal` makes of the state
/// `before`.
///
/// A unit at its goal: nothing. A unit with a plan for this goal whose route
/// holds the state that the unit is in: the step along the route. Otherwise
/// the unit's plan is given up; if another route passes the unit's cell at
/// this turn, no more; else the unit gets a new plan, its route is reserved,
/// and the step is the first of the route.
pub open spec fn navigated(before: State, map: Terrain, unit: Unit, goal: Point, after: State) -> bool {
    let start = start_of(unit, before.tick);
    let base = before.without(unit.id);
    let cleared = base.unmoved.remove(cell_key_of(unit.at) as u16);
    if unit.at == goal {
        after == before
    } else if before.plans.contains_key(unit.id) && before.plans[unit.id].goal == goal
        && before.plans[unit.id].route.contains(start) {
        after == (State {
            moves: before.moves.insert(unit.id, step_along(before.plans[unit.id].route, start)),
            ..before
        })
    } else if base.reserved.contains(slot_of(start) as u32) {
        after == base
    } else {
        let route = after.plans[unit.id].route;
        let plans = base.plans.insert(
            unit.id,
            Plan { goal, expiration: EXPIRE_TIME as int, route },
        );
        &&& ground_of(
            map,
            base.reserved,
            base.enemies,
            cleared,
            unit.cooldown as int,
            goal,
            before.tick,
        ).planned(start, route)
        &&& after == (State {
            plans,
            reserved: slots_of(plans),
            order: base.order.push(unit.id),
            moves: before.moves.insert(unit.id, step_along(route, start)),
            unmoved: cleared,
            ..base
        })
    }
}

/// On a route every state is at a turn of its own, so a state has one place.
pub proof fn lemma_position(map: Terrain, route: Seq<TimePoint>, k: int)
    requires
        route_ok(map, route),
        0 <= k < route.len(),
    ensures
        position(route, route[k]) == k,
{
    let p = position(route, route[k]);
    lemma_turns(map, route, k);
    lemma_turns(map, route, p);
}

/// The `k`-th state of a route is at the turn `k` before the turn of the
/// first.
pub proof fn lemma_turns(map: Terrain, route: Seq<TimePoint>, k: int)
    requires
        route_ok(map, route),
        0 <= k < route.len(),
    ensures
        route[k].2 == route[0].2 - k,
    decreases k,
{
    if k > 0 {
        lemma_turns(map, route, k - 1);
        assert(paced(map, route, k - 1));
    }
}

/// The place of a state in a route, if it is on the route.
fn find(route: &Vec<TimePoint>, s: TimePoint) -> (found: Option<usize>)
    ensures
        match found {
            Some(k) => k < route@.len() && route@[k as int] == s,
            None => !route@.contains(s),
        },
{
    let mut k: usize = 0;
    while k < route.len()
        invariant
            k <= route@.len(),
            forall|j: int| 0 <= j < k ==> route@[j] != s,
        decreases route@.len() - k,
    {
        let r = route[k];
        if r.0 == s.0 && r.1 == s.1 && r.2 == s.2 && r.3 == s.3 {
            return Some(k);
        }
        k = k + 1;
    }
    None
}

impl State {
    /// The state without the plan of unit `id`.
    pub open spec fn without(self, id: ID) -> State {
        State {
            plans: self.plans.remove(id),
            reserved: slots_of(self.plans.remove(id)),
            order: kept(self.order, all_but(id)),
            ..self
        }
    }

    /// The state without the plans of the units in `ids`.
    pub open spec fn rejected(self, ids: Set<ID>) -> State {
        State {
            plans: self.plans.remove_keys(ids),
            reserved: slots_of(self.plans.remove_keys(ids)),
            order: kept(self.order, ids.complement()),
            ..self
        }
    }

    /// The state at the next turn, on a map of `w` columns and `h` rows, with
    /// enemies in the cells `enemies` and our units as `friends` says.
    pub open spec fn refreshed(
        self,
        w: int,
        h: int,
        enemies: Seq<Point>,
        friends: Seq<(ID, Point)>,
    ) -> State {
        State {
            tick: self.tick + 1,
            plans: aged(self.plans),
            reserved: slots_of(aged(self.plans)),
            order: kept(self.order, aged(self.plans).dom()),
            moves: Map::empty(),
            enemies: keys_on_map(w, h, enemies),
            unmoved: idle_keys(w, h, friends, aged(self.plans)),
        }
    }
}

/// Takes the cells and turns of a route out of the table of reserved cells.
fn release(reserved: &mut ReservationTable, route: &Vec<TimePoint>)
    requires
        forall|k: int|
            0 <= k < route@.len() ==> (#[trigger] route@[k]).0 >= 0 && route@[k].1 >= 0
                && route@[k].2 >= 0,
    ensures
        forall|slot: u32|
            final(reserved)@.contains(slot) <==> old(reserved)@.contains(slot) && forall|k: int|
                0 <= k < route@.len() ==> slot_of(#[trigger] route@[k]) != slot,
{
    let mut i: usize = 0;
    while i < route.len()
        invariant
            i <= route@.len(),
            forall|k: int|
                0 <= k < route@.len() ==> (#[trigger] route@[k]).0 >= 0 && route@[k].1 >= 0
                    && route@[k].2 >= 0,
            forall|slot: u32|
                reserved@.contains(slot) <==> old(reserved)@.contains(slot) && forall|k: int|
                    0 <= k < i ==> slot_of(#[trigger] route@[k]) != slot,
        decreases route@.len() - i,
    {
        let state = route[i];
        reserved.release((state.0, state.1), state.2);
        i = i + 1;
    }
}

/// Puts the cells and turns of a route into the table of reserved cells.
fn reserve(reserved: &mut ReservationTable, route: &Vec<TimePoint>)
    requires
        forall|k: int|
            0 <= k < route@.len() ==> (#[trigger] route@[k]).0 >= 0 && route@[k].1 >= 0
                && route@[k].2 >= 0,
    ensures
        forall|slot: u32|
            final(reserved)@.contains(slot) <==> old(reserved)@.contains(slot) || exists|k: int|
                0 <= k < route@.len() && slot_of(#[trigger] route@[k]) == slot,
{
    let mut i: usize = 0;
    while i < route.len()
        invariant
            i <= route@.len(),
            forall|k: int|
                0 <= k < route@.len() ==> (#[trigger] route@[k]).0 >= 0 && route@[k].1 >= 0
                    && route@[k].2 >= 0,
            forall|slot: u32|
                reserved@.contains(slot) <==> old(reserved)@.contains(slot) || exists|k: int|
                    0 <= k < i && slot_of(#[trigger] route@[k]) == slot,
        decreases route@.len() - i,
    {
        let state = route[i];
        reserved.reserve((state.0, state.1), state.2);
        i = i + 1;
    }
}

/// The list without `id`.
fn without(order: &Vec<ID>, id: ID) -> (out: Vec<ID>)
    ensures
        out@ == kept(order@, all_but(id)),
{
    let mut out: Vec<ID> = Vec::new();
    let mut i: usize = 0;
    while i < order.len()
        invariant
            i <= order@.len(),
            out@ == kept(order@.take(i as int), all_but(id)),
        decreases order@.len() - i,
    {
        assert(order@.take(i + 1).drop_last() =~= order@.take(i as int));
        if order[i] != id {
            out.push(order[i]);
        }
        i = i + 1;
    }
    assert(order@.take(i as int) =~= order@);
    out
}

/// A copy of the list.
fn copy_ids(order: &Vec<ID>) -> (out: Vec<ID>)
    ensures
        out@ == order@,
{
    let mut out: Vec<ID> = Vec::new();
    let mut i: usize = 0;
    while i < order.len()
        invariant
            i <= order@.len(),
            out@ == order@.take(i as int),
        decreases order@.len() - i,
    {
        out.push(order[i]);
        assert(order@.take(i + 1) =~= order@.take(i as int).push(order@[i as int]));
        i = i + 1;
    }
    assert(order@.take(i as int) =~= order@);
    out
}

/// Giving up a plan that was given up changes nothing.
pub proof fn lemma_without_twice(s: State, id: ID)
    ensures
        s.without(id).without(id) == s.without(id),
{
    let once = s.without(id);
    let twice = once.without(id);
    assert(once.plans.remove(id) =~= once.plans);
    lemma_kept_twice(s.order, all_but(id), all_but(id));
    assert(all_but(id).intersect(all_but(id)) =~= all_but(id));
    assert(twice =~= once);
}

/// Asking twice at one turn for a step of one unit towards one goal gives
/// the same step both times, and the second time nothing changes: no plan,
/// no reserved cell, no step.
pub proof fn lemma_navigate_twice(
    map: Terrain,
    unit: Unit,
    goal: Point,
    s0: State,
    s1: State,
    s2: State,
)
    requires
        navigated(s0, map, unit, goal, s1),
        navigated(s1, map, unit, goal, s2),
    ensures
        s2 == s1,
{
    let id = unit.id;
    let start = start_of(unit, s0.tick);
    let base = s0.without(id);
    if unit.at == goal {
    } else if s0.plans.contains_key(id) && s0.plans[id].goal == goal
        && s0.plans[id].route.contains(start) {
        assert(s1.moves.insert(id, step_along(s0.plans[id].route, start)) =~= s1.moves);
        assert(s2 =~= s1);
    } else if base.reserved.contains(slot_of(start) as u32) {
        lemma_without_twice(s0, id);
        assert(!s1.plans.contains_key(id));
    } else {
        let route = s1.plans[id].route;
        assert(s1.plans.contains_key(id));
        assert(route[route.len() - 1] == start);
        assert(route.contains(start));
        assert(s1.moves.insert(id, step_along(route, start)) =~= s1.moves);
        assert(s2 =~= s1);
    }
}

/// Whether asking for a step of `unit` towards `goal` plans the unit anew: it
/// is not at the goal, has no plan for it whose route holds the state that
/// the unit is in, and no route of another unit passes its cell at this turn.
pub open spec fn plans_anew(before: State, unit: Unit, goal: Point) -> bool {
    let start = start_of(unit, before.tick);
    &&& unit.at != goal
    &&& !(before.plans.contains_key(unit.id) && before.plans[unit.id].goal == goal
        && before.plans[unit.id].route.contains(start))
    &&& !before.without(unit.id).reserved.contains(slot_of(start) as u32)
}

/// The distance fields that a navigator keeps, so as to work each out once:
/// the keys of their goal cells, and how many were worked out since the last
/// were dropped. They change no answer, only the work that an answer takes.
pub struct Memo {
    pub goals: Set<u16>,
    pub count: int,
}

impl Memo {
    /// What is kept after the field of the cell with `key` was asked for:
    /// the same, where it was kept; else this field too, and where
    /// `CACHE_LIMIT` fields were worked out, this field alone.
    pub open spec fn asked(self, key: u16) -> Memo {
        if self.goals.contains(key) {
            self
        } else if self.count >= CACHE_LIMIT {
            Memo { goals: set![key], count: 1 }
        } else {
            Memo { goals: self.goals.insert(key), count: self.count + 1 }
        }
    }
}

/// What sending one unit makes of a state: what asking for a step towards
/// the cell makes of it, where there is a cell and it lies on the map as the
/// unit does; else nothing.
pub open spec fn follows(map: Terrain, before: State, unit: Unit, target: Option<Point>, after: State) -> bool {
    if target is Some && map.contains(unit.at) && map.contains(target->0) {
        navigated(before, map, unit, target->0, after)
    } else {
        after == before
    }
}

/// What sending the first `n` units, one after the other, each to its cell,
/// makes of the state `first`.
pub open spec fn sent(
    map: Terrain,
    first: State,
    units: Seq<Unit>,
    targets: Seq<Option<Point>>,
    n: nat,
    last: State,
) -> bool
    decreases n,
{
    if n == 0 {
        last == first
    } else {
        exists|mid: State|
            sent(map, first, units, targets, (n - 1) as nat, mid) && #[trigger] follows(
                map,
                mid,
                units[n - 1],
                targets[n - 1],
                last,
            )
    }
}

/// Plans movement for many units on one map: the least number of moves
/// between cells, and routes on which no two units are sent to one cell at
/// one turn.
pub struct Navigator {
    t: Time,
    terrain: Terrain,
    enemies: FnvHashSet<u16>,
    cache: FnvHashMap<u16, Vec<Vec<i32>>>,
    cached: usize,
    reserved: ReservationTable,
    records: FnvHashMap<ID, Target>,
    unmoved: FnvHashSet<u16>,
    moves: FnvHashMap<ID, Option<Direction>>,
    order: Vec<ID>,
}

/// The view is what decides the steps that are given out. The distance
/// fields that are kept beside it are told by `memo`.
impl View for Navigator {
    type V = State;

    closed spec fn view(&self) -> State {
        State {
            tick: self.t as int,
            plans: Map::new(|id: ID| self.records@.contains_key(id), |id: ID| self.records@[id]@),
            reserved: self.reserved@,
            order: self.order@,
            moves: self.moves@,
            enemies: self.enemies@,
            unmoved: self.unmoved@,
        }
    }
}

impl Navigator {
    /// The map.
    pub closed spec fn map(&self) -> Terrain {
        self.terrain
    }

    /// The fields that are kept are fields of the map.
    pub closed spec fn cache_ok(&self) -> bool {
        &&& self.cached <= CACHE_LIMIT
        &&& forall|goal: Point|
            self.terrain.contains(goal) && #[trigger] self.cache@.contains_key(
                cell_key_of(goal) as u16,
            ) ==> self.terrain.is_field(goal, self.cache@[cell_key_of(goal) as u16]@)
    }

    /// The navigator is in a state that it can be in.
    pub closed spec fn wf(&self) -> bool {
        &&& self.terrain.wf()
        &&& self.cache_ok()
        &&& state_ok(self.terrain, self@)
    }

    /// A navigator in order has a map in order and a state that it can be in.
    pub proof fn lemma_wf(&self)
        requires
            self.wf(),
        ensures
            self.map().wf(),
            state_ok(self.map(), self@),
    {
    }

    /// On every route each state is at the turn after the state before it, in
    /// the same cell or in a neighbour of it; and a unit that steps into a
    /// cell has a heat under `MAX_HEAT`, and the cell lies on the map and can
    /// be entered.
    pub proof fn lemma_route_steps(&self, id: ID, k: int)
        requires
            self.wf(),
            self@.plans.contains_key(id),
            0 <= k < self@.plans[id].route.len() - 1,
        ensures
            self@.plans[id].route[k].2 == self@.plans[id].route[k + 1].2 + 1,
            near(place(self@.plans[id].route[k + 1]), place(self@.plans[id].route[k])),
            place(self@.plans[id].route[k]) != place(self@.plans[id].route[k + 1])
                ==> self@.plans[id].route[k + 1].3 < MAX_HEAT && self.map().contains(
                place(self@.plans[id].route[k]),
            ) && self.map().passable(place(self@.plans[id].route[k])),
    {
        let route = self@.plans[id].route;
        assert(paced(self.terrain, route, k));
        self.terrain.lemma_passable_on_map(place(route[k]));
    }

    /// No two units have a cell at one turn on both their routes.
    pub proof fn lemma_reservations_exclusive(&self, id1: ID, id2: ID, k1: int, k2: int)
        requires
            self.wf(),
            self@.plans.contains_key(id1),
            self@.plans.contains_key(id2),
            id1 != id2,
            0 <= k1 < self@.plans[id1].route.len(),
            0 <= k2 < self@.plans[id2].route.len(),
        ensures
            place(self@.plans[id1].route[k1]) != place(self@.plans[id2].route[k2])
                || self@.plans[id1].route[k1].2 != self@.plans[id2].route[k2].2,
    {
        let a = self@.plans[id1].route[k1];
        let b = self@.plans[id2].route[k2];
        if place(a) == place(b) && a.2 == b.2 {
            assert(claims(self@.plans, id1, slot_of(a)));
            assert(slot_of(b) == slot_of(a));
            assert(claims(self@.plans, id2, slot_of(a)));
        }
    }

    /// A navigator for a map, from a grid that says row by row which cells
    /// can be entered. No unit is on its way yet.
    pub fn new(passable: &Vec<Vec<bool>>) -> (nav: Navigator)
        requires
            passable@.len() <= 127,
            forall|y: int| 0 <= y < passable@.len() ==> (#[trigger] passable@[y])@.len() <= 127,
            forall|y: int|
                0 <= y < passable@.len() ==> (#[trigger] passable@[y])@.len()
                    == passable@[0]@.len(),
        ensures
            nav.wf(),
            nav.map().wf(),
            nav@ == (State {
                tick: 0,
                plans: Map::empty(),
                reserved: Set::empty(),
                order: Seq::empty(),
                moves: Map::empty(),
                enemies: Set::empty(),
                unmoved: Set::empty(),
            }),
            nav.memo() == (Memo { goals: Set::empty(), count: 0 }),
            nav.map().height() == passable@.len(),
            nav.map().width() == (if passable@.len() == 0 {
                0
            } else {
                passable@[0]@.len() as int
            }),
            forall|p: Point|
                nav.map().passable(p) <==> nav.map().contains(p) && passable@[p.1 as int]@[p.0 as int],
    {
        let terrain = Terrain::build(passable);
        let nav = Navigator {
            t: 0,
            terrain,
            enemies: FnvHashSet::default(),
            cache: FnvHashMap::default(),
            cached: 0,
            reserved: ReservationTable::new(),
            records: FnvHashMap::default(),
            unmoved: FnvHashSet::default(),
            moves: FnvHashMap::default(),
            order: Vec::new(),
        };
        proof {
            assert(nav@.plans =~= Map::empty());
            assert forall|slot: u32| !claimed(nav@.plans, slot as int) by {}
            assert(nav.memo().goals =~= Set::empty());
        }
        nav
    }

    /// The number of moves that a unit at `start` needs to `end`, and
    /// `UNREACHABLE` where it cannot get there. The field of `end` is worked
    /// out at the first question for it and kept.
    pub fn moves_between(&mut self, start: Point, end: Point) -> (n: i32)
        requires
            old(self).wf(),
        ensures
            final(self).wf(),
            final(self)@ == old(self)@,
            final(self).map() == old(self).map(),
            final(self).memo() == (if old(self).map().contains(start) && old(self).map().contains(end) {
                old(self).memo().asked(cell_key_of(end) as u16)
            } else {
                old(self).memo()
            }),
            n == old(self).map().moves(start, end),
            0 <= n <= UNREACHABLE,
    {
        if !self.terrain.holds(start) || !self.terrain.holds(end) {
            proof {
                if self.terrain.reachable(end, start) {
                    let k = choose|k: nat| self.terrain.within(end, start, k);
                    self.terrain.lemma_within_on_map(end, start, k);
                    self.terrain.lemma_passable_on_map(start);
                }
            }
            return UNREACHABLE;
        }
        self.cache_bfs(end);
        let field = map_get_ref(&self.cache, cell_key(end)).unwrap();
        assert(self.terrain.is_field(end, field@));
        field[start.1 as usize][start.0 as usize]
    }

    /// The fields that are kept.
    pub closed spec fn memo(&self) -> Memo {
        Memo { goals: self.cache@.dom(), count: self.cached as int }
    }

    /// The field of `goal` is kept.
    pub open spec fn has_field(&self, goal: Point) -> bool {
        self.memo().goals.contains(cell_key_of(goal) as u16)
    }

    /// Works out the field of `goal` and keeps it, unless it is kept already.
    /// Where `CACHE_LIMIT` fields are kept, they are dropped first.
    fn cache_bfs(&mut self, goal: Point)
        requires
            old(self).wf(),
            old(self).map().contains(goal),
        ensures
            final(self).wf(),
            final(self)@ == old(self)@,
            final(self).map() == old(self).map(),
            final(self).memo() == old(self).memo().asked(cell_key_of(goal) as u16),
            final(self).has_field(goal),
    {
        let key = cell_key(goal);
        if map_get_ref(&self.cache, key).is_none() {
            let ghost first = *self;
            if self.cached >= CACHE_LIMIT {
                self.cache = FnvHashMap::default();
                self.cached = 0;
            }
            proof {
                assert(self@.plans =~= first@.plans);
            }
            let field = self.terrain.field(goal);
            let ghost before = *self;
            map_insert(&mut self.cache, key, field);
            self.cached = self.cached + 1;
            proof {
                assert forall|other: Point|
                    self.terrain.contains(other) && #[trigger] self.cache@.contains_key(
                        cell_key_of(other) as u16,
                    ) implies self.terrain.is_field(
                    other,
                    self.cache@[cell_key_of(other) as u16]@,
                ) by {
                    if cell_key_of(other) == cell_key_of(goal) {
                        assert(other == goal);
                    } else {
                        assert(before.cache@.contains_key(cell_key_of(other) as u16));
                    }
                }
                assert(self@.plans =~= before@.plans);
            }
        }
    }

    /// The cell lies on the map.
    pub fn contains(&self, cell: Point) -> (yes: bool)
        ensures
            yes == self.map().contains(cell),
    {
        self.terrain.holds(cell)
    }

    /// How many neighbours of the cell can be entered.
    pub fn neighbors(&self, start: Point) -> (n: usize)
        requires
            self.wf(),
            self.map().contains(start),
        ensures
            n == self.map().neighbors_of(start).len(),
    {
        self.terrain.neighbors(start).len()
    }

    /// Gives up the plan of unit `id`, if it has one: the route goes, and the
    /// cells and turns on it are free again.
    pub fn drop_plan(&mut self, id: ID)
        requires
            old(self).wf(),
        ensures
            final(self).wf(),
            final(self).map() == old(self).map(),
            final(self).memo() == old(self).memo(),
            final(self)@ == old(self)@.without(id),
    {
        let ghost before = *self;
        match map_remove(&mut self.records, id) {
            None => {
                proof {
                    assert(self@.plans =~= before@.plans.remove(id));
                    assert(self@.plans =~= before@.plans);
                    assert(!before.records@.contains_key(id));
                    assert(!before@.plans.contains_key(id));
                    assert forall|x: ID| before@.order.contains(x) implies all_but(id).contains(x) by {
                        assert(before@.plans.contains_key(x));
                    }
                    lemma_kept_all(before@.order, all_but(id));
                    assert(self@.order == before@.order);
                    assert(self@.tick == before@.tick);
                    assert(self@.moves == before@.moves);
                    assert(self@.enemies == before@.enemies);
                    assert(self@.unmoved == before@.unmoved);
                    assert forall|slot: u32|
                        self@.reserved.contains(slot) <==> slots_of(self@.plans).contains(slot) by {
                        assert(before@.reserved.contains(slot) <==> claimed(
                            before@.plans,
                            slot as int,
                        ));
                    }
                    assert(self@.reserved =~= slots_of(self@.plans));
                    assert(self@ =~= before@.without(id));
                }
            },
            Some(target) => {
                proof {
                    assert(before@.plans.contains_key(id));
                    assert(target@ == before@.plans[id]);
                    assert forall|k: int| 0 <= k < target.route@.len() implies (
                    #[trigger] target.route@[k]).0 >= 0 && target.route@[k].1 >= 0
                        && target.route@[k].2 >= 0 by {
                        assert(on_map(
                            self.terrain.width(),
                            self.terrain.height(),
                            place(target.route@[k]),
                        ));
                    }
                }
                release(&mut self.reserved, &target.route);
                self.order = without(&self.order, id);
                proof {
                    let plans = before@.plans;
                    let left = plans.remove(id);
                    assert(self@.plans =~= left);
                    lemma_kept(before@.order, all_but(id));
                    assert forall|slot: u32| #[trigger]
                        self@.reserved.contains(slot) <==> claimed(left, slot as int) by {
                        if self@.reserved.contains(slot) {
                            assert(self.reserved@.contains(slot));
                            assert(before.reserved@.contains(slot));
                            assert(before@.reserved.contains(slot));
                            assert(claimed(plans, slot as int));
                            let other = choose|other: ID| claims(plans, other, slot as int);
                            let k = choose|k: int|
                                0 <= k < plans[other].route.len() && slot_of(
                                    #[trigger] plans[other].route[k],
                                ) == slot;
                            if other == id {
                                assert(slot_of(target.route@[k]) == slot);
                                assert(false);
                            }
                            assert(left.contains_key(other));
                            assert(slot_of(left[other].route[k]) == slot);
                            assert(claims(left, other, slot as int));
                        }
                        if claimed(left, slot as int) {
                            let other = choose|other: ID| claims(left, other, slot as int);
                            let n = choose|n: int|
                                0 <= n < left[other].route.len() && slot_of(
                                    #[trigger] left[other].route[n],
                                ) == slot;
                            assert(slot_of(plans[other].route[n]) == slot);
                            assert(claims(plans, other, slot as int));
                            assert(claimed(plans, slot as int));
                            assert(before@.reserved.contains(slot));
                            assert(before.reserved@.contains(slot));
                            assert forall|k: int| 0 <= k < target.route@.len() implies slot_of(
                                #[trigger] target.route@[k],
                            ) != slot by {
                                if slot_of(target.route@[k]) == slot {
                                    assert(claims(plans, id, slot as int));
                                }
                            }
                        }
                    }
                    assert forall|id1: ID, id2: ID, slot: int|
                        #![trigger claims(left, id1, slot), claims(left, id2, slot)]
                        claims(left, id1, slot) && claims(left, id2, slot) implies id1 == id2 by {
                        let k1 = choose|k: int|
                            0 <= k < left[id1].route.len() && slot_of(#[trigger] left[id1].route[k])
                                == slot;
                        let k2 = choose|k: int|
                            0 <= k < left[id2].route.len() && slot_of(#[trigger] left[id2].route[k])
                                == slot;
                        assert(slot_of(plans[id1].route[k1]) == slot);
                        assert(slot_of(plans[id2].route[k2]) == slot);
                        assert(claims(plans, id1, slot) && claims(plans, id2, slot));
                    }
                    assert(self@.reserved =~= slots_of(left));
                    assert(self@ =~= before@.without(id));
                }
            },
        }
    }

    /// Brings the plan of unit `id`, which has more than one turn left, a
    /// turn nearer to its end.
    fn age(&mut self, id: ID)
        requires
            old(self).wf(),
            old(self)@.plans.contains_key(id),
            old(self)@.plans[id].expiration > 1,
        ensures
            final(self).wf(),
            final(self).map() == old(self).map(),
            final(self).memo() == old(self).memo(),
            final(self)@ == (State {
                plans: old(self)@.plans.insert(
                    id,
                    Plan {
                        goal: old(self)@.plans[id].goal,
                        expiration: old(self)@.plans[id].expiration - 1,
                        route: old(self)@.plans[id].route,
                    },
                ),
                ..old(self)@
            }),
    {
        let ghost before = *self;
        match map_remove(&mut self.records, id) {
            None => {},
            Some(target) => {
                let next = Target {
                    goal: target.goal,
                    expiration: target.expiration - 1,
                    route: target.route,
                };
                map_insert(&mut self.records, id, next);
                proof {
                    let plans = before@.plans;
                    let now = plans.insert(
                        id,
                        Plan {
                            goal: plans[id].goal,
                            expiration: plans[id].expiration - 1,
                            route: plans[id].route,
                        },
                    );
                    assert(self@.plans =~= now);
                    assert forall|x: ID, slot: int| claims(now, x, slot) <==> claims(
                        plans,
                        x,
                        slot,
                    ) by {
                        if claims(now, x, slot) {
                            let k = choose|k: int|
                                0 <= k < now[x].route.len() && slot_of(#[trigger] now[x].route[k])
                                    == slot;
                            assert(slot_of(plans[x].route[k]) == slot);
                        }
                        if claims(plans, x, slot) {
                            let k = choose|k: int|
                                0 <= k < plans[x].route.len() && slot_of(
                                    #[trigger] plans[x].route[k],
                                ) == slot;
                            assert(slot_of(now[x].route[k]) == slot);
                        }
                    }
                    assert forall|slot: u32| #[trigger]
                        self@.reserved.contains(slot) <==> claimed(now, slot as int) by {
                        if claimed(plans, slot as int) {
                            let x = choose|x: ID| claims(plans, x, slot as int);
                            assert(claims(now, x, slot as int));
                        }
                        if claimed(now, slot as int) {
                            let x = choose|x: ID| claims(now, x, slot as int);
                            assert(claims(plans, x, slot as int));
                        }
                    }
                }
            },
        }
    }

    /// The keys of those of the cells that lie on the map.
    fn keys(&self, cells: &Vec<Point>) -> (set: FnvHashSet<u16>)
        ensures
            set@ == keys_on_map(self.terrain.width(), self.terrain.height(), cells@),
    {
        let mut set: FnvHashSet<u16> = FnvHashSet::default();
        let mut i: usize = 0;
        while i < cells.len()
            invariant
                i <= cells@.len(),
                forall|key: u16|
                    set@.contains(key) <==> exists|j: int|
                        0 <= j < i && on_map(
                            self.terrain.width(),
                            self.terrain.height(),
                            #[trigger] cells@[j],
                        ) && cell_key_of(cells@[j]) == key,
            decreases cells@.len() - i,
        {
            let p = cells[i];
            if self.terrain.holds(p) {
                set_insert(&mut set, cell_key(p));
            }
            i = i + 1;
        }
        assert(set@ =~= keys_on_map(self.terrain.width(), self.terrain.height(), cells@));
        set
    }

    /// The keys of the cells on the map of those units that have no plan.
    fn idle(&self, friends: &Vec<(ID, Point)>) -> (set: FnvHashSet<u16>)
        ensures
            set@ == idle_keys(self.terrain.width(), self.terrain.height(), friends@, self@.plans),
    {
        let mut set: FnvHashSet<u16> = FnvHashSet::default();
        let mut i: usize = 0;
        while i < friends.len()
            invariant
                i <= friends@.len(),
                forall|key: u16|
                    set@.contains(key) <==> exists|j: int|
                        0 <= j < i && on_map(
                            self.terrain.width(),
                            self.terrain.height(),
                            (#[trigger] friends@[j]).1,
                        ) && !self@.plans.contains_key(friends@[j].0) && cell_key_of(friends@[j].1)
                            == key,
            decreases friends@.len() - i,
        {
            let (id, p) = friends[i];
            if map_get_ref(&self.records, id).is_none() && self.terrain.holds(p) {
                set_insert(&mut set, cell_key(p));
            }
            i = i + 1;
        }
        assert(set@ =~= idle_keys(
            self.terrain.width(),
            self.terrain.height(),
            friends@,
            self@.plans,
        ));
        set
    }

    /// Begins the next turn: the enemies are where `enemies` says, every plan
    /// is a turn nearer to its end and those at their end are given up, no
    /// step is asked for yet, and the units of `friends` without a plan stand
    /// in the way of the others.
    pub fn refresh(&mut self, enemies: &Vec<Point>, friends: &Vec<(ID, Point)>)
        requires
            old(self).wf(),
            old(self)@.tick < LAST_TURN,
        ensures
            final(self).wf(),
            final(self).map() == old(self).map(),
            final(self).memo() == old(self).memo(),
            final(self)@ == old(self)@.refreshed(
                old(self).map().width(),
                old(self).map().height(),
                enemies@,
                friends@,
            ),
    {
        let ghost before = *self;
        self.t = self.t + 1;
        self.enemies = self.keys(enemies);
        let ids = copy_ids(&self.order);
        let ghost mut seen: Set<ID> = Set::empty();
        let mut i: usize = 0;
        proof {
            assert(self@.plans =~= before@.plans);
            assert(self@.reserved == before@.reserved);
            assert(self@.order == before@.order);
            assert(state_ok(self.terrain, before@));
            assert(state_ok(self.terrain, self@));
            assert(self.cache_ok());
            assert(self@.plans =~= partly_aged(before@.plans, seen));
            assert(self@.plans.dom() =~= before@.plans.dom());
            assert forall|x: ID| before@.order.contains(x) implies before@.plans.dom().contains(
                x,
            ) by {
                assert(before@.plans.contains_key(x));
            }
            lemma_kept_all(before@.order, before@.plans.dom());
        }
        while i < ids.len()
            invariant
                i <= ids@.len(),
                ids@ == before@.order,
                before.wf(),
                self.wf(),
                self.map() == before.map(),
                self.memo() == before.memo(),
                forall|x: ID| seen.contains(x) <==> exists|j: int| 0 <= j < i && ids@[j] == x,
                self@.plans == partly_aged(before@.plans, seen),
                self@.order == kept(before@.order, partly_aged(before@.plans, seen).dom()),
                self@.tick == before@.tick + 1,
                self@.moves == before@.moves,
                self@.unmoved == before@.unmoved,
                self@.enemies == keys_on_map(
                    before.map().width(),
                    before.map().height(),
                    enemies@,
                ),
            decreases ids@.len() - i,
        {
            let id = ids[i];
            let ghost mid = *self;
            let ghost plans = before@.plans;
            proof {
                assert(before@.order.contains(id));
                assert(plans.contains_key(id));
                if seen.contains(id) {
                    let j = choose|j: int| 0 <= j < i && ids@[j] == id;
                    assert(ids@[j] == ids@[i as int]);
                }
                assert(mid@.plans.contains_key(id));
                assert(mid@.plans[id] == plans[id]);
            }
            let expiration = match map_get_ref(&self.records, id) {
                Some(target) => target.expiration,
                None => 0,
            };
            if expiration == 1 {
                self.drop_plan(id);
            } else if expiration > 1 {
                self.age(id);
            }
            proof {
                let grown = seen.insert(id);
                assert(self@.plans =~= partly_aged(plans, grown));
                if expiration == 1 {
                    lemma_kept_twice(before@.order, partly_aged(plans, seen).dom(), all_but(id));
                    assert(partly_aged(plans, seen).dom().intersect(all_but(id)) =~= partly_aged(
                        plans,
                        grown,
                    ).dom());
                } else {
                    assert(partly_aged(plans, seen).dom() =~= partly_aged(plans, grown).dom());
                }
                assert forall|x: ID| grown.contains(x) <==> exists|j: int|
                    0 <= j < i + 1 && ids@[j] == x by {
                    if grown.contains(x) {
                        if x == id {
                            assert(ids@[i as int] == x);
                        } else {
                            let j = choose|j: int| 0 <= j < i && ids@[j] == x;
                            assert(0 <= j < i + 1 && ids@[j] == x);
                        }
                    }
                    if exists|j: int| 0 <= j < i + 1 && ids@[j] == x {
                        let j = choose|j: int| 0 <= j < i + 1 && ids@[j] == x;
                        if j < i {
                            assert(seen.contains(x));
                        }
                    }
                }
                seen = grown;
            }
            i = i + 1;
        }
        proof {
            assert forall|x: ID| before@.plans.contains_key(x) implies seen.contains(x) by {
                assert(before@.order.contains(x));
                let j = choose|j: int| 0 <= j < ids@.len() && ids@[j] == x;
                assert(0 <= j < i && ids@[j] == x);
            }
            assert(partly_aged(before@.plans, seen) =~= aged(before@.plans));
        }
        let ghost settled = *self;
        self.moves = FnvHashMap::default();
        self.unmoved = self.idle(friends);
        proof {
            assert(self@.plans =~= settled@.plans);
            assert(self@.reserved == settled@.reserved);
            assert(self@.order == settled@.order);
            assert(state_ok(self.terrain, settled@));
            assert forall|slot: u32| self@.reserved.contains(slot) <==> slots_of(
                self@.plans,
            ).contains(slot) by {
                assert(settled@.reserved.contains(slot) <==> claimed(settled@.plans, slot as int));
            }
            assert(self@.reserved =~= slots_of(self@.plans));
            assert(state_ok(self.terrain, self@));
            assert(self.cache_ok());
            assert(self@ =~= before@.refreshed(
                before.map().width(),
                before.map().height(),
                enemies@,
                friends@,
            ));
        }
    }

    /// The steps to hand to the host, in the order in which the units were
    /// planned.
    pub fn orders(&self) -> (list: Vec<(ID, Direction)>)
        ensures
            list@ == issued(self@.order, self@.moves),
    {
        let mut list: Vec<(ID, Direction)> = Vec::new();
        let mut i: usize = 0;
        while i < self.order.len()
            invariant
                i <= self.order@.len(),
                list@ == issued(self.order@.take(i as int), self.moves@),
            decreases self.order@.len() - i,
        {
            assert(self.order@.take(i + 1).drop_last() =~= self.order@.take(i as int));
            let id = self.order[i];
            match map_get_ref(&self.moves, id) {
                Some(Some(direction)) => {
                    list.push((id, *direction));
                },
                _ => {},
            }
            i = i + 1;
        }
        assert(self.order@.take(i as int) =~= self.order@);
        list
    }

    /// Takes note of the steps that the host refused: the plans of the units
    /// in `failed` are given up, so that they are planned anew.
    pub fn execute(&mut self, failed: &Vec<ID>)
        requires
            old(self).wf(),
        ensures
            final(self).wf(),
            final(self).map() == old(self).map(),
            final(self).memo() == old(self).memo(),
            final(self)@ == old(self)@.rejected(failed@.to_set()),
    {
        let ghost before = *self;
        let mut i: usize = 0;
        proof {
            let none = failed@.take(0).to_set();
            assert(none =~= Set::<ID>::empty());
            assert(before@.plans.remove_keys(none) =~= before@.plans);
            assert forall|x: ID| before@.order.contains(x) implies none.complement().contains(
                x,
            ) by {}
            lemma_kept_all(before@.order, none.complement());
            assert(before@.reserved =~= slots_of(before@.plans));
            assert(self@ =~= before@.rejected(none));
        }
        while i < failed.len()
            invariant
                i <= failed@.len(),
                self.wf(),
                self.map() == before.map(),
                self.memo() == before.memo(),
                self@ == before@.rejected(failed@.take(i as int).to_set()),
            decreases failed@.len() - i,
        {
            let id = failed[i];
            let ghost gone = failed@.take(i as int).to_set();
            let ghost more = failed@.take(i + 1).to_set();
            self.drop_plan(id);
            proof {
                assert(failed@.take(i + 1) =~= failed@.take(i as int).push(id));
                assert forall|x: ID| more.contains(x) <==> gone.contains(x) || x == id by {
                    let short = failed@.take(i as int);
                    let long = failed@.take(i + 1);
                    if long.contains(x) {
                        let j = choose|j: int| 0 <= j < long.len() && long[j] == x;
                        if j < short.len() {
                            assert(short[j] == x);
                        }
                    }
                    if short.contains(x) {
                        let j = choose|j: int| 0 <= j < short.len() && short[j] == x;
                        assert(long[j] == x);
                    }
                    assert(long[long.len() - 1] == id);
                }
                assert(before@.plans.remove_keys(gone).remove(id) =~= before@.plans.remove_keys(
                    more,
                ));
                lemma_kept_twice(before@.order, gone.complement(), all_but(id));
                assert(gone.complement().intersect(all_but(id)) =~= more.complement());
                assert(self@ =~= before@.rejected(more));
            }
            i = i + 1;
        }
        assert(failed@.take(i as int) =~= failed@);
    }

    /// Asks for the step of this turn that brings `unit` nearer to `goal`. The
    /// step, if there is one, is kept for `orders`.
    ///
    /// A unit at its goal gets none. A unit with a plan for this goal, in a
    /// state of its route, gets the step along the route. Every other unit is
    /// planned anew: its old plan is given up and a route is searched, kept
    /// and reserved, unless another unit's route passes the unit's cell at
    /// this turn.
    pub fn navigate(&mut self, unit: &Unit, goal: Point)
        requires
            old(self).wf(),
            old(self).map().contains(unit.at),
            old(self).map().contains(goal),
        ensures
            final(self).wf(),
            final(self).map() == old(self).map(),
            final(self).memo() == (if plans_anew(old(self)@, *unit, goal) {
                old(self).memo().asked(cell_key_of(goal) as u16)
            } else {
                old(self).memo()
            }),
            navigated(old(self)@, old(self).map(), *unit, goal, final(self)@),
    {
        let ghost before = *self;
        let ghost w = self.terrain.width();
        let ghost h = self.terrain.height();
        if unit.at.0 == goal.0 && unit.at.1 == goal.1 {
            return ;
        }
        let start: TimePoint = (unit.at.0, unit.at.1, self.t, unit.heat as Heat);
        let mut cached: Option<Option<Direction>> = None;
        match map_get_ref(&self.records, unit.id) {
            Some(target) => {
                if target.goal.0 == goal.0 && target.goal.1 == goal.1 {
                    match find(&target.route, start) {
                        Some(k) => {
                            proof {
                                assert(before@.plans.contains_key(unit.id));
                                assert(route_ok(self.terrain, target.route@));
                                lemma_position(self.terrain, target.route@, k as int);
                                if k >= 1 {
                                    assert(on_map(w, h, place(target.route@[k - 1])));
                                }
                            }
                            if k >= 1 {
                                let next = target.route[k - 1];
                                cached = Some(to_direction(next.0 - start.0, next.1 - start.1));
                            } else {
                                cached = Some(None);
                            }
                        },
                        None => {},
                    }
                }
            },
            None => {},
        }
        match cached {
            Some(way) => {
                map_insert(&mut self.moves, unit.id, way);
                proof {
                    assert(self@.plans =~= before@.plans);
                    assert(self@ =~= (State {
                        moves: before@.moves.insert(
                            unit.id,
                            step_along(before@.plans[unit.id].route, start),
                        ),
                        ..before@
                    }));
                    assert(state_ok(self.terrain, before@));
                }
                return ;
            },
            None => {},
        }
        self.drop_plan(unit.id);
        let ghost base = *self;
        if self.reserved.is_reserved(unit.at, self.t) {
            return ;
        }
        self.cache_bfs(goal);
        set_remove(&mut self.unmoved, cell_key(unit.at));
        let field = map_get_ref(&self.cache, cell_key(goal)).unwrap();
        let route = a_star(
            &self.terrain,
            &self.reserved,
            &self.enemies,
            &self.unmoved,
            field,
            self.t,
            unit.at,
            unit.heat,
            unit.cooldown,
            goal,
        );
        let ghost g = ground_of(
            self.terrain,
            base@.reserved,
            base@.enemies,
            base@.unmoved.remove(cell_key_of(unit.at) as u16),
            unit.cooldown as int,
            goal,
            base@.tick,
        );
        let ghost path = route@;
        proof {
            assert(g.planned(start, path));
            assert forall|k: int| 0 <= k < path.len() - 1 implies #[trigger] paced(self.terrain, path, k) by {
                assert(g.hop(path, k));
            }
            assert(route_ok(self.terrain, path));
            lemma_position(self.terrain, path, path.len() - 1);
            if path.len() >= 2 {
                assert(on_map(w, h, place(path[path.len() - 2])));
            }
        }
        let last = route.len() - 1;
        let way = if last >= 1 {
            let next = route[last - 1];
            to_direction(next.0 - start.0, next.1 - start.1)
        } else {
            None
        };
        proof {
            assert forall|k: int| 0 <= k < route@.len() implies (#[trigger] route@[k]).0 >= 0
                && route@[k].1 >= 0 && route@[k].2 >= 0 by {
                assert(on_map(w, h, place(route@[k])));
            }
        }
        reserve(&mut self.reserved, &route);
        map_insert(
            &mut self.records,
            unit.id,
            Target { goal, expiration: EXPIRE_TIME, route },
        );
        self.order.push(unit.id);
        map_insert(&mut self.moves, unit.id, way);
        proof {
            let id = unit.id;
            let old_plans = base@.plans;
            let plans = old_plans.insert(
                id,
                Plan { goal, expiration: EXPIRE_TIME as int, route: path },
            );
            assert(self@.plans =~= plans);
            assert(!old_plans.contains_key(id));
            assert(state_ok(self.terrain, base@));
            assert forall|x: ID, slot: int| x != id implies (claims(plans, x, slot) <==> claims(
                old_plans,
                x,
                slot,
            )) by {
                if claims(plans, x, slot) {
                    let k = choose|k: int|
                        0 <= k < plans[x].route.len() && slot_of(#[trigger] plans[x].route[k])
                            == slot;
                    assert(slot_of(old_plans[x].route[k]) == slot);
                }
                if claims(old_plans, x, slot) {
                    let k = choose|k: int|
                        0 <= k < old_plans[x].route.len() && slot_of(
                            #[trigger] old_plans[x].route[k],
                        ) == slot;
                    assert(slot_of(plans[x].route[k]) == slot);
                }
            }
            assert forall|k: int| 0 <= k < path.len() implies !base@.reserved.contains(
                slot_of(#[trigger] path[k]) as u32,
            ) by {
                assert(on_map(w, h, place(path[k])));
                if k < path.len() - 1 {
                    assert(g.hop(path, k));
                    assert(g.free(place(path[k]), path[k].2 as int));
                }
            }
            assert forall|slot: u32| #[trigger]
                self@.reserved.contains(slot) <==> claimed(plans, slot as int) by {
                if self@.reserved.contains(slot) {
                    if base@.reserved.contains(slot) {
                        assert(claimed(old_plans, slot as int));
                        let x = choose|x: ID| claims(old_plans, x, slot as int);
                        assert(claims(plans, x, slot as int));
                    } else {
                        let k = choose|k: int|
                            0 <= k < route@.len() && slot_of(#[trigger] route@[k]) == slot;
                        assert(slot_of(plans[id].route[k]) == slot);
                        assert(claims(plans, id, slot as int));
                    }
                }
                if claimed(plans, slot as int) {
                    let x = choose|x: ID| claims(plans, x, slot as int);
                    if x == id {
                        let k = choose|k: int|
                            0 <= k < plans[id].route.len() && slot_of(
                                #[trigger] plans[id].route[k],
                            ) == slot;
                        assert(slot_of(route@[k]) == slot);
                    } else {
                        assert(claims(old_plans, x, slot as int));
                        assert(claimed(old_plans, slot as int));
                        assert(base@.reserved.contains(slot));
                    }
                }
            }
            assert forall|id1: ID, id2: ID, slot: int|
                #![trigger claims(plans, id1, slot), claims(plans, id2, slot)]
                claims(plans, id1, slot) && claims(plans, id2, slot) implies id1 == id2 by {
                if id1 != id2 {
                    let mine = if id1 == id {
                        id1
                    } else {
                        id2
                    };
                    let other = if id1 == id {
                        id2
                    } else {
                        id1
                    };
                    if mine == id {
                        let k = choose|k: int|
                            0 <= k < plans[id].route.len() && slot_of(
                                #[trigger] plans[id].route[k],
                            ) == slot;
                        assert(on_map(w, h, place(path[k])));
                        assert(claims(old_plans, other, slot));
                        assert(claimed(old_plans, slot));
                        let n = choose|n: int|
                            0 <= n < old_plans[other].route.len() && slot_of(
                                #[trigger] old_plans[other].route[n],
                            ) == slot;
                        assert(on_map(w, h, place(old_plans[other].route[n])));
                        assert(base@.reserved.contains(slot as u32));
                        assert(!base@.reserved.contains(slot_of(path[k]) as u32));
                    } else {
                        assert(claims(old_plans, id1, slot) && claims(old_plans, id2, slot));
                    }
                }
            }
            assert(self@.order =~= base@.order.push(id));
            assert(!base@.order.contains(id));
            assert forall|x: ID| #[trigger] plans.contains_key(x) <==> self@.order.contains(x) by {
                let order = self@.order;
                if plans.contains_key(x) {
                    if x == id {
                        assert(order[order.len() - 1] == x);
                    } else {
                        assert(base@.order.contains(x));
                        let j = choose|j: int| 0 <= j < base@.order.len() && base@.order[j] == x;
                        assert(order[j] == x);
                    }
                }
                if order.contains(x) {
                    let j = choose|j: int| 0 <= j < order.len() && order[j] == x;
                    if j < order.len() - 1 {
                        assert(base@.order[j] == x);
                        assert(base@.order.contains(x));
                    }
                }
            }
            assert(self@.order.no_duplicates()) by {
                let order = self@.order;
                assert forall|i: int, j: int|
                    0 <= i < order.len() && 0 <= j < order.len() && i != j implies order[i]
                    != order[j] by {
                    if i == order.len() - 1 {
                        assert(base@.order[j] == order[j]);
                        assert(base@.order.contains(order[j]));
                    } else if j == order.len() - 1 {
                        assert(base@.order[i] == order[i]);
                        assert(base@.order.contains(order[i]));
                    } else {
                        assert(base@.order[i] == order[i] && base@.order[j] == order[j]);
                    }
                }
            }
            assert(self@.reserved =~= slots_of(plans));
            assert(state_ok(self.terrain, self@));
            assert(self@.plans[id].route == path);
            assert(self@ =~= (State {
                plans,
                reserved: slots_of(plans),
                order: base@.order.push(id),
                moves: before@.moves.insert(id, step_along(path, start)),
                unmoved: base@.unmoved.remove(cell_key_of(unit.at) as u16),
                ..base@
            }));
        }
    }

    /// Asks for a step of each unit towards its cell, first unit first. A
    /// unit without a cell, or off the map, or with a cell off the map, is
    /// passed over.
    pub fn send(&mut self, units: &Vec<Unit>, targets: &Vec<Option<Point>>)
        requires
            old(self).wf(),
            units@.len() == targets@.len(),
        ensures
            final(self).wf(),
            final(self).map() == old(self).map(),
            sent(old(self).map(), old(self)@, units@, targets@, units@.len(), final(self)@),
    {
        let mut i: usize = 0;
        while i < units.len()
            invariant
                i <= units@.len(),
                units@.len() == targets@.len(),
                self.wf(),
                self.map() == old(self).map(),
                sent(old(self).map(), old(self)@, units@, targets@, i as nat, self@),
            decreases units@.len() - i,
        {
            let ghost mid = self@;
            let unit = units[i];
            match targets[i] {
                Some(goal) => {
                    if self.terrain.holds(unit.at) && self.terrain.holds(goal) {
                        self.navigate(&unit, goal);
                    }
                },
                None => {},
            }
            proof {
                let n = (i + 1) as nat;
                assert(sent(old(self).map(), old(self)@, units@, targets@, (n - 1) as nat, mid));
                assert(follows(old(self).map(), mid, units@[n - 1], targets@[n - 1], self@));
                assert(sent(old(self).map(), old(self)@, units@, targets@, n, self@));
            }
            i = i + 1;
        }
    }

    /// The cell and turn are on some unit's route.
    pub fn is_reserved(&self, cell: Point, tick: Time) -> (yes: bool)
        requires
            cell.0 >= 0,
            cell.1 >= 0,
            tick >= 0,
        ensures
            yes == self@.reserved.contains(slot_key_of(cell, tick as int) as u32),
    {
        self.reserved.is_reserved(cell, tick)
    }

    /// The turn.
    pub fn tick(&self) -> (t: Time)
        ensures
            t == self@.tick,
    {
        self.t
    }

    /// The route of a unit on its way, last state first.
    pub fn route(&self, id: ID) -> (found: Option<Vec<TimePoint>>)
        ensures
            match found {
                Some(route) => self@.plans.contains_key(id) && route@ == self@.plans[id].route,
                None => !self@.plans.contains_key(id),
            },
    {
        match map_get_ref(&self.records, id) {
            Some(target) => {
                let mut route: Vec<TimePoint> = Vec::new();
                let mut k: usize = 0;
                while k < target.route.len()
                    invariant
                        k <= target.route@.len(),
                        route@ == target.route@.take(k as int),
                    decreases target.route@.len() - k,
                {
                    route.push(target.route[k]);
                    assert(target.route@.take(k + 1) =~= target.route@.take(k as int).push(
                        target.route@[k as int],
                    ));
                    k = k + 1;
                }
                assert(target.route@.take(k as int) =~= target.route@);
                Some(route)
            },
            None => None,
        }
    }

    /// The step of this turn that was found for a unit: none where the unit
    /// did not ask, and no direction where it is to wait.
    pub fn step(&self, id: ID) -> (found: Option<Option<Direction>>)
        ensures
            found == (if self@.moves.contains_key(id) {
                Some(self@.moves[id])
            } else {
                None::<Option<Direction>>
            }),
    {
        match map_get_ref(&self.moves, id) {
            Some(way) => Some(*way),
            None => None,
        }
    }
}

} // verus!
