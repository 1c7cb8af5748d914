use crate::grid::ID;
use crate::grid::Point;
use crate::matching::choice;
use crate::matching::costs;
use crate::matching::first_stars;
use crate::matching::is_assignment;
use crate::matching::lemma_empty_assignment_cost;
use crate::matching::lemma_full_rows_cost;
use crate::matching::lemma_no_first_stars;
use crate::matching::pairs;
use crate::matching::rectangular;
use crate::matching::reduced;
use crate::matching::inverse;
use crate::matching::lemma_inverse;
use crate::matching::settles;
use crate::matching::solves;
use crate::matching::starred_at_once;
use crate::matching::total_cost;
use crate::matching::width;
use crate::navigate::Navigator;
use crate::navigate::sent;
use crate::navigate::State;
use crate::navigate::Unit;
use crate::solver::Solver;
use crate::tables::map_get_ref;
use crate::tables::map_insert;
use crate::tables::set_contains;
use crate::tables::set_insert;
use crate::terrain::Terrain;
use fnv::FnvHashMap;
use fnv::FnvHashSet;
use vstd::prelude::*;

verus! {

broadcast use vstd::std_specs::hash::group_hash_axioms;

/// What a cell with karbonite costs a worker besides the moves to it.
pub const HARVEST: i16 = 10;

/// What a cell beside a damaged structure costs a worker besides the moves.
pub const REPAIR: i16 = 5;

/// What a cell beside an unbuilt structure costs a worker besides the moves.
pub const BUILD: i16 = 0;

/// A structure, where it stands and how sound it is.
#[derive(Clone, Copy, Debug)]
pub struct Site {
    pub at: Point,
    pub health: u32,
    pub max_health: u32,
}

/// A cell that a worker can be sent to, with what it costs besides the moves
/// to it.
pub type Slot = (Point, i16);

/// `n` times the same slot.
pub open spec fn copies(slot: Slot, n: nat) -> Seq<Slot> {
    Seq::new(n, |i: int| slot)
}

/// How many workers can work at a structure: as many as its cell has
/// neighbours that can be entered, less `less`.
pub open spec fn approaches(map: Terrain, at: Point, less: nat) -> nat {
    if map.contains(at) && map.neighbors_of(at).len() >= less {
        (map.neighbors_of(at).len() - less) as nat
    } else {
        0
    }
}

/// One slot for each cell with karbonite.
pub open spec fn harvest_slots(cells: Seq<Point>) -> Seq<Slot> {
    Seq::new(cells.len(), |i: int| (cells[i], HARVEST))
}

/// For each unbuilt structure as many slots as workers can work at it.
pub open spec fn build_slots(map: Terrain, cells: Seq<Point>) -> Seq<Slot>
    decreases cells.len(),
{
    if cells.len() == 0 {
        Seq::empty()
    } else {
        build_slots(map, cells.drop_last()) + copies(
            (cells.last(), BUILD),
            approaches(map, cells.last(), 0),
        )
    }
}

/// For each damaged structure as many slots as workers can work at it, less
/// one.
pub open spec fn repair_slots(map: Terrain, sites: Seq<Site>) -> Seq<Slot>
    decreases sites.len(),
{
    if sites.len() == 0 {
        Seq::empty()
    } else if sites.last().health < sites.last().max_health {
        repair_slots(map, sites.drop_last()) + copies(
            (sites.last().at, REPAIR),
            approaches(map, sites.last().at, 1),
        )
    } else {
        repair_slots(map, sites.drop_last())
    }
}

/// The slots that workers are assigned to: the cells with karbonite, then the
/// unbuilt factories, the damaged factories and the unbuilt rockets.
pub open spec fn worker_slots(
    map: Terrain,
    karbonite: Seq<Point>,
    un_facts: Seq<Point>,
    fin_facts: Seq<Site>,
    un_rockets: Seq<Point>,
) -> Seq<Slot> {
    harvest_slots(karbonite) + build_slots(map, un_facts) + repair_slots(map, fin_facts)
        + build_slots(map, un_rockets)
}

/// What each slot costs each unit: the moves to it and what the slot costs
/// besides.
pub open spec fn slot_grid(map: Terrain, units: Seq<Unit>, slots: Seq<Slot>) -> Seq<Seq<int>> {
    Seq::new(
        units.len(),
        |r: int| Seq::new(slots.len(), |c: int| slots[c].1 + map.moves(units[r].at, slots[c].0)),
    )
}

/// For each of `n` units the cell of the slot that the assignment gives it.
pub open spec fn targets_of(a: Map<usize, usize>, slots: Seq<Slot>, n: nat) -> Seq<Option<Point>> {
    Seq::new(
        n,
        |r: int|
            if a.contains_key(r as usize) {
                Some(slots[a[r as usize] as int].0)
            } else {
                None
            },
    )
}

/// Adds `n` copies of a slot to the list.
fn add_copies(list: &mut Vec<Slot>, slot: Slot, n: usize)
    ensures
        final(list)@ == old(list)@ + copies(slot, n as nat),
{
    let mut i: usize = 0;
    while i < n
        invariant
            i <= n,
            list@ == old(list)@ + copies(slot, i as nat),
        decreases n - i,
    {
        list.push(slot);
        assert(list@ =~= old(list)@ + copies(slot, (i + 1) as nat));
        i = i + 1;
    }
    assert(list@ =~= old(list)@ + copies(slot, n as nat));
}

/// How many workers can work at a structure.
fn count_approaches(nav: &Navigator, at: Point, less: usize) -> (n: usize)
    requires
        nav.wf(),
    ensures
        n == approaches(nav.map(), at, less as nat),
{
    if nav.contains(at) {
        let around = nav.neighbors(at);
        if around >= less {
            around - less
        } else {
            0
        }
    } else {
        0
    }
}

/// Adds the slots of unbuilt structures to the list.
fn add_build_slots(nav: &Navigator, list: &mut Vec<Slot>, cells: &Vec<Point>)
    requires
        nav.wf(),
    ensures
        final(list)@ == old(list)@ + build_slots(nav.map(), cells@),
{
    let mut i: usize = 0;
    assert(list@ =~= old(list)@ + build_slots(nav.map(), cells@.take(0)));
    while i < cells.len()
        invariant
            i <= cells@.len(),
            nav.wf(),
            list@ == old(list)@ + build_slots(nav.map(), cells@.take(i as int)),
        decreases cells@.len() - i,
    {
        let n = count_approaches(nav, cells[i], 0);
        let ghost before = list@;
        add_copies(list, (cells[i], BUILD), n);
        proof {
            assert(cells@.take(i + 1).drop_last() =~= cells@.take(i as int));
            assert(list@ =~= old(list)@ + build_slots(nav.map(), cells@.take(i + 1)));
        }
        i = i + 1;
    }
    assert(cells@.take(i as int) =~= cells@);
}

/// Adds the slots of damaged structures to the list.
fn add_repair_slots(nav: &Navigator, list: &mut Vec<Slot>, sites: &Vec<Site>)
    requires
        nav.wf(),
    ensures
        final(list)@ == old(list)@ + repair_slots(nav.map(), sites@),
{
    let mut i: usize = 0;
    assert(list@ =~= old(list)@ + repair_slots(nav.map(), sites@.take(0)));
    while i < sites.len()
        invariant
            i <= sites@.len(),
            nav.wf(),
            list@ == old(list)@ + repair_slots(nav.map(), sites@.take(i as int)),
        decreases sites@.len() - i,
    {
        let site = sites[i];
        proof {
            assert(sites@.take(i + 1).drop_last() =~= sites@.take(i as int));
        }
        if site.health < site.max_health {
            let n = count_approaches(nav, site.at, 1);
            add_copies(list, (site.at, REPAIR), n);
            proof {
                assert(list@ =~= old(list)@ + repair_slots(nav.map(), sites@.take(i + 1)));
            }
        }
        i = i + 1;
    }
    assert(sites@.take(i as int) =~= sites@);
}

/// The slots that workers are assigned to.
pub fn slots_for_workers(
    nav: &Navigator,
    karbonite: &Vec<Point>,
    un_facts: &Vec<Point>,
    fin_facts: &Vec<Site>,
    un_rockets: &Vec<Point>,
) -> (slots: Vec<Slot>)
    requires
        nav.wf(),
    ensures
        slots@ == worker_slots(nav.map(), karbonite@, un_facts@, fin_facts@, un_rockets@),
{
    let mut slots: Vec<Slot> = Vec::new();
    let mut i: usize = 0;
    while i < karbonite.len()
        invariant
            i <= karbonite@.len(),
            slots@ == harvest_slots(karbonite@.take(i as int)),
        decreases karbonite@.len() - i,
    {
        slots.push((karbonite[i], HARVEST));
        assert(slots@ =~= harvest_slots(karbonite@.take(i + 1)));
        i = i + 1;
    }
    assert(karbonite@.take(i as int) =~= karbonite@);
    add_build_slots(nav, &mut slots, un_facts);
    add_repair_slots(nav, &mut slots, fin_facts);
    add_build_slots(nav, &mut slots, un_rockets);
    slots
}

/// What each slot costs each unit, as a matrix for `hungarian`.
pub fn cost_matrix(nav: &mut Navigator, units: &Vec<Unit>, slots: &Vec<Slot>) -> (matrix: Vec<
    Vec<i16>,
>)
    requires
        old(nav).wf(),
        forall|c: int| 0 <= c < slots@.len() ==> (#[trigger] slots@[c]).1 <= 16383,
    ensures
        final(nav).wf(),
        final(nav)@ == old(nav)@,
        final(nav).map() == old(nav).map(),
        costs(matrix@) == slot_grid(old(nav).map(), units@, slots@),
        rectangular(costs(matrix@)),
{
    let mut matrix: Vec<Vec<i16>> = Vec::new();
    let ghost map = nav.map();
    let mut r: usize = 0;
    while r < units.len()
        invariant
            r <= units@.len(),
            nav.wf(),
            nav@ == old(nav)@,
            nav.map() == map,
            map == old(nav).map(),
            forall|c: int| 0 <= c < slots@.len() ==> (#[trigger] slots@[c]).1 <= 16383,
            matrix@.len() == r,
            forall|i: int| 0 <= i < r ==> (#[trigger] matrix@[i])@.len() == slots@.len(),
            forall|i: int, c: int|
                0 <= i < r && 0 <= c < slots@.len() ==> (#[trigger] matrix@[i]@[c]) as int
                    == slots@[c].1 + map.moves(units@[i].at, slots@[c].0),
        decreases units@.len() - r,
    {
        let mut row: Vec<i16> = Vec::new();
        let mut c: usize = 0;
        while c < slots.len()
            invariant
                c <= slots@.len(),
                r < units@.len(),
                nav.wf(),
                nav@ == old(nav)@,
                nav.map() == map,
                forall|k: int| 0 <= k < slots@.len() ==> (#[trigger] slots@[k]).1 <= 16383,
                row@.len() == c,
                forall|k: int|
                    0 <= k < c ==> (#[trigger] row@[k]) as int == slots@[k].1 + map.moves(
                        units@[r as int].at,
                        slots@[k].0,
                    ),
            decreases slots@.len() - c,
        {
            let slot = slots[c];
            assert(slots@[c as int].1 <= 16383);
            let moves = nav.moves_between(units[r].at, slot.0);
            row.push(slot.1 + moves as i16);
            c = c + 1;
        }
        matrix.push(row);
        r = r + 1;
    }
    proof {
        assert(costs(matrix@) =~~= slot_grid(map, units@, slots@));
    }
    matrix
}

/// For each of `n` units the cell of the slot that the assignment gives it.
pub fn resolve(pairs: &FnvHashMap<usize, usize>, slots: &Vec<Slot>, n: usize) -> (targets: Vec<
    Option<Point>,
>)
    requires
        forall|r: usize| #[trigger] pairs@.contains_key(r) ==> pairs@[r] < slots@.len(),
    ensures
        targets@ == targets_of(pairs@, slots@, n as nat),
{
    let mut targets: Vec<Option<Point>> = Vec::new();
    let mut r: usize = 0;
    while r < n
        invariant
            r <= n,
            forall|k: usize| #[trigger] pairs@.contains_key(k) ==> pairs@[k] < slots@.len(),
            targets@ == targets_of(pairs@, slots@, r as nat),
        decreases n - r,
    {
        match map_get_ref(pairs, r) {
            Some(c) => {
                targets.push(Some(slots[*c].0));
            },
            None => {
                targets.push(None);
            },
        }
        assert(targets@ =~= targets_of(pairs@, slots@, (r + 1) as nat));
        r = r + 1;
    }
    targets
}

/// Sends workers to work: one slot for each cell with karbonite, and as many
/// for each unbuilt factory, damaged factory and unbuilt rocket as workers
/// can work at it. Each worker is given a slot so that moves and the costs of
/// the slots are least in all, and is asked to step towards the cell of its
/// slot, first worker first.
pub fn assign_workers(
    nav: &mut Navigator,
    workers: &Vec<Unit>,
    karbonite: &Vec<Point>,
    un_facts: &Vec<Point>,
    fin_facts: &Vec<Site>,
    un_rockets: &Vec<Point>,
)
    requires
        old(nav).wf(),
    ensures
        final(nav).wf(),
        final(nav).map() == old(nav).map(),
        allotted(
            old(nav).map(),
            old(nav)@,
            workers@,
            worker_slots(old(nav).map(), karbonite@, un_facts@, fin_facts@, un_rockets@),
            final(nav)@,
        ),
{
    let slots = slots_for_workers(nav, karbonite, un_facts, fin_facts, un_rockets);
    proof {
        lemma_slot_costs(nav.map(), karbonite@, un_facts@, fin_facts@, un_rockets@);
    }
    let matrix = cost_matrix(nav, workers, &slots);
    let ghost grid = costs(matrix@);
    let pairs = hungarian(matrix);
    proof {
        assert forall|r: usize| #[trigger] pairs@.contains_key(r) implies pairs@[r]
            < slots@.len() by {
            assert(width(grid) <= slots@.len()) by {
                if grid.len() > 0 {
                    assert(grid[0].len() == slots@.len());
                }
            }
        }
    }
    let targets = resolve(&pairs, &slots, workers.len());
    nav.send(workers, &targets);
    proof {
        assert(solves(slot_grid(old(nav).map(), workers@, slots@), pairs@));
    }
}

/// What allotting the slots to the units makes of the state `before`: the
/// units are given slots by an assignment that solves the grid of their
/// costs, and each is sent to the cell of its slot, first unit first.
pub open spec fn allotted(
    map: Terrain,
    before: State,
    units: Seq<Unit>,
    slots: Seq<Slot>,
    after: State,
) -> bool {
    exists|a: Map<usize, usize>| #[trigger]
        solves(slot_grid(map, units, slots), a) && sent(
            map,
            before,
            units,
            targets_of(a, slots, units.len()),
            units.len(),
            after,
        )
}

/// No slot costs more besides the moves than a cost can hold with them.
proof fn lemma_slot_costs(
    map: Terrain,
    karbonite: Seq<Point>,
    un_facts: Seq<Point>,
    fin_facts: Seq<Site>,
    un_rockets: Seq<Point>,
)
    ensures
        forall|c: int|
            0 <= c < worker_slots(map, karbonite, un_facts, fin_facts, un_rockets).len() ==> (
            #[trigger] worker_slots(map, karbonite, un_facts, fin_facts, un_rockets)[c]).1
                <= 16383,
{
    lemma_build_costs(map, un_facts);
    lemma_repair_costs(map, fin_facts);
    lemma_build_costs(map, un_rockets);
}

proof fn lemma_build_costs(map: Terrain, cells: Seq<Point>)
    ensures
        forall|c: int|
            0 <= c < build_slots(map, cells).len() ==> (#[trigger] build_slots(map, cells)[c]).1
                == BUILD,
    decreases cells.len(),
{
    if cells.len() > 0 {
        lemma_build_costs(map, cells.drop_last());
        let front = build_slots(map, cells.drop_last());
        let tail = copies((cells.last(), BUILD), approaches(map, cells.last(), 0));
        let all = build_slots(map, cells);
        assert(all == front + tail);
        assert forall|c: int| 0 <= c < all.len() implies (#[trigger] all[c]).1 == BUILD by {
            if c < front.len() {
                assert(all[c] == front[c]);
            } else {
                assert(all[c] == tail[c - front.len()]);
            }
        }
    }
}

proof fn lemma_repair_costs(map: Terrain, sites: Seq<Site>)
    ensures
        forall|c: int|
            0 <= c < repair_slots(map, sites).len() ==> (#[trigger] repair_slots(map, sites)[c]).1
                == REPAIR,
    decreases sites.len(),
{
    if sites.len() > 0 {
        lemma_repair_costs(map, sites.drop_last());
        let front = repair_slots(map, sites.drop_last());
        let all = repair_slots(map, sites);
        if sites.last().health < sites.last().max_health {
            let tail = copies((sites.last().at, REPAIR), approaches(map, sites.last().at, 1));
            assert(all == front + tail);
            assert forall|c: int| 0 <= c < all.len() implies (#[trigger] all[c]).1 == REPAIR by {
                if c < front.len() {
                    assert(all[c] == front[c]);
                } else {
                    assert(all[c] == tail[c - front.len()]);
                }
            }
        }
    }
}

/// The matrix read from its columns.
fn transposed(matrix: &Vec<Vec<i16>>, cols: usize) -> (turned: Vec<Vec<i16>>)
    requires
        forall|r: int| 0 <= r < matrix@.len() ==> (#[trigger] matrix@[r])@.len() == cols,
    ensures
        turned@.len() == cols,
        forall|c: int| 0 <= c < cols ==> (#[trigger] turned@[c])@.len() == matrix@.len(),
        forall|r: int, c: int|
            0 <= r < matrix@.len() && 0 <= c < cols ==> #[trigger] turned@[c]@[r]
                == matrix@[r]@[c],
{
    let rows = matrix.len();
    let mut turned: Vec<Vec<i16>> = Vec::new();
    let mut c: usize = 0;
    while c < cols
        invariant
            c <= cols,
            rows == matrix@.len(),
            forall|r: int| 0 <= r < matrix@.len() ==> (#[trigger] matrix@[r])@.len() == cols,
            turned@.len() == c,
            forall|j: int| 0 <= j < c ==> (#[trigger] turned@[j])@.len() == rows,
            forall|r: int, j: int|
                0 <= r < rows && 0 <= j < c ==> #[trigger] turned@[j]@[r] == matrix@[r]@[j],
        decreases cols - c,
    {
        let mut column: Vec<i16> = Vec::new();
        let mut r: usize = 0;
        while r < rows
            invariant
                r <= rows,
                c < cols,
                rows == matrix@.len(),
                forall|i: int| 0 <= i < matrix@.len() ==> (#[trigger] matrix@[i])@.len() == cols,
                column@.len() == r,
                forall|i: int| 0 <= i < r ==> #[trigger] column@[i] == matrix@[i]@[c as int],
            decreases rows - r,
        {
            assert(matrix@[r as int]@.len() == cols);
            column.push(matrix[r][c]);
            r = r + 1;
        }
        turned.push(column);
        c = c + 1;
    }
    turned
}

/// The assignment read from the columns.
fn inverted(pairs: &FnvHashMap<usize, usize>, rows: usize, Ghost(cols): Ghost<nat>) -> (back:
    FnvHashMap<usize, usize>)
    requires
        is_assignment(pairs@, rows as nat, cols),
    ensures
        back@ == inverse(pairs@),
{
    let mut back: FnvHashMap<usize, usize> = FnvHashMap::default();
    let mut r: usize = 0;
    while r < rows
        invariant
            r <= rows,
            is_assignment(pairs@, rows as nat, cols),
            forall|c: usize| #[trigger]
                back@.contains_key(c) ==> pairs@.contains_key(back@[c]) && pairs@[back@[c]] == c
                    && back@[c] < r,
            forall|k: usize| #[trigger]
                pairs@.contains_key(k) && k < r ==> back@.contains_key(pairs@[k]),
        decreases rows - r,
    {
        match map_get_ref(pairs, r) {
            Some(c) => {
                map_insert(&mut back, *c, r);
            },
            None => {},
        }
        r = r + 1;
    }
    proof {
        let want = inverse(pairs@);
        assert forall|c: usize| back@.contains_key(c) <==> want.contains_key(c) by {
            if want.contains_key(c) {
                let k = choose|k: usize| pairs@.dom().contains(k) && pairs@[k] == c;
                assert(pairs@.contains_key(k));
            }
            if back@.contains_key(c) {
                assert(pairs@.contains_key(back@[c]));
                assert(pairs@.values().contains(c));
            }
        }
        assert forall|c: usize| back@.contains_key(c) implies #[trigger] back@[c] == want[c] by {
            let k = choose|k: usize| pairs@.contains_key(k) && pairs@[k] == c;
            assert(pairs@.contains_key(back@[c]) && pairs@[back@[c]] == c);
            assert(pairs@.contains_key(k) && pairs@[k] == c);
        }
        assert(back@ =~= want);
    }
    back
}

/// Solves the assignment problem for a matrix of costs: pairs rows with
/// columns, as many pairs as the smaller side of the matrix has, no row and
/// no column twice, so that the pairs cost the least that so many pairs can
/// cost. A matrix without rows or without columns gives no pair. A matrix
/// with more rows than columns is solved from its columns.
///
/// With no more rows than columns: where the zeros that are starred at
/// first, one in each row that has one in a column not taken by a row above,
/// are as many as the pairs, they are the pairs, and nothing is taken from
/// the matrix but the least entry of each row.
pub fn hungarian(matrix: Vec<Vec<i16>>) -> (result: FnvHashMap<usize, usize>)
    requires
        rectangular(costs(matrix@)),
    ensures
        solves(costs(matrix@), result@),
        matrix@.len() <= width(costs(matrix@)) && starred_at_once(costs(matrix@)) ==> choice(
            result@,
            matrix@.len(),
        ) == first_stars(reduced(costs(matrix@)), matrix@.len()),
{
    let rows = matrix.len();
    if rows == 0 || matrix[0].len() == 0 || rows <= matrix[0].len() {
        return munkres(matrix);
    }
    let cols = matrix[0].len();
    let ghost grid = costs(matrix@);
    proof {
        assert forall|r: int| 0 <= r < rows implies (#[trigger] matrix@[r])@.len() == cols by {
            assert(grid[r].len() == grid[0].len());
        }
    }
    let turned = transposed(&matrix, cols);
    let ghost gt = costs(turned@);
    proof {
        assert(gt[0].len() == rows);
        assert(rectangular(gt));
    }
    let flipped = munkres(turned);
    let result = inverted(&flipped, cols, Ghost(rows as nat));
    proof {
        assert(width(gt) == rows);
        assert(width(grid) == cols);
        assert forall|i: int, j: int| 0 <= i < cols && 0 <= j < rows implies #[trigger] grid[j][i]
            == gt[i][j] by {}
        lemma_inverse(gt, grid, flipped@, cols as nat, rows as nat);
        assert forall|other: Map<usize, usize>|
            #[trigger] is_assignment(other, rows as nat, cols as nat) && other.dom().len()
                == result@.dom().len() implies total_cost(grid, result@) <= total_cost(
            grid,
            other,
        ) by {
            assert forall|i: int, j: int|
                0 <= i < rows && 0 <= j < cols implies #[trigger] gt[j][i] == grid[i][j] by {}
            lemma_inverse(grid, gt, other, rows as nat, cols as nat);
            assert(is_assignment(inverse(other), cols as nat, rows as nat));
        }
    }
    result
}

/// Solves the assignment problem for a matrix with no more rows than
/// columns, by the method of Kuhn and Munkres; of a matrix with more rows it
/// gives an assignment of the size of its columns.
fn munkres(matrix: Vec<Vec<i16>>) -> (result: FnvHashMap<usize, usize>)
    requires
        rectangular(costs(matrix@)),
    ensures
        settles(costs(matrix@), result@),
        starred_at_once(costs(matrix@)) ==> choice(result@, matrix@.len()) == first_stars(
            reduced(costs(matrix@)),
            matrix@.len(),
        ),
{
    let rows = matrix.len();
    let ghost grid = costs(matrix@);
    if rows == 0 || matrix[0].len() == 0 {
        let result: FnvHashMap<usize, usize> = FnvHashMap::default();
        proof {
            assert(result@.dom() =~= Set::<usize>::empty());
            assert forall|other: Map<usize, usize>|
                #[trigger] is_assignment(other, rows as nat, width(grid)) && other.dom().len()
                    == result@.dom().len() implies total_cost(reduced(grid), result@)
                <= total_cost(reduced(grid), other) && total_cost(grid, result@) <= total_cost(
                grid,
                other,
            ) by {
                lemma_empty_assignment_cost(reduced(grid), result@, rows as nat);
                lemma_empty_assignment_cost(reduced(grid), other, rows as nat);
                lemma_empty_assignment_cost(grid, result@, rows as nat);
                lemma_empty_assignment_cost(grid, other, rows as nat);
            }
            if rows > 0 {
                assert forall|r: int| 0 <= r < rows implies (#[trigger] reduced(grid)[r]).len()
                    == 0 by {
                    assert(grid[r].len() == grid[0].len());
                }
                lemma_no_first_stars(reduced(grid), rows as nat);
            }
            assert(choice(result@, rows as nat) =~= first_stars(reduced(grid), rows as nat));
        }
        return result;
    }
    let cols = matrix[0].len();
    let target = if rows < cols {
        rows
    } else {
        cols
    };
    let mut solver = Solver::new(&matrix);
    solver.star_zeros();
    let mut verify = true;
    let ghost mut open = false;
    let ghost mut untried = true;
    proof {
        solver.lemma_fresh_uncovered();
    }
    loop
        invariant
            rows == matrix@.len(),
            cols == width(costs(matrix@)),
            grid == costs(matrix@),
            rectangular(grid),
            rows > 0,
            cols > 0,
            target == pairs(rows as nat, cols as nat),
            solver.sound(),
            solver.slack_ok(-1),
            solver.rows() == rows,
            solver.cols() == cols,
            solver.grid() == reduced(grid),
            solver.stars() <= target,
            verify ==> solver.fresh() && !open,
            !verify ==> solver.covers_ok() && solver.stars() < target,
            open ==> exists|r: int, c: int| solver.is_open_zero(r, c),
            solver.covered_rows() <= rows,
            untried ==> verify && solver.star_columns() == first_stars(reduced(grid), rows as nat),
            !untried ==> !starred_at_once(grid),
        decreases target - solver.stars(), rows - solver.covered_rows(), (if open {
            0int
        } else {
            1int
        }),
    {
        if verify {
            proof {
                solver.lemma_fresh_uncovered();
            }
            solver.cover_starred_columns();
            if solver.count_covered_columns() == target {
                let result = solver.starred();
                proof {
                    solver.lemma_stars_assign(result@);
                    assert(reduced(grid).len() == rows);
                    assert forall|other: Map<usize, usize>|
                        #[trigger] is_assignment(other, rows as nat, cols as nat)
                            && other.dom().len() == result@.dom().len() implies total_cost(
                        reduced(grid),
                        result@,
                    ) <= total_cost(reduced(grid), other) && (rows <= cols ==> total_cost(
                        grid,
                        result@,
                    ) <= total_cost(grid, other)) by {
                        solver.lemma_stars_optimal(result@, other);
                        if rows <= cols {
                            assert forall|r: int| 0 <= r < rows implies (#[trigger] grid[r]).len()
                                == cols by {
                                assert(grid[r].len() == grid[0].len());
                            }
                            lemma_full_rows_cost(grid, result@, rows as nat, cols as nat);
                            lemma_full_rows_cost(grid, other, rows as nat, cols as nat);
                        }
                    }
                }
                return result;
            }
            proof {
                solver.lemma_star_count();
            }
        }
        proof {
            untried = false;
        }
        match solver.find_uncovered_zero() {
            None => {
                solver.adjust();
                verify = false;
                proof {
                    open = true;
                }
            },
            Some((row, col)) => {
                match solver.find_star_in_row(row) {
                    Some(adj) => {
                        solver.prime_and_cover(row, col, adj);
                        verify = false;
                    },
                    None => {
                        solver.augment(row, col);
                        verify = true;
                    },
                }
                proof {
                    open = false;
                    solver.lemma_covered_bound();
                }
            },
        }
    }
}

/// A finished rocket: where it stands, how many units it holds and can hold,
/// and whether a worker is among those it holds.
#[derive(Clone, Copy, Debug)]
pub struct Rocket {
    pub id: ID,
    pub at: Point,
    pub capacity: usize,
    pub garrison: usize,
    pub has_worker: bool,
}

/// The `w`-th unit is the nearest to the cell among the units that are not
/// taken, and the first of those as near.
pub open spec fn is_nearest(map: Terrain, units: Seq<Unit>, taken: Set<ID>, at: Point, w: int) -> bool {
    &&& 0 <= w < units.len()
    &&& !taken.contains(units[w].id)
    &&& forall|k: int|
        0 <= k < units.len() && !taken.contains((#[trigger] units[k]).id) ==> map.moves(
            units[w].at,
            at,
        ) <= map.moves(units[k].at, at)
    &&& forall|k: int|
        0 <= k < w && !taken.contains((#[trigger] units[k]).id) ==> map.moves(units[w].at, at)
            < map.moves(units[k].at, at)
}

/// Some unit is not taken.
pub open spec fn any_free(units: Seq<Unit>, taken: Set<ID>) -> bool {
    exists|k: int| 0 <= k < units.len() && !taken.contains((#[trigger] units[k]).id)
}

/// The place of the nearest unit that is not taken.
pub open spec fn nearest_of(map: Terrain, units: Seq<Unit>, taken: Set<ID>, at: Point) -> int {
    choose|w: int| is_nearest(map, units, taken, at, w)
}

/// Only one unit is the nearest.
pub proof fn lemma_nearest(map: Terrain, units: Seq<Unit>, taken: Set<ID>, at: Point, w: int)
    requires
        is_nearest(map, units, taken, at, w),
    ensures
        nearest_of(map, units, taken, at) == w,
{
    let v = nearest_of(map, units, taken, at);
    if v < w {
        assert(!taken.contains(units[v].id));
    } else if w < v {
        assert(!taken.contains(units[w].id));
    }
}

/// The nearest to the cell of the units that are not taken, if there is one.
pub fn nearest_free(
    nav: &mut Navigator,
    units: &Vec<Unit>,
    taken: &FnvHashSet<ID>,
    at: Point,
) -> (found: Option<usize>)
    requires
        old(nav).wf(),
    ensures
        final(nav).wf(),
        final(nav)@ == old(nav)@,
        final(nav).map() == old(nav).map(),
        match found {
            Some(w) => is_nearest(old(nav).map(), units@, taken@, at, w as int),
            None => !any_free(units@, taken@),
        },
{
    let ghost map = nav.map();
    let mut found: Option<usize> = None;
    let mut least: i32 = 0;
    let mut k: usize = 0;
    while k < units.len()
        invariant
            k <= units@.len(),
            nav.wf(),
            nav@ == old(nav)@,
            nav.map() == map,
            map == old(nav).map(),
            match found {
                Some(w) => is_nearest(map, units@.take(k as int), taken@, at, w as int) && least
                    == map.moves(units@[w as int].at, at),
                None => !any_free(units@.take(k as int), taken@),
            },
        decreases units@.len() - k,
    {
        let ghost short = units@.take(k as int);
        let ghost long = units@.take(k + 1);
        let unit = units[k];
        let mut better = false;
        let mut moves: i32 = 0;
        if !set_contains(taken, unit.id) {
            moves = nav.moves_between(unit.at, at);
            better = match found {
                Some(_) => moves < least,
                None => true,
            };
        }
        proof {
            assert forall|j: int| 0 <= j < k implies long[j] == short[j] by {}
            assert(long[k as int] == unit);
            match found {
                Some(w) => {
                    if better {
                        assert forall|j: int|
                            0 <= j < long.len() && !taken@.contains(
                                (#[trigger] long[j]).id,
                            ) implies map.moves(long[k as int].at, at) <= map.moves(
                            long[j].at,
                            at,
                        ) by {
                            if j < k {
                                assert(!taken@.contains(short[j].id));
                            }
                        }
                        assert forall|j: int|
                            0 <= j < k && !taken@.contains((#[trigger] long[j]).id) implies map.moves(
                            long[k as int].at,
                            at,
                        ) < map.moves(long[j].at, at) by {
                            assert(!taken@.contains(short[j].id));
                        }
                        assert(is_nearest(map, long, taken@, at, k as int));
                    } else {
                        assert forall|j: int|
                            0 <= j < long.len() && !taken@.contains(
                                (#[trigger] long[j]).id,
                            ) implies map.moves(long[w as int].at, at) <= map.moves(
                            long[j].at,
                            at,
                        ) by {
                            if j < k {
                                assert(!taken@.contains(short[j].id));
                            }
                        }
                        assert forall|j: int|
                            0 <= j < w && !taken@.contains((#[trigger] long[j]).id) implies map.moves(
                            long[w as int].at,
                            at,
                        ) < map.moves(long[j].at, at) by {
                            assert(!taken@.contains(short[j].id));
                        }
                        assert(is_nearest(map, long, taken@, at, w as int));
                    }
                },
                None => {
                    if better {
                        assert forall|j: int|
                            0 <= j < long.len() && !taken@.contains(
                                (#[trigger] long[j]).id,
                            ) implies j == k by {
                            if j < k {
                                assert(!taken@.contains(short[j].id));
                            }
                        }
                        assert(is_nearest(map, long, taken@, at, k as int));
                    } else {
                        if any_free(long, taken@) {
                            let j = choose|j: int|
                                0 <= j < long.len() && !taken@.contains((#[trigger] long[j]).id);
                            assert(!taken@.contains(short[j].id));
                        }
                    }
                },
            }
        }
        if better {
            found = Some(k);
            least = moves;
        }
        k = k + 1;
    }
    assert(units@.take(k as int) =~= units@);
    found
}

/// What is known after the workers were chosen: the units that board, the
/// workers that were sent, each with the cell of its rocket, and for each
/// rocket whether a worker was sent to it.
pub struct Crew {
    pub taken: Set<ID>,
    pub units: Seq<Unit>,
    pub targets: Seq<Option<Point>>,
    pub crewed: Seq<bool>,
}

/// A rocket takes a worker where it has none and has room.
pub open spec fn wants_worker(rocket: Rocket) -> bool {
    !rocket.has_worker && rocket.garrison < rocket.capacity
}

/// The workers chosen for the first `n` rockets: for each rocket that takes
/// one, the nearest worker not chosen before.
pub open spec fn crew(map: Terrain, rockets: Seq<Rocket>, workers: Seq<Unit>, n: nat) -> Crew
    decreases n,
{
    if n == 0 {
        Crew { taken: Set::empty(), units: Seq::empty(), targets: Seq::empty(), crewed: Seq::empty() }
    } else {
        let before = crew(map, rockets, workers, (n - 1) as nat);
        let rocket = rockets[n - 1];
        if wants_worker(rocket) && any_free(workers, before.taken) {
            let w = nearest_of(map, workers, before.taken, rocket.at);
            Crew {
                taken: before.taken.insert(workers[w].id),
                units: before.units.push(workers[w]),
                targets: before.targets.push(Some(rocket.at)),
                crewed: before.crewed.push(true),
            }
        } else {
            Crew { crewed: before.crewed.push(false), ..before }
        }
    }
}

/// How many soldiers a rocket takes: as many as it has room for, less one
/// where a worker was sent to it.
pub open spec fn seats_of(rocket: Rocket, crewed: bool) -> nat {
    let less = rocket.garrison + if crewed {
        1int
    } else {
        0int
    };
    if rocket.capacity > less {
        (rocket.capacity - less) as nat
    } else {
        0
    }
}

/// One slot for each soldier that each of the first `n` rockets takes.
pub open spec fn seat_slots(rockets: Seq<Rocket>, crewed: Seq<bool>, n: nat) -> Seq<Slot>
    decreases n,
{
    if n == 0 {
        Seq::empty()
    } else {
        seat_slots(rockets, crewed, (n - 1) as nat) + copies(
            (rockets[n - 1].at, 0i16),
            seats_of(rockets[n - 1], crewed[n - 1]),
        )
    }
}

/// Those of the units that are not taken, in their order.
pub open spec fn free_units(units: Seq<Unit>, taken: Set<ID>) -> Seq<Unit>
    decreases units.len(),
{
    if units.len() == 0 {
        Seq::empty()
    } else if taken.contains(units.last().id) {
        free_units(units.drop_last(), taken)
    } else {
        free_units(units.drop_last(), taken).push(units.last())
    }
}

/// The units that the assignment gives a slot.
pub open spec fn seated(a: Map<usize, usize>, units: Seq<Unit>) -> Set<ID> {
    Set::new(
        |id: ID|
            exists|r: int|
                0 <= r < units.len() && a.contains_key(r as usize) && (#[trigger] units[r]).id
                    == id,
    )
}

/// What sending units to the rockets makes of the state `before`, and which
/// units board. Workers first: each rocket that takes a worker gets the
/// nearest that was not chosen before, and the worker is sent to the rocket.
/// Then the soldiers that are left, knights before rangers before healers,
/// are given the seats that are left by an assignment that solves the grid of
/// their moves, and each is sent to the rocket of its seat.
pub open spec fn boarded(
    map: Terrain,
    before: State,
    rockets: Seq<Rocket>,
    workers: Seq<Unit>,
    knights: Seq<Unit>,
    rangers: Seq<Unit>,
    healers: Seq<Unit>,
    after: State,
    boarding: Set<ID>,
) -> bool {
    let chosen = crew(map, rockets, workers, rockets.len());
    let seats = seat_slots(rockets, chosen.crewed, rockets.len());
    let soldiers = free_units(knights, chosen.taken) + free_units(rangers, chosen.taken)
        + free_units(healers, chosen.taken);
    exists|mid: State, a: Map<usize, usize>|
        {
            &&& #[trigger] sent(map, before, chosen.units, chosen.targets, chosen.units.len(), mid)
            &&& #[trigger] solves(slot_grid(map, soldiers, seats), a)
            &&& sent(map, mid, soldiers, targets_of(a, seats, soldiers.len()), soldiers.len(), after)
            &&& boarding == chosen.taken.union(seated(a, soldiers))
        }
}

/// Adds those of the units that are not taken to the list.
fn add_free(list: &mut Vec<Unit>, units: &Vec<Unit>, taken: &FnvHashSet<ID>)
    ensures
        final(list)@ == old(list)@ + free_units(units@, taken@),
{
    let mut i: usize = 0;
    assert(list@ =~= old(list)@ + free_units(units@.take(0), taken@));
    while i < units.len()
        invariant
            i <= units@.len(),
            list@ == old(list)@ + free_units(units@.take(i as int), taken@),
        decreases units@.len() - i,
    {
        assert(units@.take(i + 1).drop_last() =~= units@.take(i as int));
        if !set_contains(taken, units[i].id) {
            list.push(units[i]);
        }
        assert(list@ =~= old(list)@ + free_units(units@.take(i + 1), taken@));
        i = i + 1;
    }
    assert(units@.take(i as int) =~= units@);
}

/// Sends units to the finished rockets and says which units board. Each
/// rocket without a worker and with room gets the nearest worker that was not
/// chosen before. The soldiers are given the seats that are left so that
/// their moves are least in all.
pub fn assign_rockets(
    nav: &mut Navigator,
    fin_rockets: &Vec<Rocket>,
    workers: &Vec<Unit>,
    knights: &Vec<Unit>,
    rangers: &Vec<Unit>,
    healers: &Vec<Unit>,
) -> (boarding: FnvHashSet<ID>)
    requires
        old(nav).wf(),
    ensures
        final(nav).wf(),
        final(nav).map() == old(nav).map(),
        boarded(
            old(nav).map(),
            old(nav)@,
            fin_rockets@,
            workers@,
            knights@,
            rangers@,
            healers@,
            final(nav)@,
            boarding@,
        ),
{
    let ghost map = nav.map();
    let ghost first = nav@;
    let mut boarding: FnvHashSet<ID> = FnvHashSet::default();
    let mut crewed: Vec<bool> = Vec::new();
    let mut chosen: Vec<Unit> = Vec::new();
    let mut cells: Vec<Option<Point>> = Vec::new();
    let mut i: usize = 0;
    while i < fin_rockets.len()
        invariant
            i <= fin_rockets@.len(),
            nav.wf(),
            nav.map() == map,
            nav@ == first,
            crew(map, fin_rockets@, workers@, i as nat) == (Crew {
                taken: boarding@,
                units: chosen@,
                targets: cells@,
                crewed: crewed@,
            }),
            crewed@.len() == i,
            chosen@.len() == cells@.len(),
        decreases fin_rockets@.len() - i,
    {
        let rocket = fin_rockets[i];
        let mut picked: Option<usize> = None;
        if !rocket.has_worker && rocket.garrison < rocket.capacity {
            picked = nearest_free(nav, workers, &boarding, rocket.at);
        }
        match picked {
            Some(w) => {
                proof {
                    lemma_nearest(map, workers@, boarding@, rocket.at, w as int);
                    assert(!boarding@.contains(workers@[w as int].id));
                    assert(any_free(workers@, boarding@));
                }
                set_insert(&mut boarding, workers[w].id);
                chosen.push(workers[w]);
                cells.push(Some(rocket.at));
                crewed.push(true);
            },
            None => {
                crewed.push(false);
            },
        }
        i = i + 1;
    }
    let ghost picked = crew(map, fin_rockets@, workers@, fin_rockets@.len());
    proof {
        assert(picked.taken == boarding@);
        assert(picked.units == chosen@);
        assert(picked.targets == cells@);
        assert(picked.crewed == crewed@);
    }
    nav.send(&chosen, &cells);
    let ghost mid = nav@;
    let mut seats: Vec<Slot> = Vec::new();
    let mut j: usize = 0;
    while j < fin_rockets.len()
        invariant
            j <= fin_rockets@.len(),
            crewed@.len() == fin_rockets@.len(),
            seats@ == seat_slots(fin_rockets@, crewed@, j as nat),
            forall|c: int| 0 <= c < seats@.len() ==> (#[trigger] seats@[c]).1 == 0,
        decreases fin_rockets@.len() - j,
    {
        let rocket = fin_rockets[j];
        let less = if crewed[j] {
            rocket.garrison.saturating_add(1)
        } else {
            rocket.garrison
        };
        let needed = if rocket.capacity > less {
            rocket.capacity - less
        } else {
            0
        };
        let ghost before = seats@;
        add_copies(&mut seats, (rocket.at, 0), needed);
        proof {
            assert(needed == seats_of(rocket, crewed@[j as int]));
            assert forall|c: int| 0 <= c < seats@.len() implies (#[trigger] seats@[c]).1 == 0 by {
                if c < before.len() {
                    assert(seats@[c] == before[c]);
                }
            }
        }
        j = j + 1;
    }
    let mut soldiers: Vec<Unit> = Vec::new();
    add_free(&mut soldiers, knights, &boarding);
    add_free(&mut soldiers, rangers, &boarding);
    add_free(&mut soldiers, healers, &boarding);
    let ghost taken = boarding@;
    let matrix = cost_matrix(nav, &soldiers, &seats);
    let ghost grid = costs(matrix@);
    let pairs = hungarian(matrix);
    proof {
        assert forall|r: usize| #[trigger] pairs@.contains_key(r) implies pairs@[r]
            < seats@.len() && r < soldiers@.len() by {
            assert(width(grid) <= seats@.len()) by {
                if grid.len() > 0 {
                    assert(grid[0].len() == seats@.len());
                }
            }
        }
    }
    let targets = resolve(&pairs, &seats, soldiers.len());
    let mut r: usize = 0;
    while r < soldiers.len()
        invariant
            r <= soldiers@.len(),
            forall|k: usize| #[trigger] pairs@.contains_key(k) ==> k < soldiers@.len(),
            boarding@ == taken.union(seated(pairs@, soldiers@.take(r as int))),
        decreases soldiers@.len() - r,
    {
        let ghost short = soldiers@.take(r as int);
        let ghost long = soldiers@.take(r + 1);
        if map_get_ref(&pairs, r).is_some() {
            set_insert(&mut boarding, soldiers[r].id);
        }
        proof {
            assert forall|id: ID|
                seated(pairs@, long).contains(id) <==> seated(pairs@, short).contains(id) || (
                pairs@.contains_key(r) && soldiers@[r as int].id == id) by {
                if seated(pairs@, long).contains(id) {
                    let n = choose|n: int|
                        0 <= n < long.len() && pairs@.contains_key(n as usize) && (
                        #[trigger] long[n]).id == id;
                    if n < r {
                        assert(short[n].id == id);
                    }
                }
                if seated(pairs@, short).contains(id) {
                    let n = choose|n: int|
                        0 <= n < short.len() && pairs@.contains_key(n as usize) && (
                        #[trigger] short[n]).id == id;
                    assert(long[n].id == id);
                }
                if pairs@.contains_key(r) && soldiers@[r as int].id == id {
                    assert(long[r as int].id == id);
                }
            }
            assert(boarding@ =~= taken.union(seated(pairs@, long)));
        }
        r = r + 1;
    }
    assert(soldiers@.take(r as int) =~= soldiers@);
    nav.send(&soldiers, &targets);
    proof {
        let places = seat_slots(fin_rockets@, picked.crewed, fin_rockets@.len());
        let troops = free_units(knights@, picked.taken) + free_units(rangers@, picked.taken)
            + free_units(healers@, picked.taken);
        assert(seats@ == places);
        assert(soldiers@ =~= troops);
        assert(sent(map, first, picked.units, picked.targets, picked.units.len(), mid));
        assert(solves(slot_grid(map, troops, places), pairs@));
        assert(sent(
            map,
            mid,
            troops,
            targets_of(pairs@, places, troops.len()),
            troops.len(),
            nav@,
        ));
        assert(boarding@ == picked.taken.union(seated(pairs@, troops)));
    }
    boarding
}

} // verus!
