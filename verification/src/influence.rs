use vstd::prelude::*;

verus! {

/// How far a knight reaches, as the square of the distance.
pub const KNIGHT_RANGE: i32 = 2;

/// How far a ranger reaches.
pub const RANGER_RANGE: i32 = 50;

/// How near a ranger cannot shoot.
pub const RANGER_BLIND: i32 = 10;

/// How far a mage reaches.
pub const MAGE_RANGE: i32 = 30;

/// How far a healer reaches.
pub const HEALER_RANGE: i32 = 30;

/// The most units that an influence map is made for.
pub const MOST_UNITS: usize = 650;

/// The kinds of unit that bear on a cell's influence, and the others.
#[derive(Clone, Copy, Debug, PartialEq, Eq, Structural)]
pub enum Kind {
    Knight,
    Ranger,
    Mage,
    Healer,
    Other,
}

/// A unit on the map: its kind, its cell, and whether it is ours.
#[derive(Clone, Copy, Debug)]
pub struct Fighter {
    pub kind: Kind,
    pub at: (i32, i32),
    pub ally: bool,
}

/// The square of the straight-line distance between two cells.
pub open spec fn distance_of(a: (i32, i32), b: (i32, i32)) -> int {
    (b.0 - a.0) * (b.0 - a.0) + (b.1 - a.1) * (b.1 - a.1)
}

/// What a unit of a kind at the distance `d` adds to the influence of a cell.
pub open spec fn effect(kind: Kind, d: int, ally: bool) -> int {
    let amount: int = match kind {
        Kind::Knight => if d <= KNIGHT_RANGE {
            2
        } else {
            0
        },
        Kind::Ranger => if d <= RANGER_RANGE {
            d
        } else {
            0
        },
        Kind::Mage => if d <= MAGE_RANGE {
            1
        } else {
            0
        },
        Kind::Healer => if d <= HEALER_RANGE {
            1
        } else {
            0
        },
        Kind::Other => 0,
    };
    if ally {
        amount
    } else {
        -amount
    }
}

/// What the first `n` units add to the influence of a cell.
pub open spec fn total(units: Seq<Fighter>, cell: (i32, i32), n: nat) -> int
    decreases n,
{
    if n == 0 {
        0
    } else {
        total(units, cell, (n - 1) as nat) + effect(
            units[n - 1].kind,
            distance_of(units[n - 1].at, cell),
            units[n - 1].ally,
        )
    }
}

/// The cells among the first `x` of row `y` that can be entered and seen.
pub open spec fn row_cells(passable: Seq<bool>, visible: Seq<bool>, y: int, x: nat) -> Seq<
    (i32, i32),
>
    decreases x,
{
    if x == 0 {
        Seq::empty()
    } else if passable[x - 1] && visible[x - 1] {
        row_cells(passable, visible, y, (x - 1) as nat).push(((x - 1) as i32, y as i32))
    } else {
        row_cells(passable, visible, y, (x - 1) as nat)
    }
}

/// The cells of the first `y` rows that can be entered and seen, row by row.
pub open spec fn seen_cells(passable: Seq<Vec<bool>>, visible: Seq<Vec<bool>>, y: nat) -> Seq<
    (i32, i32),
>
    decreases y,
{
    if y == 0 {
        Seq::empty()
    } else {
        seen_cells(passable, visible, (y - 1) as nat) + row_cells(
            passable[y - 1]@,
            visible[y - 1]@,
            y - 1,
            passable[y - 1]@.len(),
        )
    }
}

/// Those of the first `n` cells whose influence is not below zero, each with
/// its influence.
pub open spec fn held_cells(cells: Seq<(i32, i32)>, units: Seq<Fighter>, n: nat) -> Seq<
    (i32, i32, i16),
>
    decreases n,
{
    if n == 0 {
        Seq::empty()
    } else {
        let rest = held_cells(cells, units, (n - 1) as nat);
        let sum = total(units, cells[n - 1], units.len());
        if sum >= 0 {
            rest.push((cells[n - 1].0, cells[n - 1].1, sum as i16))
        } else {
            rest
        }
    }
}

/// No unit adds more than 50 to a cell's influence or takes more from it.
pub proof fn lemma_total_bound(units: Seq<Fighter>, cell: (i32, i32), n: nat)
    requires
        n <= units.len(),
    ensures
        -50 * n <= total(units, cell, n) <= 50 * n,
    decreases n,
{
    if n > 0 {
        lemma_total_bound(units, cell, (n - 1) as nat);
        let u = units[n - 1];
        let d = distance_of(u.at, cell);
        assert(d >= 0) by (nonlinear_arith)
            requires
                d == (cell.0 - u.at.0) * (cell.0 - u.at.0) + (cell.1 - u.at.1) * (cell.1 - u.at.1),
        ;
    }
}

/// The square of the straight-line distance between two cells.
pub fn distance(a: (i32, i32), b: (i32, i32)) -> (d: i128)
    ensures
        d == distance_of(a, b),
{
    let dx: i128 = (b.0 as i128) - (a.0 as i128);
    let dy: i128 = (b.1 as i128) - (a.1 as i128);
    assert(-4294967295 <= dx <= 4294967295 && -4294967295 <= dy <= 4294967295);
    assert(0 <= dx * dx <= 18446744065119617025 && 0 <= dy * dy <= 18446744065119617025)
        by (nonlinear_arith)
        requires
            -4294967295 <= dx <= 4294967295 && -4294967295 <= dy <= 4294967295,
    ;
    dx * dx + dy * dy
}

/// What a ranger at the distance `d` adds to the influence of a cell.
pub fn ranger(d: i128, ally: bool) -> (add: i16)
    requires
        d >= 0,
    ensures
        add == effect(Kind::Ranger, d as int, ally),
{
    if d <= RANGER_BLIND as i128 {
        if ally {
            d as i16
        } else {
            -(d as i16)
        }
    } else if d <= RANGER_RANGE as i128 {
        if ally {
            d as i16
        } else {
            -(d as i16)
        }
    } else {
        0
    }
}

/// What a knight at the distance `d` adds to the influence of a cell.
pub fn knight(d: i128, ally: bool) -> (add: i16)
    ensures
        add == effect(Kind::Knight, d as int, ally),
{
    if d <= KNIGHT_RANGE as i128 {
        if ally {
            2
        } else {
            -2
        }
    } else {
        0
    }
}

/// What a mage at the distance `d` adds to the influence of a cell.
pub fn mage(d: i128, ally: bool) -> (add: i16)
    ensures
        add == effect(Kind::Mage, d as int, ally),
{
    if d <= MAGE_RANGE as i128 {
        if ally {
            1
        } else {
            -1
        }
    } else {
        0
    }
}

/// What a healer at the distance `d` adds to the influence of a cell.
pub fn healer(d: i128, ally: bool) -> (add: i16)
    ensures
        add == effect(Kind::Healer, d as int, ally),
{
    if d <= HEALER_RANGE as i128 {
        if ally {
            1
        } else {
            -1
        }
    } else {
        0
    }
}

/// The cells that can be entered and seen, each with the influence that the
/// units have on it; the cells whose influence is below zero are left out.
/// The grids say row by row which cells can be entered and which are seen.
pub fn influence(passable: &Vec<Vec<bool>>, visible: &Vec<Vec<bool>>, units: &Vec<Fighter>) -> (map:
    Vec<(i32, i32, i16)>)
    requires
        passable@.len() <= i32::MAX,
        passable@.len() == visible@.len(),
        forall|y: int|
            0 <= y < passable@.len() ==> (#[trigger] passable@[y])@.len() == visible@[y]@.len()
                && passable@[y]@.len() <= i32::MAX,
        units@.len() <= MOST_UNITS,
    ensures
        map@ == held_cells(
            seen_cells(passable@, visible@, passable@.len()),
            units@,
            seen_cells(passable@, visible@, passable@.len()).len(),
        ),
{
    let mut cells: Vec<(i32, i32)> = Vec::new();
    let mut sums: Vec<i16> = Vec::new();
    let mut y: usize = 0;
    while y < passable.len()
        invariant
            y <= passable@.len(),
            passable@.len() <= i32::MAX,
            passable@.len() == visible@.len(),
            forall|j: int|
                0 <= j < passable@.len() ==> (#[trigger] passable@[j])@.len() == visible@[j]@.len()
                    && passable@[j]@.len() <= i32::MAX,
            cells@ == seen_cells(passable@, visible@, y as nat),
            sums@.len() == cells@.len(),
            forall|k: int| 0 <= k < sums@.len() ==> #[trigger] sums@[k] == 0,
        decreases passable@.len() - y,
    {
        let ghost before = cells@;
        let mut x: usize = 0;
        assert(passable@[y as int]@.len() == visible@[y as int]@.len());
        assert(cells@ =~= before + row_cells(passable@[y as int]@, visible@[y as int]@, y as int, 0));
        while x < passable[y].len()
            invariant
                y < passable@.len(),
                passable@.len() <= i32::MAX,
                passable@.len() == visible@.len(),
                x <= passable@[y as int]@.len(),
                passable@[y as int]@.len() == visible@[y as int]@.len(),
                passable@[y as int]@.len() <= i32::MAX,
                cells@ == before + row_cells(
                    passable@[y as int]@,
                    visible@[y as int]@,
                    y as int,
                    x as nat,
                ),
                sums@.len() == cells@.len(),
                forall|k: int| 0 <= k < sums@.len() ==> #[trigger] sums@[k] == 0,
            decreases passable@[y as int]@.len() - x,
        {
            if passable[y][x] && visible[y][x] {
                cells.push((x as i32, y as i32));
                sums.push(0);
            }
            assert(cells@ =~= before + row_cells(
                passable@[y as int]@,
                visible@[y as int]@,
                y as int,
                (x + 1) as nat,
            ));
            x = x + 1;
        }
        y = y + 1;
    }
    let mut n: usize = 0;
    while n < units.len()
        invariant
            n <= units@.len(),
            units@.len() <= MOST_UNITS,
            sums@.len() == cells@.len(),
            forall|k: int|
                0 <= k < sums@.len() ==> #[trigger] sums@[k] == total(units@, cells@[k], n as nat),
        decreases units@.len() - n,
    {
        let unit = units[n];
        let mut k: usize = 0;
        while k < cells.len()
            invariant
                k <= cells@.len(),
                n < units@.len(),
                units@.len() <= MOST_UNITS,
                unit == units@[n as int],
                sums@.len() == cells@.len(),
                forall|j: int|
                    0 <= j < sums@.len() ==> #[trigger] sums@[j] == total(
                        units@,
                        cells@[j],
                        if j < k {
                            (n + 1) as nat
                        } else {
                            n as nat
                        },
                    ),
            decreases cells@.len() - k,
        {
            let d = distance(unit.at, cells[k]);
            proof {
                lemma_total_bound(units@, cells@[k as int], n as nat);
                lemma_total_bound(units@, cells@[k as int], (n + 1) as nat);
                assert(d >= 0) by (nonlinear_arith)
                    requires
                        d == (cells@[k as int].0 - unit.at.0) * (cells@[k as int].0 - unit.at.0)
                            + (cells@[k as int].1 - unit.at.1) * (cells@[k as int].1 - unit.at.1),
                ;
            }
            let add: i16 = match unit.kind {
                Kind::Knight => knight(d, unit.ally),
                Kind::Ranger => ranger(d, unit.ally),
                Kind::Healer => healer(d, unit.ally),
                Kind::Mage => mage(d, unit.ally),
                Kind::Other => 0,
            };
            sums[k] = sums[k] + add;
            k = k + 1;
        }
        n = n + 1;
    }
    let mut map: Vec<(i32, i32, i16)> = Vec::new();
    let mut k: usize = 0;
    while k < cells.len()
        invariant
            k <= cells@.len(),
            sums@.len() == cells@.len(),
            forall|j: int|
                0 <= j < sums@.len() ==> #[trigger] sums@[j] == total(
                    units@,
                    cells@[j],
                    units@.len(),
                ),
            map@ == held_cells(cells@, units@, k as nat),
        decreases cells@.len() - k,
    {
        if sums[k] >= 0 {
            map.push((cells[k].0, cells[k].1, sums[k]));
        }
        k = k + 1;
    }
    map
}

} // verus!
