use vstd::prelude::*;

verus! {

/// A coordinate on the map.
pub type Distance = i8;

/// A turn of the game.
pub type Time = i16;

/// The heat of a unit's movement.
pub type Heat = i32;

/// The number that names a unit.
pub type ID = u16;

/// A cell of the map: column and row.
pub type Point = (Distance, Distance);

/// A cell at a turn, with the heat that the unit has there.
pub type TimePoint = (Distance, Distance, Time, Heat);

/// How many turns ahead a route is planned.
pub const SEARCH_DEPTH: Time = 8;

/// How many turns a route is kept.
pub const EXPIRE_TIME: Time = 4;

/// A unit moves only while its heat is below this.
pub const MAX_HEAT: Heat = 10;

/// The number of moves to a cell that cannot be reached; more than the moves
/// to any cell that can.
pub const UNREACHABLE: i32 = 16384;

/// How many fields of moves are kept at most; when so many are kept and one
/// more is asked for, all are dropped.
pub const CACHE_LIMIT: usize = 256;

/// The last turn that planning is done at.
pub const LAST_TURN: Time = 32000;

/// One of the eight ways to a neighbouring cell.
#[derive(Clone, Copy, Debug, PartialEq, Eq, Structural)]
pub enum Direction {
    North,
    Northeast,
    East,
    Southeast,
    South,
    Southwest,
    West,
    Northwest,
}

/// The direction of a step by `dx` columns and `dy` rows.
pub open spec fn direction_of(dx: int, dy: int) -> Option<Direction> {
    if dx == -1 && dy == -1 {
        Some(Direction::Southwest)
    } else if dx == -1 && dy == 0 {
        Some(Direction::West)
    } else if dx == -1 && dy == 1 {
        Some(Direction::Northwest)
    } else if dx == 0 && dy == -1 {
        Some(Direction::South)
    } else if dx == 0 && dy == 1 {
        Some(Direction::North)
    } else if dx == 1 && dy == -1 {
        Some(Direction::Southeast)
    } else if dx == 1 && dy == 0 {
        Some(Direction::East)
    } else if dx == 1 && dy == 1 {
        Some(Direction::Northeast)
    } else {
        None
    }
}

/// The direction of a step by `dx` columns and `dy` rows; none for no step and
/// for a step to no neighbour.
pub fn to_direction(dx: Distance, dy: Distance) -> (way: Option<Direction>)
    ensures
        way == direction_of(dx as int, dy as int),
{
    match (dx, dy) {
        (-1, -1) => Some(Direction::Southwest),
        (-1, 0) => Some(Direction::West),
        (-1, 1) => Some(Direction::Northwest),
        (0, -1) => Some(Direction::South),
        (0, 1) => Some(Direction::North),
        (1, -1) => Some(Direction::Southeast),
        (1, 0) => Some(Direction::East),
        (1, 1) => Some(Direction::Northeast),
        _ => None,
    }
}

/// The square of the straight-line distance between two cells.
pub open spec fn sqdist_of(a: Point, b: Point) -> int {
    (b.0 - a.0) * (b.0 - a.0) + (b.1 - a.1) * (b.1 - a.1)
}

/// The square of the straight-line distance between two cells.
pub fn sqdist(a: Point, b: Point) -> (d: i32)
    ensures
        d == sqdist_of(a, b),
{
    let dx: i32 = (b.0 as i32) - (a.0 as i32);
    let dy: i32 = (b.1 as i32) - (a.1 as i32);
    assert(-255 <= dx <= 255 && -255 <= dy <= 255);
    assert(0 <= dx * dx <= 65025 && 0 <= dy * dy <= 65025) by (nonlinear_arith)
        requires
            -255 <= dx <= 255 && -255 <= dy <= 255,
    ;
    dx * dx + dy * dy
}

/// The least number of moves between two cells of a map without walls: the
/// greater of the distances in columns and in rows.
pub open spec fn king_distance(a: (int, int), b: (int, int)) -> int {
    let dx = if a.0 >= b.0 {
        a.0 - b.0
    } else {
        b.0 - a.0
    };
    let dy = if a.1 >= b.1 {
        a.1 - b.1
    } else {
        b.1 - a.1
    };
    if dx > dy {
        dx
    } else {
        dy
    }
}

/// The least number of moves between two cells of a map without walls.
pub fn min_possible_dist(a: (i32, i32), b: (i32, i32)) -> (d: i32)
    requires
        king_distance((a.0 as int, a.1 as int), (b.0 as int, b.1 as int)) <= i32::MAX,
    ensures
        d == king_distance((a.0 as int, a.1 as int), (b.0 as int, b.1 as int)),
{
    let ax: i64 = a.0 as i64;
    let ay: i64 = a.1 as i64;
    let bx: i64 = b.0 as i64;
    let by: i64 = b.1 as i64;
    let dx: i64 = if ax >= bx {
        ax - bx
    } else {
        bx - ax
    };
    let dy: i64 = if ay >= by {
        ay - by
    } else {
        by - ay
    };
    if dx > dy {
        dx as i32
    } else {
        dy as i32
    }
}

/// The key that a cell has in a table of cells.
pub open spec fn cell_key_of(p: Point) -> int {
    p.1 * 128 + p.0
}

/// The key that a cell at a turn has in the table of reserved cells.
pub open spec fn slot_key_of(p: Point, t: int) -> int {
    t * 16384 + cell_key_of(p)
}

/// The cell lies on a map of `w` columns and `h` rows.
pub open spec fn on_map(w: int, h: int, p: Point) -> bool {
    0 <= p.0 < w && 0 <= p.1 < h
}

/// The key that a cell has in a table of cells.
pub fn cell_key(p: Point) -> (key: u16)
    requires
        p.0 >= 0,
        p.1 >= 0,
    ensures
        key == cell_key_of(p),
        key < 16384,
{
    (p.1 as u16) * 128 + (p.0 as u16)
}

/// The key that a cell at a turn has in the table of reserved cells.
pub fn slot_key(p: Point, t: Time) -> (key: u32)
    requires
        p.0 >= 0,
        p.1 >= 0,
        t >= 0,
    ensures
        key == slot_key_of(p, t as int),
{
    (t as u32) * 16384 + (cell_key(p) as u32)
}

/// The two cells are neighbours: one step apart, along a row, a column or a
/// diagonal.
pub open spec fn adjacent(a: Point, b: Point) -> bool {
    &&& -1 <= b.0 - a.0 <= 1
    &&& -1 <= b.1 - a.1 <= 1
    &&& a != b
}

/// The step from `a` to `b` is a step to a neighbour or no step.
pub open spec fn near(a: Point, b: Point) -> bool {
    -1 <= b.0 - a.0 <= 1 && -1 <= b.1 - a.1 <= 1
}

} // verus!
