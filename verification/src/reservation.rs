use crate::grid::Point;
use crate::grid::slot_key;
use crate::grid::slot_key_of;
use crate::grid::Time;
use crate::tables::set_contains;
use crate::tables::set_insert;
use crate::tables::set_remove;
use fnv::FnvHashSet;
use vstd::prelude::*;

verus! {

broadcast use vstd::std_specs::hash::group_hash_axioms;

/// The cells, each at a turn, that the routes of units pass.
pub struct ReservationTable {
    slots: FnvHashSet<u32>,
}

impl View for ReservationTable {
    type V = Set<u32>;

    /// The keys of the reserved cells and turns.
    closed spec fn view(&self) -> Set<u32> {
        self.slots@
    }
}

impl ReservationTable {
    /// A table without a reserved cell.
    pub fn new() -> (table: ReservationTable)
        ensures
            table@ == Set::<u32>::empty(),
    {
        ReservationTable { slots: FnvHashSet::default() }
    }

    /// Reserves the cell at the turn.
    pub fn reserve(&mut self, cell: Point, tick: Time)
        requires
            cell.0 >= 0,
            cell.1 >= 0,
            tick >= 0,
        ensures
            final(self)@ == old(self)@.insert(slot_key_of(cell, tick as int) as u32),
            0 <= slot_key_of(cell, tick as int) <= u32::MAX,
    {
        set_insert(&mut self.slots, slot_key(cell, tick));
    }

    /// Gives the cell at the turn free.
    pub fn release(&mut self, cell: Point, tick: Time)
        requires
            cell.0 >= 0,
            cell.1 >= 0,
            tick >= 0,
        ensures
            final(self)@ == old(self)@.remove(slot_key_of(cell, tick as int) as u32),
            0 <= slot_key_of(cell, tick as int) <= u32::MAX,
    {
        set_remove(&mut self.slots, slot_key(cell, tick));
    }

    /// The cell is reserved at the turn.
    pub fn is_reserved(&self, cell: Point, tick: Time) -> (yes: bool)
        requires
            cell.0 >= 0,
            cell.1 >= 0,
            tick >= 0,
        ensures
            yes == self@.contains(slot_key_of(cell, tick as int) as u32),
            0 <= slot_key_of(cell, tick as int) <= u32::MAX,
    {
        set_contains(&self.slots, slot_key(cell, tick))
    }
}

} // verus!
