use battlecode::grid::cell_key;
use battlecode::grid::slot_key;
use battlecode::grid::CACHE_LIMIT;
use battlecode::navigate::Navigator;
use battlecode::reservation::ReservationTable;

#[test]
fn a_cell_is_reserved_from_reserve_to_release() {
    let mut table = ReservationTable::new();
    assert!(!table.is_reserved((3, 4), 7));
    table.reserve((3, 4), 7);
    assert!(table.is_reserved((3, 4), 7));
    assert!(!table.is_reserved((3, 4), 8));
    assert!(!table.is_reserved((4, 3), 7));
    table.reserve((3, 4), 7);
    table.release((3, 4), 7);
    assert!(!table.is_reserved((3, 4), 7));
    table.release((3, 4), 7);
    assert!(!table.is_reserved((3, 4), 7));
}

#[test]
fn keys_of_cells_and_turns() {
    assert_eq!(cell_key((0, 0)), 0);
    assert_eq!(cell_key((5, 2)), 261);
    assert_eq!(cell_key((126, 126)), 16254);
    assert_eq!(slot_key((5, 2), 0), 261);
    assert_eq!(slot_key((5, 2), 3), 49413);
    assert_eq!(slot_key((126, 126), 32767), 32767 * 16384 + 16254);
}

#[test]
fn fields_are_worked_out_again_after_they_were_dropped() {
    let mut nav = Navigator::new(&vec![vec![true; 20]; 20]);
    let mut asked = 0;
    for y in 0..20i8 {
        for x in 0..20i8 {
            assert_eq!(nav.moves_between((0, 0), (x, y)), std::cmp::max(x, y) as i32);
            asked += 1;
        }
    }
    assert!(asked > CACHE_LIMIT);
    assert_eq!(nav.moves_between((0, 0), (19, 19)), 19);
    assert_eq!(nav.moves_between((19, 0), (0, 0)), 19);
}
