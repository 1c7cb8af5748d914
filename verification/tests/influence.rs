use battlecode::influence::distance;
use battlecode::influence::healer;
use battlecode::influence::influence;
use battlecode::influence::knight;
use battlecode::influence::mage;
use battlecode::influence::ranger;
use battlecode::influence::Fighter;
use battlecode::influence::Kind;

#[test]
fn squares_of_distances() {
    assert_eq!(distance((0, 0), (3, 4)), 25);
    assert_eq!(distance((5, 5), (5, 5)), 0);
    assert_eq!(distance((-2, 1), (1, -3)), 25);
    assert_eq!(
        distance((i32::MIN, 0), (i32::MAX, 0)),
        (u32::MAX as i128) * (u32::MAX as i128)
    );
}

#[test]
fn what_each_kind_adds() {
    assert_eq!(knight(2, true), 2);
    assert_eq!(knight(2, false), -2);
    assert_eq!(knight(3, true), 0);
    assert_eq!(ranger(10, true), 10);
    assert_eq!(ranger(11, false), -11);
    assert_eq!(ranger(50, true), 50);
    assert_eq!(ranger(51, true), 0);
    assert_eq!(mage(30, true), 1);
    assert_eq!(mage(31, false), 0);
    assert_eq!(healer(30, false), -1);
    assert_eq!(healer(31, true), 0);
}

#[test]
fn cells_come_row_by_row_with_their_sums() {
    let passable = vec![vec![true, true, false], vec![true, true, true]];
    let visible = vec![vec![true, true, true], vec![false, true, true]];
    let units = vec![
        Fighter { kind: Kind::Knight, at: (0, 0), ally: true },
        Fighter { kind: Kind::Ranger, at: (2, 1), ally: true },
        Fighter { kind: Kind::Mage, at: (1, 1), ally: false },
        Fighter { kind: Kind::Other, at: (1, 0), ally: false },
    ];
    let map = influence(&passable, &visible, &units);
    assert_eq!(map, vec![(0, 0, 6), (1, 0, 3), (1, 1, 2)]);
}

#[test]
fn cells_under_enemy_influence_are_left_out() {
    let passable = vec![vec![true, true, true, true]];
    let visible = vec![vec![true, true, true, true]];
    let units = vec![
        Fighter { kind: Kind::Knight, at: (0, 0), ally: false },
        Fighter { kind: Kind::Healer, at: (3, 0), ally: true },
    ];
    let map = influence(&passable, &visible, &units);
    assert_eq!(map, vec![(2, 0, 1), (3, 0, 1)]);
}

#[test]
fn without_units_every_seen_cell_is_held() {
    let passable = vec![vec![true, false], vec![true, true]];
    let visible = vec![vec![true, true], vec![true, false]];
    let map = influence(&passable, &visible, &Vec::new());
    assert_eq!(map, vec![(0, 0, 0), (0, 1, 0)]);
}
