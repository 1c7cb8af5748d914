use battlecode::assign::assign_rockets;
use battlecode::assign::assign_workers;
use battlecode::assign::cost_matrix;
use battlecode::assign::hungarian;
use battlecode::assign::nearest_free;
use battlecode::assign::resolve;
use battlecode::assign::slots_for_workers;
use battlecode::assign::Rocket;
use battlecode::assign::Site;
use battlecode::assign::BUILD;
use battlecode::assign::HARVEST;
use battlecode::assign::REPAIR;
use battlecode::grid::Direction;
use battlecode::navigate::Navigator;
use battlecode::navigate::Unit;
use fnv::FnvHashSet;

fn open_grid(w: usize, h: usize) -> Vec<Vec<bool>> {
    vec![vec![true; w]; h]
}

fn unit(id: u16, x: i8, y: i8) -> Unit {
    Unit { id, at: (x, y), heat: 0, cooldown: 10 }
}

#[test]
fn slots_come_in_the_order_of_the_kinds() {
    let nav = Navigator::new(&open_grid(3, 3));
    let slots = slots_for_workers(
        &nav,
        &vec![(2, 2), (0, 1)],
        &vec![(1, 1)],
        &vec![
            Site { at: (0, 0), health: 10, max_health: 20 },
            Site { at: (2, 0), health: 20, max_health: 20 },
        ],
        &vec![(0, 2)],
    );
    let mut expected = vec![((2, 2), HARVEST), ((0, 1), HARVEST)];
    for _ in 0..8 {
        expected.push(((1, 1), BUILD));
    }
    for _ in 0..2 {
        expected.push(((0, 0), REPAIR));
    }
    for _ in 0..3 {
        expected.push(((0, 2), BUILD));
    }
    assert_eq!(slots, expected);
}

#[test]
fn a_structure_off_the_map_gives_no_slot() {
    let nav = Navigator::new(&open_grid(3, 3));
    let slots = slots_for_workers(&nav, &Vec::new(), &vec![(5, 5)], &Vec::new(), &Vec::new());
    assert!(slots.is_empty());
}

#[test]
fn a_cost_is_moves_and_what_the_slot_costs() {
    let mut nav = Navigator::new(&open_grid(4, 4));
    let matrix = cost_matrix(
        &mut nav,
        &vec![unit(1, 0, 0), unit(2, 3, 3)],
        &vec![((2, 2), HARVEST), ((0, 3), REPAIR), ((1, 0), BUILD)],
    );
    assert_eq!(matrix, vec![vec![12, 8, 1], vec![11, 8, 3]]);
}

#[test]
fn repair_comes_before_harvest_at_equal_distance() {
    assert!(REPAIR < HARVEST);
    assert!(BUILD <= REPAIR);
    let mut nav = Navigator::new(&open_grid(5, 1));
    let matrix = cost_matrix(&mut nav, &vec![unit(1, 2, 0)], &vec![((0, 0), HARVEST), ((4, 0), REPAIR)]);
    let pairs = hungarian(matrix);
    assert_eq!(pairs.get(&0), Some(&1));
}

#[test]
fn targets_follow_the_assignment() {
    let mut pairs = hungarian(vec![vec![5, 1], vec![1, 5], vec![9, 9]]);
    let targets = resolve(&pairs, &vec![((0, 0), 0), ((1, 1), 0)], 3);
    assert_eq!(targets.len(), 3);
    let seated: Vec<usize> = (0..3).filter(|r| targets[*r].is_some()).collect();
    assert_eq!(seated.len(), 2);
    for r in seated {
        let c = *pairs.get(&r).unwrap();
        assert_eq!(targets[r], Some([(0, 0), (1, 1)][c]));
    }
    pairs.clear();
    assert_eq!(resolve(&pairs, &Vec::new(), 2), vec![None, None]);
}

#[test]
fn workers_go_to_the_nearer_karbonite() {
    let mut nav = Navigator::new(&open_grid(7, 1));
    let workers = vec![unit(1, 0, 0), unit(2, 6, 0)];
    assign_workers(&mut nav, &workers, &vec![(5, 0), (1, 0)], &Vec::new(), &Vec::new(), &Vec::new());
    assert_eq!(nav.step(1), Some(Some(Direction::East)));
    assert_eq!(nav.step(2), Some(Some(Direction::West)));
    assert_eq!(nav.route(1).unwrap()[0], (1, 0, 1, 0));
    assert_eq!(nav.route(2).unwrap()[0], (5, 0, 1, 0));
    assert_eq!(nav.orders(), vec![(1, Direction::East), (2, Direction::West)]);
}

#[test]
fn without_workers_nothing_happens() {
    let mut nav = Navigator::new(&open_grid(3, 3));
    assign_workers(&mut nav, &Vec::new(), &vec![(1, 1)], &Vec::new(), &Vec::new(), &Vec::new());
    assert!(nav.orders().is_empty());
}

#[test]
fn without_slots_no_worker_is_sent() {
    let mut nav = Navigator::new(&open_grid(3, 3));
    assign_workers(&mut nav, &vec![unit(1, 0, 0)], &Vec::new(), &Vec::new(), &Vec::new(), &Vec::new());
    assert_eq!(nav.step(1), None);
    assert!(nav.route(1).is_none());
}

#[test]
fn the_nearest_free_unit_is_the_first_of_the_nearest() {
    let mut nav = Navigator::new(&open_grid(5, 5));
    let units = vec![unit(1, 4, 4), unit(2, 1, 1), unit(3, 1, 0), unit(4, 0, 0)];
    let mut taken: FnvHashSet<u16> = FnvHashSet::default();
    assert_eq!(nearest_free(&mut nav, &units, &taken, (0, 0)), Some(3));
    assert_eq!(nearest_free(&mut nav, &units, &taken, (2, 1)), Some(1));
    taken = assign_rockets(
        &mut nav,
        &vec![Rocket { id: 50, at: (2, 1), capacity: 1, garrison: 0, has_worker: false }],
        &units,
        &Vec::new(),
        &Vec::new(),
        &Vec::new(),
    );
    assert!(taken.contains(&2));
    assert_eq!(taken.len(), 1);
    assert_eq!(nearest_free(&mut nav, &units, &taken, (2, 1)), Some(2));
    let all: FnvHashSet<u16> = units.iter().map(|u| u.id).collect();
    assert_eq!(nearest_free(&mut nav, &units, &all, (2, 1)), None);
}

#[test]
fn a_rocket_takes_a_worker_and_fills_its_seats() {
    let mut nav = Navigator::new(&open_grid(9, 1));
    let rockets = vec![Rocket { id: 70, at: (4, 0), capacity: 3, garrison: 0, has_worker: false }];
    let workers = vec![unit(1, 0, 0), unit(2, 6, 0)];
    let knights = vec![unit(10, 8, 0)];
    let rangers = vec![unit(20, 3, 0), unit(21, 7, 0)];
    let healers = vec![unit(30, 1, 0)];
    let boarding = assign_rockets(&mut nav, &rockets, &workers, &knights, &rangers, &healers);
    assert!(boarding.contains(&2));
    assert!(!boarding.contains(&1));
    assert_eq!(boarding.len(), 3);
    assert!(boarding.contains(&20));
    assert!(boarding.contains(&21) || boarding.contains(&30));
    assert!(!boarding.contains(&10));
    assert_eq!(nav.step(20), Some(Some(Direction::East)));
    assert_eq!(nav.step(2), Some(Some(Direction::West)));
    assert_eq!(nav.step(1), None);
}

#[test]
fn soldiers_take_the_seats_nearest_to_them() {
    let mut nav = Navigator::new(&open_grid(9, 1));
    let rockets = vec![
        Rocket { id: 70, at: (1, 0), capacity: 1, garrison: 0, has_worker: true },
        Rocket { id: 71, at: (7, 0), capacity: 2, garrison: 0, has_worker: true },
    ];
    let knights = vec![unit(10, 8, 0)];
    let rangers = vec![unit(20, 0, 0)];
    let boarding = assign_rockets(&mut nav, &rockets, &Vec::new(), &knights, &rangers, &Vec::new());
    assert_eq!(boarding.len(), 2);
    assert_eq!(nav.step(10), Some(Some(Direction::West)));
    assert_eq!(nav.step(20), Some(Some(Direction::East)));
    assert_eq!(nav.route(10).unwrap()[0], (7, 0, 1, 0));
    assert_eq!(nav.route(20).unwrap()[0], (1, 0, 1, 0));
}

#[test]
fn a_rocket_with_a_worker_takes_soldiers_only() {
    let mut nav = Navigator::new(&open_grid(5, 1));
    let rockets = vec![Rocket { id: 70, at: (2, 0), capacity: 2, garrison: 1, has_worker: true }];
    let boarding = assign_rockets(
        &mut nav,
        &rockets,
        &vec![unit(1, 1, 0)],
        &vec![unit(10, 4, 0)],
        &Vec::new(),
        &Vec::new(),
    );
    assert_eq!(boarding.len(), 1);
    assert!(boarding.contains(&10));
}

#[test]
fn a_full_rocket_takes_nobody() {
    let mut nav = Navigator::new(&open_grid(5, 1));
    let rockets = vec![Rocket { id: 70, at: (2, 0), capacity: 2, garrison: 2, has_worker: false }];
    let boarding = assign_rockets(
        &mut nav,
        &rockets,
        &vec![unit(1, 1, 0)],
        &vec![unit(10, 4, 0)],
        &Vec::new(),
        &Vec::new(),
    );
    assert!(boarding.is_empty());
    assert!(nav.orders().is_empty());
}

#[test]
fn more_workers_than_slots_send_the_nearest() {
    let mut nav = Navigator::new(&open_grid(9, 1));
    let workers = vec![unit(1, 0, 0), unit(2, 8, 0), unit(3, 5, 0)];
    assign_workers(&mut nav, &workers, &vec![(6, 0)], &Vec::new(), &Vec::new(), &Vec::new());
    assert_eq!(nav.step(1), None);
    assert_eq!(nav.step(2), None);
    assert_eq!(nav.step(3), Some(Some(Direction::East)));
}
