use battlecode::grid::min_possible_dist;
use battlecode::grid::sqdist;
use battlecode::grid::to_direction;
use battlecode::grid::Direction;
use battlecode::grid::EXPIRE_TIME;
use battlecode::grid::SEARCH_DEPTH;
use battlecode::grid::UNREACHABLE;
use battlecode::navigate::Navigator;
use battlecode::navigate::Unit;
use battlecode::terrain::Terrain;

fn open_grid(w: usize, h: usize) -> Vec<Vec<bool>> {
    vec![vec![true; w]; h]
}

fn grid(rows: &[&str]) -> Vec<Vec<bool>> {
    let mut out: Vec<Vec<bool>> = Vec::new();
    for row in rows.iter().rev() {
        out.push(row.chars().map(|c| c == '.').collect());
    }
    out
}

fn unit(id: u16, x: i8, y: i8) -> Unit {
    Unit { id, at: (x, y), heat: 0, cooldown: 10 }
}

#[test]
fn directions_of_the_eight_steps() {
    assert_eq!(to_direction(-1, -1), Some(Direction::Southwest));
    assert_eq!(to_direction(-1, 0), Some(Direction::West));
    assert_eq!(to_direction(-1, 1), Some(Direction::Northwest));
    assert_eq!(to_direction(0, -1), Some(Direction::South));
    assert_eq!(to_direction(0, 1), Some(Direction::North));
    assert_eq!(to_direction(1, -1), Some(Direction::Southeast));
    assert_eq!(to_direction(1, 0), Some(Direction::East));
    assert_eq!(to_direction(1, 1), Some(Direction::Northeast));
    assert_eq!(to_direction(0, 0), None);
    assert_eq!(to_direction(2, 0), None);
}

#[test]
fn straight_and_king_distances() {
    assert_eq!(sqdist((0, 0), (3, 4)), 25);
    assert_eq!(sqdist((2, 2), (1, 1)), 2);
    assert_eq!(min_possible_dist((0, 0), (3, 7)), 7);
    assert_eq!(min_possible_dist((5, 2), (1, 1)), 4);
    assert_eq!(min_possible_dist((4, 4), (4, 4)), 0);
}

#[test]
fn neighbours_of_corner_edge_and_middle() {
    let terrain = Terrain::build(&open_grid(5, 5));
    assert_eq!(terrain.neighbors((0, 0)).len(), 3);
    assert_eq!(terrain.neighbors((2, 0)).len(), 5);
    assert_eq!(terrain.neighbors((2, 2)).len(), 8);
    assert_eq!(terrain.neighbors((0, 0)), &vec![(0, 1), (1, 1), (1, 0)]);
}

#[test]
fn an_isolated_cell_has_no_neighbour() {
    let terrain = Terrain::build(&grid(&["###", "#.#", "###"]));
    assert_eq!(terrain.neighbors((1, 1)).len(), 0);
    let nav = Navigator::new(&grid(&["###", "#.#", "###"]));
    assert_eq!(nav.neighbors((1, 1)), 0);
}

#[test]
fn open_grid_diagonal() {
    let mut nav = Navigator::new(&open_grid(5, 5));
    assert_eq!(nav.moves_between((0, 0), (4, 4)), 4);
    nav.navigate(&unit(1, 0, 0), (4, 4));
    let route = nav.route(1).unwrap();
    assert_eq!(route.len(), 5);
    assert_eq!(route, vec![(4, 4, 4, 0), (3, 3, 3, 0), (2, 2, 2, 0), (1, 1, 1, 0), (0, 0, 0, 0)]);
    assert_eq!(nav.step(1), Some(Some(Direction::Northeast)));
    assert_eq!(nav.orders(), vec![(1, Direction::Northeast)]);
    for state in route.iter() {
        assert!(nav.is_reserved((state.0, state.1), state.2));
    }
    assert!(!nav.is_reserved((1, 0), 1));
}

#[test]
fn no_moves_to_the_same_cell() {
    let mut nav = Navigator::new(&grid(&["..#", ".#.", "..."]));
    for y in 0..3 {
        for x in 0..3 {
            assert_eq!(nav.moves_between((x, y), (x, y)), 0);
        }
    }
}

#[test]
fn moves_are_the_same_both_ways() {
    let rows = ["....#", ".##.#", ".#...", ".#.#.", "...#."];
    let map = grid(&rows);
    let mut nav = Navigator::new(&map);
    for ay in 0..5i8 {
        for ax in 0..5i8 {
            for by in 0..5i8 {
                for bx in 0..5i8 {
                    if map[ay as usize][ax as usize] && map[by as usize][bx as usize] {
                        assert_eq!(
                            nav.moves_between((ax, ay), (bx, by)),
                            nav.moves_between((bx, by), (ax, ay))
                        );
                    }
                }
            }
        }
    }
}

#[test]
fn moves_obey_the_triangle_inequality() {
    let rows = ["....#", ".##.#", ".#...", ".#.#.", "...#."];
    let map = grid(&rows);
    let mut nav = Navigator::new(&map);
    let mut cells: Vec<(i8, i8)> = Vec::new();
    for y in 0..5i8 {
        for x in 0..5i8 {
            if map[y as usize][x as usize] {
                cells.push((x, y));
            }
        }
    }
    for &a in cells.iter() {
        for &b in cells.iter() {
            for &c in cells.iter() {
                let ab = nav.moves_between(a, b);
                let bc = nav.moves_between(b, c);
                let ac = nav.moves_between(a, c);
                if ab < UNREACHABLE && bc < UNREACHABLE {
                    assert!(ac <= ab + bc);
                }
            }
        }
    }
}

#[test]
fn moves_go_around_walls() {
    let mut nav = Navigator::new(&grid(&[".#.", ".#.", "..."]));
    assert_eq!(nav.moves_between((0, 2), (2, 2)), 4);
    assert_eq!(nav.moves_between((0, 0), (2, 0)), 2);
}

#[test]
fn a_walled_off_cell_is_unreachable() {
    let mut nav = Navigator::new(&grid(&[".#.", ".#.", ".#."]));
    assert_eq!(nav.moves_between((0, 0), (2, 0)), UNREACHABLE);
    assert_eq!(nav.moves_between((0, 0), (0, 2)), 2);
    assert_eq!(UNREACHABLE, 16384);
}

#[test]
fn cells_off_the_map_are_unreachable() {
    let mut nav = Navigator::new(&open_grid(3, 3));
    assert_eq!(nav.moves_between((0, 0), (3, 0)), UNREACHABLE);
    assert_eq!(nav.moves_between((-1, 0), (1, 1)), UNREACHABLE);
}

#[test]
fn a_unit_at_its_goal_gets_no_step() {
    let mut nav = Navigator::new(&open_grid(3, 3));
    nav.navigate(&unit(7, 1, 1), (1, 1));
    assert_eq!(nav.step(7), None);
    assert_eq!(nav.route(7), None);
    assert!(nav.orders().is_empty());
    assert!(!nav.is_reserved((1, 1), 0));
}

#[test]
fn asking_twice_changes_nothing() {
    let mut nav = Navigator::new(&open_grid(5, 5));
    nav.navigate(&unit(1, 0, 0), (4, 2));
    let step = nav.step(1);
    let route = nav.route(1);
    let orders = nav.orders();
    let mut reserved = 0;
    for t in 0..=SEARCH_DEPTH {
        for y in 0..5 {
            for x in 0..5 {
                if nav.is_reserved((x, y), t) {
                    reserved += 1;
                }
            }
        }
    }
    assert_eq!(reserved, route.as_ref().unwrap().len());
    nav.navigate(&unit(1, 0, 0), (4, 2));
    assert_eq!(nav.step(1), step);
    assert_eq!(nav.route(1), route);
    assert_eq!(nav.orders(), orders);
    let mut again = 0;
    for t in 0..=SEARCH_DEPTH {
        for y in 0..5 {
            for x in 0..5 {
                if nav.is_reserved((x, y), t) {
                    again += 1;
                }
            }
        }
    }
    assert_eq!(again, reserved);
}

#[test]
fn two_units_do_not_share_a_bottleneck() {
    let mut nav = Navigator::new(&grid(&[".#.", "...", ".#."]));
    nav.navigate(&unit(1, 0, 2), (2, 1));
    nav.navigate(&unit(2, 0, 0), (2, 1));
    let first = nav.route(1).unwrap();
    let second = nav.route(2).unwrap();
    assert!(first.contains(&(1, 1, 1, 0)));
    assert!(!second.iter().any(|s| s.0 == 1 && s.1 == 1 && s.2 == 1));
    assert!(nav.is_reserved((1, 1), 1));
    for a in first.iter() {
        for b in second.iter() {
            assert!(!(a.0 == b.0 && a.1 == b.1 && a.2 == b.2));
        }
    }
    assert_eq!(nav.step(1), Some(Some(Direction::Southeast)));
}

#[test]
fn routes_step_to_neighbours_only() {
    let mut nav = Navigator::new(&grid(&["....#", ".##.#", ".#...", ".#.#.", "...#."]));
    nav.navigate(&unit(1, 0, 0), (4, 0));
    nav.navigate(&unit(2, 2, 2), (0, 4));
    for id in [1u16, 2u16] {
        let route = nav.route(id).unwrap();
        for pair in route.windows(2) {
            assert_eq!(pair[0].2, pair[1].2 + 1);
            assert!((pair[0].0 - pair[1].0).abs() <= 1);
            assert!((pair[0].1 - pair[1].1).abs() <= 1);
        }
    }
}

#[test]
fn a_hot_unit_waits_before_it_moves() {
    let mut nav = Navigator::new(&open_grid(4, 1));
    nav.navigate(&Unit { id: 3, at: (0, 0), heat: 20, cooldown: 10 }, (3, 0));
    let route = nav.route(3).unwrap();
    let n = route.len();
    assert_eq!(route[n - 1], (0, 0, 0, 20));
    assert_eq!(route[n - 2], (0, 0, 1, 10));
    assert_eq!(route[n - 3], (0, 0, 2, 0));
    assert_eq!(route[n - 4], (1, 0, 3, 0));
    assert_eq!(nav.step(3), Some(None));
    assert!(nav.orders().is_empty());
}

#[test]
fn enemies_and_waiting_units_are_avoided() {
    let mut nav = Navigator::new(&open_grid(3, 3));
    nav.refresh(&vec![(1, 1)], &vec![(9, (1, 0))]);
    nav.navigate(&unit(1, 0, 0), (2, 0));
    let route = nav.route(1).unwrap();
    for s in route.iter() {
        assert!(!(s.0 == 1 && s.1 == 1));
        assert!(!(s.0 == 1 && s.1 == 0));
    }
    assert_eq!(nav.tick(), 1);
}

#[test]
fn a_plan_runs_out_after_its_turns() {
    let mut nav = Navigator::new(&open_grid(5, 5));
    nav.navigate(&unit(1, 0, 0), (4, 4));
    assert_eq!(EXPIRE_TIME, 4);
    for _ in 0..3 {
        nav.refresh(&Vec::new(), &Vec::new());
        assert!(nav.route(1).is_some());
        assert_eq!(nav.step(1), None);
    }
    nav.refresh(&Vec::new(), &Vec::new());
    assert!(nav.route(1).is_none());
    assert!(!nav.is_reserved((1, 1), 1));
    assert!(nav.orders().is_empty());
}

#[test]
fn a_unit_follows_its_route_over_the_turns() {
    let mut nav = Navigator::new(&open_grid(5, 5));
    nav.navigate(&unit(1, 0, 0), (4, 4));
    nav.refresh(&Vec::new(), &vec![(1, (1, 1))]);
    nav.navigate(&unit(1, 1, 1), (4, 4));
    assert_eq!(nav.step(1), Some(Some(Direction::Northeast)));
    assert_eq!(nav.route(1).unwrap().len(), 5);
}

#[test]
fn a_new_goal_gives_a_new_plan() {
    let mut nav = Navigator::new(&open_grid(5, 5));
    nav.navigate(&unit(1, 2, 2), (4, 4));
    assert!(nav.is_reserved((3, 3), 1));
    nav.navigate(&unit(1, 2, 2), (0, 0));
    assert!(!nav.is_reserved((3, 3), 1));
    assert!(nav.is_reserved((1, 1), 1));
    assert_eq!(nav.step(1), Some(Some(Direction::Southwest)));
    assert_eq!(nav.orders(), vec![(1, Direction::Southwest)]);
}

#[test]
fn a_refused_step_gives_the_plan_up() {
    let mut nav = Navigator::new(&open_grid(5, 5));
    nav.navigate(&unit(1, 0, 0), (4, 4));
    nav.navigate(&unit(2, 4, 0), (0, 4));
    assert_eq!(nav.orders().len(), 2);
    nav.execute(&vec![1]);
    assert!(nav.route(1).is_none());
    assert!(nav.route(2).is_some());
    assert!(!nav.is_reserved((1, 1), 1));
    assert_eq!(nav.orders(), vec![(2, Direction::Northwest)]);
}

#[test]
fn a_unit_on_a_reserved_cell_is_not_planned() {
    let mut nav = Navigator::new(&open_grid(5, 1));
    nav.navigate(&unit(1, 0, 0), (4, 0));
    nav.refresh(&Vec::new(), &Vec::new());
    nav.navigate(&unit(2, 1, 0), (0, 0));
    assert!(nav.route(2).is_none());
    assert_eq!(nav.step(2), None);
}

#[test]
fn a_unit_that_cannot_reach_its_goal_still_gets_a_route() {
    let mut nav = Navigator::new(&grid(&[".#.", ".#.", ".#."]));
    nav.navigate(&unit(1, 0, 0), (2, 2));
    let route = nav.route(1).unwrap();
    assert_eq!(route.len(), 9);
    assert_eq!(route[0].2, SEARCH_DEPTH);
}

#[test]
fn a_boxed_in_unit_stays() {
    let mut nav = Navigator::new(&open_grid(3, 1));
    nav.navigate(&unit(1, 1, 0), (1, 0));
    nav.navigate(&Unit { id: 5, at: (0, 0), heat: 0, cooldown: 10 }, (2, 0));
    let route = nav.route(5).unwrap();
    assert!(!route.is_empty());
    assert_eq!(route[route.len() - 1], (0, 0, 0, 0));
}

#[test]
fn a_search_without_a_way_ends_soon() {
    let mut map = open_grid(40, 40);
    for y in 0..40 {
        map[y][30] = false;
    }
    let mut nav = Navigator::new(&map);
    assert_eq!(nav.moves_between((10, 10), (35, 10)), UNREACHABLE);
    nav.navigate(&Unit { id: 1, at: (10, 10), heat: 0, cooldown: 20 }, (35, 10));
    let route = nav.route(1).unwrap();
    assert_eq!(route[route.len() - 1], (10, 10, 0, 0));
    assert_eq!(route[0].2, SEARCH_DEPTH);
    nav.navigate(&unit(2, 20, 20), (0, 0));
    assert_eq!(nav.step(2), Some(Some(Direction::Southwest)));
}

#[test]
fn answers_stay_the_same_past_the_limit_of_kept_fields() {
    let mut nav = Navigator::new(&open_grid(20, 20));
    for y in 0..20i8 {
        for x in 0..20i8 {
            assert_eq!(nav.moves_between((0, 0), (x, y)), x.max(y) as i32);
        }
    }
    assert_eq!(nav.moves_between((19, 0), (0, 0)), 19);
    assert_eq!(nav.moves_between((19, 19), (3, 7)), 16);
}
