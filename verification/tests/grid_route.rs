use lib::grid_route::route_edge_with_grid;

fn grid(cols: usize, rows: usize, walls: &[(usize, usize)]) -> Vec<bool> {
    let mut blocked = vec![false; cols * rows];
    for &(x, y) in walls {
        blocked[y * cols + x] = true;
    }
    blocked
}

fn check_route(cells: &[(usize, usize)], cols: usize, blocked: &[bool], start: (usize, usize), end: (usize, usize)) {
    assert_eq!(cells.first(), Some(&start));
    assert_eq!(cells.last(), Some(&end));
    for &(x, y) in cells {
        let open = (x, y) == start || (x, y) == end || !blocked[y * cols + x];
        assert!(open, "route enters blocked cell {:?}", (x, y));
    }
    for w in cells.windows(2) {
        let (a, b) = (w[0], w[1]);
        let dist = a.0.abs_diff(b.0) + a.1.abs_diff(b.1);
        assert_eq!(dist, 1, "cells {:?} and {:?} do not share a side", a, b);
    }
}

#[test]
fn grid_route_goes_straight_along_an_open_row() {
    let blocked = grid(3, 1, &[]);
    let occupancy = vec![0u16; 3];
    let route = route_edge_with_grid(3, 1, &blocked, &occupancy, (0, 0), (2, 0), 10, 5, 1, 10_000);
    assert_eq!(route, Some(vec![(0, 0), (1, 0), (2, 0)]));
}

#[test]
fn grid_route_detours_around_a_wall() {
    let blocked = grid(5, 3, &[(2, 0), (2, 1)]);
    let occupancy = vec![0u16; 15];
    let route = route_edge_with_grid(5, 3, &blocked, &occupancy, (0, 0), (4, 0), 10, 5, 1, 10_000)
        .expect("a route around the wall");
    check_route(&route, 5, &blocked, (0, 0), (4, 0));
    assert!(route.contains(&(2, 2)));
    assert_eq!(route.len(), 9);
}

#[test]
fn grid_route_may_start_and_end_inside_blocked_cells() {
    let blocked = grid(3, 1, &[(0, 0), (2, 0)]);
    let occupancy = vec![0u16; 3];
    let route = route_edge_with_grid(3, 1, &blocked, &occupancy, (0, 0), (2, 0), 10, 5, 1, 10_000);
    assert_eq!(route, Some(vec![(0, 0), (1, 0), (2, 0)]));
}

#[test]
fn grid_route_is_none_when_a_wall_cuts_the_grid() {
    let blocked = grid(3, 3, &[(1, 0), (1, 1), (1, 2)]);
    let occupancy = vec![0u16; 9];
    let route = route_edge_with_grid(3, 3, &blocked, &occupancy, (0, 1), (2, 1), 10, 5, 1, 10_000);
    assert_eq!(route, None);
}

#[test]
fn grid_route_of_one_cell_when_start_is_end() {
    let blocked = grid(2, 2, &[]);
    let occupancy = vec![0u16; 4];
    let route = route_edge_with_grid(2, 2, &blocked, &occupancy, (1, 1), (1, 1), 10, 5, 1, 1);
    assert_eq!(route, Some(vec![(1, 1)]));
}

#[test]
fn grid_route_gives_up_without_steps() {
    let blocked = grid(3, 1, &[]);
    let occupancy = vec![0u16; 3];
    let route = route_edge_with_grid(3, 1, &blocked, &occupancy, (0, 0), (2, 0), 10, 5, 1, 0);
    assert_eq!(route, None);
}

#[test]
fn grid_route_avoids_a_crowded_lane_when_a_detour_is_cheaper() {
    // three rows; the middle row is crowded, the top row is free
    let blocked = grid(5, 3, &[]);
    let mut occupancy = vec![0u16; 15];
    for x in 1..4 {
        occupancy[5 + x] = 100;
    }
    let route = route_edge_with_grid(5, 3, &blocked, &occupancy, (0, 1), (4, 1), 10, 0, 10, 10_000)
        .expect("route");
    check_route(&route, 5, &blocked, (0, 1), (4, 1));
    assert!(!route.contains(&(2, 1)), "route should leave the crowded middle row: {:?}", route);
}

#[test]
fn grid_route_prefers_fewer_turns() {
    // from one corner to the opposite one: a route with a single turn
    let blocked = grid(4, 4, &[]);
    let occupancy = vec![0u16; 16];
    let route = route_edge_with_grid(4, 4, &blocked, &occupancy, (0, 0), (3, 3), 10, 50, 0, 10_000)
        .expect("route");
    check_route(&route, 4, &blocked, (0, 0), (3, 3));
    assert_eq!(route.len(), 7);
    let turns = route
        .windows(3)
        .filter(|w| (w[1].0 as i64 - w[0].0 as i64, w[1].1 as i64 - w[0].1 as i64)
            != (w[2].0 as i64 - w[1].0 as i64, w[2].1 as i64 - w[1].1 as i64))
        .count();
    assert_eq!(turns, 1);
}

#[test]
fn grid_route_finds_a_winding_route_when_one_exists() {
    // walls force a serpentine route through a 5 by 5 grid
    let walls = [(1, 0), (1, 1), (1, 2), (1, 3), (3, 1), (3, 2), (3, 3), (3, 4)];
    let blocked = grid(5, 5, &walls);
    let occupancy = vec![0u16; 25];
    let route = route_edge_with_grid(5, 5, &blocked, &occupancy, (0, 0), (4, 0), 1, 0, 0, 10_000)
        .expect("the serpentine route");
    check_route(&route, 5, &blocked, (0, 0), (4, 0));
    assert_eq!(route.len(), 13);
}

fn route_cost(cells: &[(usize, usize)], cols: usize, occupancy: &[u16], step: u32, turn: u32, occw: u32) -> u32 {
    let dir = |a: (usize, usize), b: (usize, usize)| -> u8 {
        if a.0 == b.0 && b.1 + 1 == a.1 {
            0
        } else if a.0 == b.0 {
            1
        } else if b.0 + 1 == a.0 {
            2
        } else {
            3
        }
    };
    let mut cost: u32 = 0;
    for i in 1..cells.len() {
        let d = dir(cells[i - 1], cells[i]);
        let from = if i == 1 { d } else { dir(cells[i - 2], cells[i - 1]) };
        cost = cost.saturating_add(step);
        if from != d {
            cost = cost.saturating_add(turn);
        }
        let w = occupancy[cells[i].1 * cols + cells[i].0] as u32;
        if w > 0 {
            cost = cost.saturating_add(w.saturating_mul(occw));
        }
    }
    cost
}

#[test]
fn grid_route_takes_the_cheapest_way_around_crowding() {
    // A crowded middle row makes the straight way dearer than a detour.
    let cols = 5;
    let blocked = grid(cols, 3, &[]);
    let mut occupancy = vec![0u16; cols * 3];
    for x in 1..4 {
        occupancy[1 * cols + x] = 50;
    }
    let route = route_edge_with_grid(cols, 3, &blocked, &occupancy, (0, 1), (4, 1), 10, 5, 1, 100_000)
        .expect("a route");
    check_route(&route, cols, &blocked, (0, 1), (4, 1));
    let found = route_cost(&route, cols, &occupancy, 10, 5, 1);
    let straight = vec![(0, 1), (1, 1), (2, 1), (3, 1), (4, 1)];
    let around = vec![(0, 1), (0, 0), (1, 0), (2, 0), (3, 0), (4, 0), (4, 1)];
    assert_eq!(route_cost(&straight, cols, &occupancy, 10, 5, 1), 190);
    assert_eq!(route_cost(&around, cols, &occupancy, 10, 5, 1), 70);
    assert_eq!(found, 70);
}

#[test]
fn grid_route_avoids_needless_turns() {
    let cols = 4;
    let blocked = grid(cols, 4, &[]);
    let occupancy = vec![0u16; 16];
    let route = route_edge_with_grid(cols, 4, &blocked, &occupancy, (0, 0), (3, 3), 10, 7, 1, 100_000)
        .expect("a route");
    check_route(&route, cols, &blocked, (0, 0), (3, 3));
    assert_eq!(route.len(), 7);
    assert_eq!(route_cost(&route, cols, &occupancy, 10, 7, 1), 67);
}
