use woa_core::path::{chebyshev, find_path, manhattan, octile};
use woa_core::world::{Grid, DIRT, EMPTY, ROCK};

fn step_is_legal(g: &Grid, a: (u32, u32), b: (u32, u32), soft: bool) -> bool {
    let (dx, dy) = (b.0 as i32 - a.0 as i32, b.1 as i32 - a.1 as i32);
    if dx.abs() > 1 || dy.abs() > 1 {
        return false;
    }
    if dx != 0 && dy != 0 {
        let o1 = Grid::pass_cost(g.get((a.0 as i32 + dx) as u32, a.1), soft);
        let o2 = Grid::pass_cost(g.get(a.0, (a.1 as i32 + dy) as u32), soft);
        return o1.is_some() && o2.is_some();
    }
    true
}

fn path_cost(g: &Grid, p: &[(u32, u32)], soft: bool) -> u32 {
    let mut total = 0;
    for w in p.windows(2) {
        let c = Grid::pass_cost(g.get(w[1].0, w[1].1), soft).unwrap();
        total += if w[0].0 != w[1].0 && w[0].1 != w[1].1 { c * 1414 / 1000 } else { c };
    }
    total
}

#[test]
fn takes_diagonal_shortcut() {
    let g = Grid::filled(10, 10, EMPTY);
    let p = find_path(&g, (2, 2), (5, 5), false).unwrap();
    assert_eq!(p.len(), 4, "3 diagonal steps + start, got {p:?}");
}

#[test]
fn never_corner_cuts() {
    let mut g = Grid::filled(8, 8, EMPTY);
    g.set(3, 2, ROCK); // pillar straight ahead of a diagonal squeeze
    let p = find_path(&g, (2, 2), (4, 2), false).unwrap();
    assert_eq!(p.first(), Some(&(2, 2)));
    assert_eq!(p.last(), Some(&(4, 2)));
    for w in p.windows(2) {
        assert!(
            step_is_legal(&g, w[0], w[1], false),
            "illegal step {:?} -> {:?} in {p:?}",
            w[0],
            w[1]
        );
    }
}

#[test]
fn dig_aware_costs_prefer_empty_detour() {
    // A straight soft lane vs a longer empty detour: the detour must win
    // (10 empty steps = 10000 < 2 soft steps = 20000).
    let mut g = Grid::filled(12, 5, ROCK);
    for x in 1..=10 {
        g.set(x, 2, DIRT); // soft lane through the middle
    }
    g.set(1, 1, EMPTY);
    g.set(10, 3, EMPTY);
    // carve an empty ring around the soft lane
    for x in 1..=10 {
        g.set(x, 1, EMPTY);
        g.set(x, 3, EMPTY);
    }
    g.set(1, 2, EMPTY); // start
    g.set(10, 2, EMPTY); // goal
    let p = find_path(&g, (1, 2), (10, 2), true).unwrap();
    assert!(
        p.iter().all(|&t| g.get(t.0, t.1) == EMPTY),
        "path crosses soft tiles: {p:?}"
    );
}

#[test]
fn open_ground_cost_is_the_octile_distance() {
    let g = Grid::filled(20, 20, EMPTY);
    let p = find_path(&g, (1, 2), (15, 7), false).unwrap();
    assert_eq!(path_cost(&g, &p, false) as u64, octile((1, 2), (15, 7)));
    assert_eq!(octile((1, 2), (15, 7)), 1000 * 14 + 414 * 5);
    assert_eq!(p.len(), 15);
}

#[test]
fn out_of_bounds_or_blocked_goal_has_no_path() {
    let mut g = Grid::filled(5, 5, EMPTY);
    assert!(find_path(&g, (5, 0), (1, 1), false).is_none());
    assert!(find_path(&g, (0, 0), (1, 9), false).is_none());
    g.set(3, 3, ROCK);
    assert!(find_path(&g, (0, 0), (3, 3), false).is_none());
    g.set(3, 3, DIRT);
    assert!(find_path(&g, (0, 0), (3, 3), false).is_none());
    assert!(find_path(&g, (0, 0), (3, 3), true).is_some());
}

#[test]
fn walled_off_goal_has_no_path() {
    let mut g = Grid::filled(7, 7, EMPTY);
    for x in 0..7 {
        g.set(x, 3, ROCK);
    }
    assert!(find_path(&g, (1, 1), (5, 5), false).is_none());
    assert!(find_path(&g, (1, 1), (5, 5), true).is_none());
    g.set(6, 3, DIRT);
    let p = find_path(&g, (1, 1), (5, 5), true).unwrap();
    assert!(p.contains(&(6, 3)));
}

#[test]
fn start_equal_goal_is_a_single_tile() {
    let g = Grid::filled(3, 3, EMPTY);
    assert_eq!(find_path(&g, (1, 1), (1, 1), false), Some(vec![(1, 1)]));
}

#[test]
fn soft_steps_cost_ten_times_more() {
    let mut g = Grid::filled(4, 1, DIRT);
    g.set(0, 0, EMPTY);
    let p = find_path(&g, (0, 0), (3, 0), true).unwrap();
    assert_eq!(p, vec![(0, 0), (1, 0), (2, 0), (3, 0)]);
    assert_eq!(path_cost(&g, &p, true), 30000);
}

#[test]
fn distances() {
    assert_eq!(chebyshev((2, 9), (5, 4)), 5);
    assert_eq!(chebyshev((5, 4), (2, 9)), 5);
    assert_eq!(manhattan((2, 9), (5, 4)), 8);
    assert_eq!(manhattan((0, 0), (0, 0)), 0);
}
