use tilekit::geom::Cell;
use tilekit::path::{arrow, find, reachable, Diagonals, Path, IMPASSABLE};

/// Every cell costs 1.
fn flat(_: Cell) -> u32 {
    1
}

#[test]
fn a_straight_run_costs_one_per_step_and_excludes_the_start() {
    let path = find(Cell::new(0, 0), Cell::new(3, 0), 8, 8, Diagonals::Never, 99, flat)
        .expect("a clear route exists");
    assert_eq!(path.steps.len(), 3, "the start is not a step");
    assert_eq!(path.steps[0], Cell::new(1, 0));
    assert_eq!(path.total_cost(), 3);
    assert!(path.complete());
}

#[test]
fn reach_marks_where_the_budget_runs_out() {
    let path = find(Cell::new(0, 0), Cell::new(9, 0), 16, 4, Diagonals::Never, 4, flat)
        .expect("a clear route exists");
    assert_eq!(path.steps.len(), 9);
    assert_eq!(path.reach, 4, "four steps are affordable");
    assert!(!path.complete());
    assert_eq!(path.stop(), Some(Cell::new(4, 0)));
}

#[test]
fn a_budget_of_zero_reaches_nothing_but_still_returns_the_route() {
    let path = find(Cell::new(0, 0), Cell::new(3, 0), 8, 8, Diagonals::Never, 0, flat)
        .expect("a clear route exists");
    assert_eq!(path.reach, 0);
    assert_eq!(path.steps.len(), 3, "the unaffordable remainder is shown");
    assert_eq!(path.stop(), None);
}

#[test]
fn a_wall_is_routed_around() {
    let cost = |c: Cell| if c.x == 2 && c.y < 4 { IMPASSABLE } else { 1 };
    let path = find(Cell::new(0, 0), Cell::new(4, 0), 8, 8, Diagonals::Never, 99, cost)
        .expect("the gap makes a route");
    assert!(path.steps.iter().all(|c| !(c.x == 2 && c.y < 4)), "the route walked through the wall");
    assert!(path.total_cost() > 4, "detouring must cost more than a straight run");
}

#[test]
fn a_fully_walled_goal_has_no_route() {
    let cost = |c: Cell| if c.x == 2 { IMPASSABLE } else { 1 };
    assert!(find(Cell::new(0, 0), Cell::new(4, 0), 8, 8, Diagonals::Never, 99, cost).is_none());
}

#[test]
fn a_cheap_road_is_preferred_over_a_shorter_crossing() {
    let cost = |c: Cell| if c.y == 1 { 1 } else { 10 };
    let path = find(Cell::new(0, 0), Cell::new(6, 0), 8, 4, Diagonals::Never, 99, cost)
        .expect("a route exists");
    assert!(
        path.steps.iter().filter(|c| c.y == 1).count() >= 5,
        "the road was not used: {:?}",
        path.steps
    );
    assert!(path.total_cost() < 60, "a straight run would cost 60");
}

#[test]
fn diagonals_are_refused_charged_or_free_as_configured() {
    let goal = Cell::new(3, 3);
    let straight = find(Cell::new(0, 0), goal, 8, 8, Diagonals::Never, 99, flat).expect("cardinal route");
    let free = find(Cell::new(0, 0), goal, 8, 8, Diagonals::Free, 99, flat).expect("diagonal route");
    let costly = find(Cell::new(0, 0), goal, 8, 8, Diagonals::Costly, 99, flat).expect("diagonal route");

    assert_eq!(straight.steps.len(), 6, "3 across and 3 down");
    assert_eq!(free.steps.len(), 3, "three diagonal steps");
    assert_eq!(free.total_cost(), 3);
    assert_eq!(costly.steps.len(), 3);
    assert_eq!(costly.total_cost(), 3, "1.41 truncates to 1 per step");
    assert!(costly.total_cost() <= straight.total_cost());
}

#[test]
fn a_costly_diagonal_does_not_beat_a_straight_line() {
    let d = Diagonals::Costly;
    assert!(d.scale(100) > 100, "a costly diagonal must cost more than a step");
    assert_eq!(Diagonals::Free.scale(100), 100);
}

#[test]
fn a_path_to_itself_is_not_a_path() {
    assert!(find(Cell::new(2, 2), Cell::new(2, 2), 8, 8, Diagonals::Never, 9, flat).is_none());
}

#[test]
fn an_out_of_bounds_goal_is_rejected_rather_than_panicking() {
    for goal in [Cell::new(-1, 0), Cell::new(0, -1), Cell::new(8, 0), Cell::new(0, 8)] {
        assert!(find(Cell::new(0, 0), goal, 8, 8, Diagonals::Never, 99, flat).is_none(), "{goal:?}");
    }
}

#[test]
fn reachable_is_bounded_by_the_budget() {
    let field = reachable(Cell::new(4, 4), 9, 9, Diagonals::Never, 2, flat);
    let within = field.iter().filter(|&&c| c != IMPASSABLE).count();
    assert_eq!(within, 13, "the budget did not bound the frontier");
    assert_eq!(field[(4 * 9 + 4) as usize], 0, "the origin costs nothing");
    assert_eq!(field[(4 * 9 + 6) as usize], 2, "two steps east");
    assert_eq!(field[(4 * 9 + 7) as usize], IMPASSABLE, "three is too far");
}

#[test]
fn reachable_routes_around_obstacles_rather_than_through_them() {
    let cost = |c: Cell| if c.x == 5 { IMPASSABLE } else { 1 };
    let field = reachable(Cell::new(4, 4), 9, 9, Diagonals::Never, 3, cost);
    assert_eq!(field[(4 * 9 + 5) as usize], IMPASSABLE, "the wall is not entered");
    assert_eq!(field[(4 * 9 + 6) as usize], IMPASSABLE, "nor is anything past it");
}

#[test]
fn the_search_is_deterministic_across_runs() {
    let once = find(Cell::new(0, 0), Cell::new(5, 5), 12, 12, Diagonals::Free, 99, flat);
    let twice = find(Cell::new(0, 0), Cell::new(5, 5), 12, 12, Diagonals::Free, 99, flat);
    assert_eq!(once, twice, "equal-cost ties must not depend on heap order");
}

#[test]
fn arrows_point_the_way_they_travel() {
    let o = Cell::new(4, 4);
    assert_eq!(arrow(o, Cell::new(4, 3)), '↑');
    assert_eq!(arrow(o, Cell::new(4, 5)), '↓');
    assert_eq!(arrow(o, Cell::new(5, 4)), '→');
    assert_eq!(arrow(o, Cell::new(3, 4)), '←');
    assert_eq!(arrow(o, Cell::new(5, 3)), '/');
    assert_eq!(arrow(o, Cell::new(5, 5)), '\\');
    assert_eq!(arrow(o, o), '·', "a non-move is a dot, not a panic");
}

#[test]
fn an_empty_path_reports_zero_cost_and_is_not_complete() {
    let path = Path::default();
    assert_eq!(path.total_cost(), 0);
    assert!(!path.complete());
    assert_eq!(path.stop(), None);
}

#[test]
fn route_costs_are_cumulative_and_agree_with_the_field() {
    let cost = |c: Cell| if c.y == 0 { 3 } else { 1 };
    let path = find(Cell::new(0, 0), Cell::new(4, 0), 8, 8, Diagonals::Never, 7, cost).expect("route");
    assert!(path.costs.windows(2).all(|w| w[0] <= w[1]));
    assert!(path.costs[..path.reach].iter().all(|&c| c <= 7));
    assert!(path.costs[path.reach..].iter().all(|&c| c > 7));
    let field = reachable(Cell::new(0, 0), 8, 8, Diagonals::Never, 99, cost);
    assert_eq!(field[4], path.total_cost());
}

#[test]
fn a_start_off_the_grid_reaches_nothing() {
    let field = reachable(Cell::new(-1, 0), 4, 3, Diagonals::Free, 10, flat);
    assert_eq!(field.len(), 12);
    assert!(field.iter().all(|&c| c == IMPASSABLE));
}

#[test]
fn costly_diagonals_scale_by_one_forty_one() {
    assert_eq!(Diagonals::Costly.scale(100), 141);
    assert_eq!(Diagonals::Never.scale(5), IMPASSABLE);
    assert_eq!(Diagonals::default(), Diagonals::Never);
}

#[test]
fn the_cost_is_only_asked_about_cells_of_the_grid() {
    let (w, h) = (6, 4);
    let cost = |c: Cell| {
        assert!(c.x >= 0 && c.y >= 0 && c.x < w && c.y < h, "asked about {c:?}");
        1
    };
    let p = find(Cell::new(0, 0), Cell::new(5, 3), w, h, Diagonals::Costly, 100, cost).unwrap();
    assert!(!p.steps.contains(&Cell::new(0, 0)));
    let field = reachable(Cell::new(2, 2), w, h, Diagonals::Free, 3, cost);
    assert_eq!(field.len(), 24);
}

#[test]
fn equal_routes_are_broken_by_cost_then_row_then_column() {
    // On open ground every monotone route to the opposite corner costs the
    // same; the search settles the upper row first, so the route runs along
    // the top and then down the right side.
    let p = find(Cell::new(0, 0), Cell::new(2, 2), 3, 3, Diagonals::Never, 100, |_| 1).unwrap();
    assert_eq!(p.total_cost(), 4);
    assert_eq!(p.steps, vec![Cell::new(1, 0), Cell::new(2, 0), Cell::new(2, 1), Cell::new(2, 2)]);
}
