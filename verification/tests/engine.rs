use crucible::discipline::Variant;
use crucible::grid::Grid;
use crucible::search::dijkstra;
use crucible::solve::{solve, SolveError};

#[test]
fn one_by_one_grid_costs_zero() {
    // start == goal: cost 0, under both disciplines
    assert_eq!(solve(b"5\n", Variant::Basic), Ok(0));
    assert_eq!(solve(b"5\n", Variant::Ultra), Ok(0));
}

#[test]
fn dijkstra_start_equals_goal() {
    let g = Grid::load("123\n456\n789\n").unwrap();
    assert_eq!(dijkstra(&g, Variant::Basic, (1, 1), (1, 1)), Some(0));
    assert_eq!(dijkstra(&g, Variant::Ultra, (2, 2), (2, 2)), Some(0));
}

#[test]
fn uniform_grid_costs_entry_times_manhattan() {
    // every cell costs 1; a staircase of 6 moves is legal under the basic
    // discipline, and no path can do better than the Manhattan distance
    assert_eq!(solve(b"1111\n1111\n1111\n1111\n", Variant::Basic), Ok(6));
}

#[test]
fn uniform_straight_line_exact() {
    // start and goal share a row or column and the distance fits the cap:
    // the cost is exactly the cell cost times the distance
    assert_eq!(solve(b"2222\n", Variant::Basic), Ok(6));
    assert_eq!(solve(b"3\n3\n3\n3\n", Variant::Basic), Ok(9));
    assert_eq!(solve(b"11111\n", Variant::Ultra), Ok(4));
}

#[test]
fn uniform_grid_exceeds_manhattan_when_straight_capped() {
    // Manhattan distance is 8, but runs of at most 3 force extra vertical
    // moves inside the two rows
    assert_eq!(solve(b"11111111\n11111111\n", Variant::Basic), Ok(10));
}

#[test]
fn single_row_too_long_is_unreachable_basic() {
    // 4 straight moves would be needed; the basic cap is 3 and there is no
    // room to turn
    assert_eq!(solve(b"11111\n", Variant::Basic), Err(SolveError::Unreachable));
}

#[test]
fn malformed_text_reports_parse_error() {
    assert_eq!(solve(b"12\n3x\n", Variant::Basic), Err(SolveError::Parse));
    assert_eq!(solve(b"", Variant::Ultra), Err(SolveError::Parse));
}

#[test]
fn run_state_is_part_of_node_identity() {
    // tracking only visited positions (ignoring direction and run length)
    // would settle cells too early and report 25 here; the correct
    // composite-state search finds 19
    let text = b"12922\n22122\n11112\n11191\n11919\n";
    assert_eq!(solve(text, Variant::Basic), Ok(19));
}

#[test]
fn raising_an_off_path_cell_keeps_the_cost() {
    let base = b"11199\n19199\n19111\n99991\n";
    let raised = b"11199\n99199\n19111\n99991\n";
    assert_eq!(solve(base, Variant::Basic), Ok(7));
    assert_eq!(solve(raised, Variant::Basic), Ok(7));
}

#[test]
fn raising_an_on_path_cell_never_lowers_the_cost() {
    let base = b"11199\n19199\n19111\n99991\n";
    let raised = b"19199\n19199\n19111\n99991\n";
    let c1 = solve(base, Variant::Basic).unwrap();
    let c2 = solve(raised, Variant::Basic).unwrap();
    assert_eq!(c1, 7);
    assert_eq!(c2, 15);
    assert!(c2 >= c1);
}

#[test]
fn repeated_runs_agree() {
    let text = b"2413432311323\n3215453535623\n3255245654254\n3446585845452\n4546657867536\n1438598798454\n4457876987766\n3637877979653\n4654967986887\n4564679986453\n1224686865563\n2546548887735\n4322674655533\n";
    let first = solve(text, Variant::Basic);
    let second = solve(text, Variant::Basic);
    assert_eq!(first, second);
    let first_u = solve(text, Variant::Ultra);
    let second_u = solve(text, Variant::Ultra);
    assert_eq!(first_u, second_u);
}

#[test]
fn dijkstra_between_arbitrary_corners() {
    let g = Grid::load("123\n456\n789\n").unwrap();
    // from the top-right to the bottom-left corner
    assert_eq!(dijkstra(&g, Variant::Basic, (0, 2), (2, 0)), Some(14));
}

#[test]
fn thirteen_by_thirteen_basic() {
    let text = b"2413432311323\n3215453535623\n3255245654254\n3446585845452\n4546657867536\n1438598798454\n4457876987766\n3637877979653\n4654967986887\n4564679986453\n1224686865563\n2546548887735\n4322674655533\n";
    assert_eq!(solve(text, Variant::Basic), Ok(102));
}
