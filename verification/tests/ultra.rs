use crucible::discipline::Variant;
use crucible::solve::{solve, SolveError};

#[test]
fn thirteen_by_thirteen_ultra() {
    let text = b"2413432311323\n3215453535623\n3255245654254\n3446585845452\n4546657867536\n1438598798454\n4457876987766\n3637877979653\n4654967986887\n4564679986453\n1224686865563\n2546548887735\n4322674655533\n";
    assert_eq!(solve(text, Variant::Ultra), Ok(94));
}

#[test]
fn ultra_rejects_early_turns() {
    // the nominally cheapest route hugs the cheap top row and the cheap
    // right column, but turning off the top row before 4 straight moves is
    // illegal, as is running the full 11 cells straight; the engine must
    // settle for the next-cheapest legal route
    let text = b"111111111111\n999999999991\n999999999991\n999999999991\n999999999991\n";
    assert_eq!(solve(text, Variant::Ultra), Ok(47));
}

#[test]
fn ultra_cannot_turn_on_a_small_grid() {
    // every turn needs a straight run of 4 first; a 4-by-4 grid has no
    // room for one, so the far corner is unreachable
    let text = b"1111\n1111\n1111\n1111\n";
    assert_eq!(solve(text, Variant::Ultra), Err(SolveError::Unreachable));
}

#[test]
fn ultra_straight_run_of_ten_is_allowed() {
    // 10 straight moves exactly meet the cap
    assert_eq!(solve(b"11111111111\n", Variant::Ultra), Ok(10));
}

#[test]
fn ultra_rejects_straight_runs_past_ten() {
    // 11 straight moves would be needed and there is no room to turn
    assert_eq!(
        solve(b"111111111111\n", Variant::Ultra),
        Err(SolveError::Unreachable)
    );
}

#[test]
fn basic_can_cross_where_ultra_cannot() {
    let text = b"123\n456\n789\n";
    assert_eq!(solve(text, Variant::Basic), Ok(20));
    assert_eq!(solve(text, Variant::Ultra), Err(SolveError::Unreachable));
}
