//! The mathematical model of paths: states, legality, cost, and what it
//! means for a cost to be minimal.

use vstd::prelude::*;

use crate::dirs::Dir;
use crate::discipline::{chain_after, move_ok, Variant};
use crate::grid::{cost_at, in_bounds, step_of, Pos};

verus! {

/// A search state: a position together with the run state that records the
/// direction of the last move and the length of the current straight run
/// (`None` for the start state, before any move).
///
/// Two states with the same position but different run states are distinct:
/// the movement discipline makes the cost to reach a position depend on the
/// recent direction history.
pub ghost struct State {
    pub pos: Pos,
    pub chain: Option<(Dir, int)>,
}

/// The state of a path that has made no moves yet.
pub open spec fn start_state(start: Pos) -> State {
    State { pos: start, chain: None }
}

/// The state after one more move in direction `d` from state `s`.
pub open spec fn succ_state(s: State, d: Dir) -> State {
    State { pos: step_of(s.pos, d), chain: Some(chain_after(s.chain, d)) }
}

/// The state reached by following the moves of `p` from `start`.
pub open spec fn path_state(start: Pos, p: Seq<Dir>) -> State
    decreases p.len(),
{
    if p.len() == 0 {
        start_state(start)
    } else {
        succ_state(path_state(start, p.drop_last()), p.last())
    }
}

/// Whether the moves of `p`, followed from `start`, obey the movement
/// discipline of `v` and stay on the grid.
pub open spec fn path_ok(g: Seq<Seq<u8>>, v: Variant, start: Pos, p: Seq<Dir>) -> bool
    decreases p.len(),
{
    if p.len() == 0 {
        true
    } else {
        let s = path_state(start, p.drop_last());
        &&& path_ok(g, v, start, p.drop_last())
        &&& move_ok(v, s.chain, p.last())
        &&& in_bounds(g, step_of(s.pos, p.last()))
    }
}

/// The total cost of `p`: the sum of the entry costs of the cells the path
/// steps onto. The start cell's own cost is not paid.
pub open spec fn path_cost(g: Seq<Seq<u8>>, start: Pos, p: Seq<Dir>) -> int
    decreases p.len(),
{
    if p.len() == 0 {
        0
    } else {
        path_cost(g, start, p.drop_last()) + cost_at(g, path_state(start, p).pos)
    }
}

/// Whether `p` is a legal path from `start` that ends on the `goal` cell,
/// in whatever run state.
pub open spec fn reaches(g: Seq<Seq<u8>>, v: Variant, start: Pos, goal: Pos, p: Seq<Dir>) -> bool {
    path_ok(g, v, start, p) && path_state(start, p).pos == goal
}

/// Whether `c` is the minimal cost over all legal paths from `start` to
/// `goal`: some legal path costs `c`, and no legal path costs less.
pub open spec fn is_min_cost(
    g: Seq<Seq<u8>>,
    v: Variant,
    start: Pos,
    goal: Pos,
    c: int,
) -> bool {
    &&& exists|p: Seq<Dir>|
        #[trigger] reaches(g, v, start, goal, p) && path_cost(g, start, p) == c
    &&& forall|p: Seq<Dir>| #[trigger] reaches(g, v, start, goal, p) ==> path_cost(g, start, p)
        >= c
}

/// A state a legal path can actually be in: on the grid, with a run length
/// between 1 and the discipline's cap (or no run state at all).
pub open spec fn valid_state(g: Seq<Seq<u8>>, v: Variant, s: State) -> bool {
    &&& in_bounds(g, s.pos)
    &&& match s.chain {
        None => true,
        Some((d, k)) => 1 <= k <= v.max_run(),
    }
}

/// Decomposes the state, legality and cost of a path extended by one move.
pub proof fn lemma_path_snoc(g: Seq<Seq<u8>>, v: Variant, start: Pos, p: Seq<Dir>, d: Dir)
    ensures
        path_state(start, p.push(d)) == succ_state(path_state(start, p), d),
        path_ok(g, v, start, p.push(d)) <==> (path_ok(g, v, start, p) && move_ok(
            v,
            path_state(start, p).chain,
            d,
        ) && in_bounds(g, step_of(path_state(start, p).pos, d))),
        path_cost(g, start, p.push(d)) == path_cost(g, start, p) + cost_at(
            g,
            step_of(path_state(start, p).pos, d),
        ),
{
    assert(p.push(d).drop_last() =~= p);
    assert(p.push(d).last() == d);
}

/// Every state along a legal path is a valid state.
pub proof fn lemma_path_state_valid(g: Seq<Seq<u8>>, v: Variant, start: Pos, p: Seq<Dir>)
    requires
        in_bounds(g, start),
        path_ok(g, v, start, p),
    ensures
        valid_state(g, v, path_state(start, p)),
        p.len() == 0 <==> path_state(start, p).chain is None,
    decreases p.len(),
{
    if p.len() > 0 {
        lemma_path_state_valid(g, v, start, p.drop_last());
    }
}

/// Path costs are sums of cell values and so never negative; appending
/// moves never lowers the cost.
pub proof fn lemma_path_cost_nonneg(g: Seq<Seq<u8>>, start: Pos, p: Seq<Dir>)
    ensures
        path_cost(g, start, p) >= 0,
    decreases p.len(),
{
    if p.len() > 0 {
        lemma_path_cost_nonneg(g, start, p.drop_last());
    }
}

} // verus!
