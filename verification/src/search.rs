//! The priority search engine: Dijkstra's algorithm over the implicit
//! graph of search states, proved to return the minimal path cost.

use vstd::prelude::*;

use crate::dirs::Dir;
use crate::discipline::{apply_move, chain_view, Variant};
use crate::grid::{cost_at, grid_wf, in_bounds, step_of, Grid, Pos};
use crate::paths::{
    is_min_cost, path_cost, path_ok, path_state, reaches, start_state, succ_state, valid_state,
    State,
};

verus! {

/// A search node as the engine stores it: a position on the grid together
/// with the run state of the last moves.
#[derive(Clone, Copy, Debug)]
pub struct Node {
    pub row: usize,
    pub col: usize,
    pub chain: Option<(Dir, u8)>,
}

impl View for Node {
    type V = State;

    open spec fn view(&self) -> State {
        State { pos: (self.row as int, self.col as int), chain: chain_view(self.chain) }
    }
}

/// One frontier entry: a node and the cost of some legal path to it.
#[derive(Clone, Copy, Debug)]
pub struct Entry {
    pub cost: u64,
    pub node: Node,
}

/// A fixed numbering of run states, used to pack search states into
/// indices of the settled-cost table.
spec fn chain_code(ch: Option<(Dir, int)>) -> int {
    match ch {
        None => 0,
        Some((d, k)) => 1 + d.spec_index_of() * 10 + (k - 1),
    }
}

/// Whether a run state is one of the 41 encodable ones.
spec fn chain_encodable(ch: Option<(Dir, int)>) -> bool {
    match ch {
        None => true,
        Some((d, k)) => 1 <= k <= 10,
    }
}

/// The index of a search state in the settled-cost table.
spec fn state_index(g: Seq<Seq<u8>>, s: State) -> int {
    (s.pos.0 * g[0].len() + s.pos.1) * 41 + chain_code(s.chain)
}

/// Whether a state can be given a table slot: on the grid, with an
/// encodable run state.
spec fn indexable(g: Seq<Seq<u8>>, s: State) -> bool {
    in_bounds(g, s.pos) && chain_encodable(s.chain)
}

proof fn lemma_chain_code_bounds(ch: Option<(Dir, int)>)
    requires
        chain_encodable(ch),
    ensures
        0 <= chain_code(ch) <= 40,
{
}

proof fn lemma_chain_code_inj(c1: Option<(Dir, int)>, c2: Option<(Dir, int)>)
    requires
        chain_encodable(c1),
        chain_encodable(c2),
        chain_code(c1) == chain_code(c2),
    ensures
        c1 == c2,
{
}

/// A state's table index lies within a table of 41 slots per cell.
proof fn lemma_state_index_bounds(g: Seq<Seq<u8>>, s: State)
    requires
        grid_wf(g),
        indexable(g, s),
    ensures
        0 <= state_index(g, s) < 41 * g.len() * g[0].len(),
{
    let r = s.pos.0;
    let c = s.pos.1;
    let nc = g[0].len() as int;
    let nr = g.len() as int;
    lemma_chain_code_bounds(s.chain);
    assert(r * nc + c <= nr * nc - 1) by (nonlinear_arith)
        requires
            0 <= r < nr,
            0 <= c < nc,
    ;
    assert((r * nc + c) * 41 + chain_code(s.chain) < 41 * nr * nc) by (nonlinear_arith)
        requires
            0 <= r * nc + c <= nr * nc - 1,
            0 <= chain_code(s.chain) <= 40,
    ;
    assert((r * nc + c) * 41 + chain_code(s.chain) >= 0) by (nonlinear_arith)
        requires
            r * nc + c >= 0,
            chain_code(s.chain) >= 0,
    ;
}

/// Distinct indexable states get distinct table slots.
proof fn lemma_state_index_inj(g: Seq<Seq<u8>>, s1: State, s2: State)
    requires
        grid_wf(g),
        indexable(g, s1),
        indexable(g, s2),
        state_index(g, s1) == state_index(g, s2),
    ensures
        s1 == s2,
{
    let nc = g[0].len() as int;
    let a1 = s1.pos.0 * nc + s1.pos.1;
    let a2 = s2.pos.0 * nc + s2.pos.1;
    lemma_chain_code_bounds(s1.chain);
    lemma_chain_code_bounds(s2.chain);
    assert(a1 == a2 && chain_code(s1.chain) == chain_code(s2.chain)) by (nonlinear_arith)
        requires
            a1 * 41 + chain_code(s1.chain) == a2 * 41 + chain_code(s2.chain),
            0 <= chain_code(s1.chain) <= 40,
            0 <= chain_code(s2.chain) <= 40,
    ;
    assert(s1.pos.0 == s2.pos.0 && s1.pos.1 == s2.pos.1) by (nonlinear_arith)
        requires
            s1.pos.0 * nc + s1.pos.1 == s2.pos.0 * nc + s2.pos.1,
            0 <= s1.pos.1 < nc,
            0 <= s2.pos.1 < nc,
    ;
    lemma_chain_code_inj(s1.chain, s2.chain);
}

/// Computes the table index of a node's state.
fn node_index(g: &Grid, n: &Node) -> (i: usize)
    requires
        grid_wf(g@),
        indexable(g@, n@),
        41 * g@.len() * g@[0].len() <= usize::MAX,
    ensures
        i == state_index(g@, n@),
        i < 41 * g@.len() * g@[0].len(),
{
    proof {
        lemma_state_index_bounds(g@, n@);
    }
    let nc = g.cols();
    let cell = n.row * nc + n.col;
    let code: usize = match n.chain {
        None => 0,
        Some((d, k)) => 1 + d.index_of() * 10 + (k as usize - 1),
    };
    cell * 41 + code
}

/// Number of settled states: the count of filled slots in the table.
spec fn count_settled(dist: Seq<Option<u64>>) -> nat
    decreases dist.len(),
{
    if dist.len() == 0 {
        0
    } else {
        count_settled(dist.drop_last()) + (if dist.last() is Some {
            1nat
        } else {
            0nat
        })
    }
}

proof fn lemma_count_le_len(dist: Seq<Option<u64>>)
    ensures
        count_settled(dist) <= dist.len(),
    decreases dist.len(),
{
    if dist.len() > 0 {
        lemma_count_le_len(dist.drop_last());
    }
}

proof fn lemma_count_zero(dist: Seq<Option<u64>>)
    requires
        count_settled(dist) == 0,
    ensures
        forall|i: int| 0 <= i < dist.len() ==> dist[i] is None,
    decreases dist.len(),
{
    if dist.len() > 0 {
        lemma_count_zero(dist.drop_last());
        assert forall|i: int| 0 <= i < dist.len() implies dist[i] is None by {
            if i < dist.len() - 1 {
                assert(dist.drop_last()[i] is None);
            }
        }
    }
}

proof fn lemma_count_all_none(dist: Seq<Option<u64>>)
    requires
        forall|i: int| 0 <= i < dist.len() ==> dist[i] is None,
    ensures
        count_settled(dist) == 0,
    decreases dist.len(),
{
    if dist.len() > 0 {
        assert forall|i: int| 0 <= i < dist.drop_last().len() implies dist.drop_last()[i]
            is None by {
            assert(dist[i] is None);
        }
        lemma_count_all_none(dist.drop_last());
    }
}

/// Whether `s` has been settled: its table slot holds a finalized cost.
spec fn settled(g: Seq<Seq<u8>>, dist: Seq<Option<u64>>, s: State) -> bool {
    &&& indexable(g, s)
    &&& 0 <= state_index(g, s) < dist.len()
    &&& dist[state_index(g, s)] is Some
}

/// The finalized cost of a settled state.
spec fn dist_at(g: Seq<Seq<u8>>, dist: Seq<Option<u64>>, s: State) -> int {
    dist[state_index(g, s)].unwrap() as int
}

/// Whether some legal path from `start` ends in state `s` with cost `c`.
spec fn state_reached(
    g: Seq<Seq<u8>>,
    v: Variant,
    start: Pos,
    s: State,
    c: int,
) -> bool {
    exists|p: Seq<Dir>|
        #[trigger] path_ok(g, v, start, p) && path_state(start, p) == s && path_cost(g, start, p)
            == c
}

/// What one frontier entry promises: a valid node, reached by some legal
/// path whose cost is the entry's cost.
spec fn entry_ok(g: Seq<Seq<u8>>, v: Variant, start: Pos, e: Entry) -> bool {
    &&& valid_state(g, v, e.node@)
    &&& state_reached(g, v, start, e.node@, e.cost as int)
}

/// Whether the frontier holds an entry for state `t` costing at most `b`.
spec fn has_entry(fr: Seq<Entry>, t: State, b: int) -> bool {
    exists|i: int| 0 <= i < fr.len() && (#[trigger] fr[i]).node@ == t && fr[i].cost <= b
}

/// Whether the frontier holds some entry costing at most `b`.
spec fn some_entry_le(fr: Seq<Entry>, b: int) -> bool {
    exists|i: int| 0 <= i < fr.len() && (#[trigger] fr[i]).cost <= b
}

/// Every settled state was reached by a legal path of its recorded cost.
spec fn inv_settled_sound(
    g: Seq<Seq<u8>>,
    v: Variant,
    start: Pos,
    dist: Seq<Option<u64>>,
) -> bool {
    forall|s: State| #[trigger]
        settled(g, dist, s) ==> valid_state(g, v, s) && state_reached(
            g,
            v,
            start,
            s,
            dist_at(g, dist, s),
        )
}

/// No legal path undercuts the recorded cost of a settled state.
spec fn inv_settled_min(
    g: Seq<Seq<u8>>,
    v: Variant,
    start: Pos,
    dist: Seq<Option<u64>>,
) -> bool {
    forall|p: Seq<Dir>| #[trigger]
        path_ok(g, v, start, p) && settled(g, dist, path_state(start, p)) ==> path_cost(
            g,
            start,
            p,
        ) >= dist_at(g, dist, path_state(start, p))
}

/// Every frontier entry keeps its promise.
spec fn inv_frontier_sound(
    g: Seq<Seq<u8>>,
    v: Variant,
    start: Pos,
    fr: Seq<Entry>,
) -> bool {
    forall|i: int| 0 <= i < fr.len() ==> entry_ok(g, v, start, #[trigger] fr[i])
}

/// Across the settled boundary: every legal move from a settled state to an
/// unsettled one is matched by a frontier entry at most as expensive as
/// relaxing that edge.
spec fn inv_boundary(
    g: Seq<Seq<u8>>,
    v: Variant,
    start: Pos,
    dist: Seq<Option<u64>>,
    fr: Seq<Entry>,
) -> bool {
    forall|s: State, d: Dir|
        settled(g, dist, s) && move_ok_from(v, s, d) && in_bounds(g, step_of(s.pos, d))
            && !settled(g, dist, #[trigger] succ_state(s, d)) ==> has_entry(
            fr,
            succ_state(s, d),
            dist_at(g, dist, s) + cost_at(g, step_of(s.pos, d)),
        )
}

/// Whether the discipline allows a move in direction `d` from state `s`.
spec fn move_ok_from(v: Variant, s: State, d: Dir) -> bool {
    crate::discipline::move_ok(v, s.chain, d)
}

/// Before the first settle the frontier is exactly the seeded start entry;
/// afterwards the start state is settled at cost 0.
spec fn inv_start(
    g: Seq<Seq<u8>>,
    v: Variant,
    start: Pos,
    dist: Seq<Option<u64>>,
    fr: Seq<Entry>,
) -> bool {
    if count_settled(dist) == 0 {
        fr.len() == 1 && fr[0].cost == 0 && fr[0].node@ == start_state(start)
    } else {
        settled(g, dist, start_state(start)) && dist_at(g, dist, start_state(start)) == 0
    }
}

/// Frontier costs stay below 9 per settled state, which keeps the cost
/// arithmetic inside `u64`.
spec fn inv_cost_bound(dist: Seq<Option<u64>>, fr: Seq<Entry>) -> bool {
    forall|i: int| 0 <= i < fr.len() ==> (#[trigger] fr[i]).cost <= 9 * count_settled(dist)
}

/// No state on the goal cell has been settled yet.
spec fn inv_goal_unsettled(
    g: Seq<Seq<u8>>,
    dist: Seq<Option<u64>>,
    goal: Pos,
) -> bool {
    forall|s: State| s.pos == goal ==> !(#[trigger] settled(g, dist, s))
}

/// The covering argument at the heart of Dijkstra's optimality: while the
/// invariants hold, any legal path that ends in an unsettled state passes
/// through the frontier, so some frontier entry costs no more than it.
proof fn lemma_covers(
    g: Seq<Seq<u8>>,
    v: Variant,
    start: Pos,
    dist: Seq<Option<u64>>,
    fr: Seq<Entry>,
    p: Seq<Dir>,
)
    requires
        grid_wf(g),
        in_bounds(g, start),
        inv_start(g, v, start, dist, fr),
        inv_settled_min(g, v, start, dist),
        inv_boundary(g, v, start, dist, fr),
        path_ok(g, v, start, p),
        !settled(g, dist, path_state(start, p)),
    ensures
        some_entry_le(fr, path_cost(g, start, p)),
    decreases p.len(),
{
    if p.len() == 0 {
        if count_settled(dist) == 0 {
            assert(fr[0].cost <= 0);
            assert(some_entry_le(fr, 0));
        } else {
            assert(settled(g, dist, start_state(start)));
            assert(false);
        }
    } else {
        let q = p.drop_last();
        let d = p.last();
        let sq = path_state(start, q);
        let sp = path_state(start, p);
        assert(sp == succ_state(sq, d));
        assert(path_ok(g, v, start, q));
        if settled(g, dist, sq) {
            assert(path_cost(g, start, q) >= dist_at(g, dist, sq));  // inv_settled_min at q
            assert(has_entry(fr, succ_state(sq, d), dist_at(g, dist, sq) + cost_at(
                g,
                step_of(sq.pos, d),
            )));
            let i = choose|i: int|
                0 <= i < fr.len() && (#[trigger] fr[i]).node@ == succ_state(sq, d) && fr[i].cost
                    <= dist_at(g, dist, sq) + cost_at(g, step_of(sq.pos, d));
            assert(fr[i].cost <= path_cost(g, start, p));
        } else {
            lemma_covers(g, v, start, dist, fr, q);
            let i = choose|i: int| 0 <= i < fr.len() && (#[trigger] fr[i]).cost <= path_cost(
                g,
                start,
                q,
            );
            assert(fr[i].cost <= path_cost(g, start, p));
        }
    }
}

proof fn lemma_count_update(dist: Seq<Option<u64>>, i: int, c: u64)
    requires
        0 <= i < dist.len(),
        dist[i] is None,
    ensures
        count_settled(dist.update(i, Some(c))) == count_settled(dist) + 1,
    decreases dist.len(),
{
    let upd = dist.update(i, Some(c));
    if i == dist.len() - 1 {
        assert(upd.drop_last() =~= dist.drop_last());
    } else {
        assert(upd.drop_last() =~= dist.drop_last().update(i, Some(c)));
        lemma_count_update(dist.drop_last(), i, c);
    }
}

/// Entries kept at their old index keep any `has_entry` witness alive.
proof fn lemma_has_entry_extend(fr1: Seq<Entry>, fr2: Seq<Entry>)
    requires
        fr2.len() >= fr1.len(),
        forall|i: int| 0 <= i < fr1.len() ==> fr2[i] == fr1[i],
    ensures
        forall|t: State, b: int| #[trigger] has_entry(fr1, t, b) ==> has_entry(fr2, t, b),
{
    assert forall|t: State, b: int| #[trigger] has_entry(fr1, t, b) implies has_entry(
        fr2,
        t,
        b,
    ) by {
        let j = choose|j: int|
            0 <= j < fr1.len() && (#[trigger] fr1[j]).node@ == t && fr1[j].cost <= b;
        assert(fr2[j].node@ == t && fr2[j].cost <= b);
    }
}

/// Popping a stale entry (one whose node is already settled) preserves the
/// frontier invariants.
proof fn lemma_discard(
    g: Seq<Seq<u8>>,
    v: Variant,
    start: Pos,
    dist: Seq<Option<u64>>,
    fr0: Seq<Entry>,
    fr1: Seq<Entry>,
    m: int,
)
    requires
        0 <= m < fr0.len(),
        fr1 == fr0.update(m, fr0.last()).drop_last(),
        settled(g, dist, fr0[m].node@),
        inv_frontier_sound(g, v, start, fr0),
        inv_boundary(g, v, start, dist, fr0),
        inv_cost_bound(dist, fr0),
        inv_start(g, v, start, dist, fr0),
    ensures
        inv_frontier_sound(g, v, start, fr1),
        inv_boundary(g, v, start, dist, fr1),
        inv_cost_bound(dist, fr1),
        inv_start(g, v, start, dist, fr1),
        count_settled(dist) > 0,
{
    if count_settled(dist) == 0 {
        lemma_count_zero(dist);
        assert(dist[state_index(g, fr0[m].node@)] is None);
        assert(false);
    }
    assert forall|i: int| 0 <= i < fr1.len() implies entry_ok(g, v, start, #[trigger] fr1[i])
        && fr1[i].cost <= 9 * count_settled(dist) by {
        if i == m {
            assert(fr1[i] == fr0[fr0.len() - 1]);
        } else {
            assert(fr1[i] == fr0[i]);
        }
    }
    assert forall|s: State, d: Dir|
        settled(g, dist, s) && move_ok_from(v, s, d) && in_bounds(g, step_of(s.pos, d))
            && !settled(g, dist, #[trigger] succ_state(s, d)) implies has_entry(
        fr1,
        succ_state(s, d),
        dist_at(g, dist, s) + cost_at(g, step_of(s.pos, d)),
    ) by {
        let t = succ_state(s, d);
        let b = dist_at(g, dist, s) + cost_at(g, step_of(s.pos, d));
        assert(has_entry(fr0, t, b));
        let j = choose|j: int|
            0 <= j < fr0.len() && (#[trigger] fr0[j]).node@ == t && fr0[j].cost <= b;
        assert(j != m);
        if j == fr0.len() - 1 {
            assert(fr1[m] == fr0[j]);
            assert(fr1[m].node@ == t && fr1[m].cost <= b);
        } else {
            assert(fr1[j].node@ == t && fr1[j].cost <= b);
        }
    }
}

/// Settling the cheapest frontier node keeps every invariant: the popped
/// cost is optimal for its state, and only edges out of the newly settled
/// node still need frontier entries.
proof fn lemma_settle(
    g: Seq<Seq<u8>>,
    v: Variant,
    start: Pos,
    goal: Pos,
    dist0: Seq<Option<u64>>,
    dist1: Seq<Option<u64>>,
    fr0: Seq<Entry>,
    fr1: Seq<Entry>,
    m: int,
)
    requires
        grid_wf(g),
        in_bounds(g, start),
        0 <= m < fr0.len(),
        fr1 == fr0.update(m, fr0.last()).drop_last(),
        inv_settled_sound(g, v, start, dist0),
        inv_settled_min(g, v, start, dist0),
        inv_frontier_sound(g, v, start, fr0),
        inv_boundary(g, v, start, dist0, fr0),
        inv_start(g, v, start, dist0, fr0),
        inv_cost_bound(dist0, fr0),
        inv_goal_unsettled(g, dist0, goal),
        forall|i: int| 0 <= i < fr0.len() ==> fr0[m].cost <= (#[trigger] fr0[i]).cost,
        !settled(g, dist0, fr0[m].node@),
        0 <= state_index(g, fr0[m].node@) < dist0.len(),
        fr0[m].node@.pos != goal,
        dist1 == dist0.update(state_index(g, fr0[m].node@), Some(fr0[m].cost)),
    ensures
        dist1.len() == dist0.len(),
        count_settled(dist1) == count_settled(dist0) + 1,
        settled(g, dist1, fr0[m].node@),
        dist_at(g, dist1, fr0[m].node@) == fr0[m].cost,
        valid_state(g, v, fr0[m].node@),
        inv_settled_sound(g, v, start, dist1),
        inv_settled_min(g, v, start, dist1),
        inv_frontier_sound(g, v, start, fr1),
        inv_start(g, v, start, dist1, fr1),
        inv_cost_bound(dist1, fr1),
        inv_goal_unsettled(g, dist1, goal),
        forall|s: State, d: Dir|
            s != fr0[m].node@ && settled(g, dist1, s) && move_ok_from(v, s, d) && in_bounds(
                g,
                step_of(s.pos, d),
            ) && !settled(g, dist1, #[trigger] succ_state(s, d)) ==> has_entry(
                fr1,
                succ_state(s, d),
                dist_at(g, dist1, s) + cost_at(g, step_of(s.pos, d)),
            ),
{
    let vnode = fr0[m].node@;
    let vcost = fr0[m].cost;
    let vidx = state_index(g, vnode);
    assert(entry_ok(g, v, start, fr0[m]));
    assert(valid_state(g, v, vnode));
    assert(indexable(g, vnode));
    lemma_count_update(dist0, vidx, vcost);
    // frame: other indexable states keep their slot
    assert forall|t: State| indexable(g, t) && t != vnode implies state_index(g, t)
        != vidx by {
        if state_index(g, t) == vidx {
            lemma_state_index_inj(g, t, vnode);
        }
    }
    // soundness of the new settled set
    assert forall|s: State| #[trigger] settled(g, dist1, s) implies valid_state(g, v, s)
        && state_reached(g, v, start, s, dist_at(g, dist1, s)) by {
        if s == vnode {
            assert(dist_at(g, dist1, s) == vcost);
        } else {
            assert(settled(g, dist0, s));
        }
    }
    // optimality of the new settled set
    assert forall|p: Seq<Dir>| #[trigger]
        path_ok(g, v, start, p) && settled(g, dist1, path_state(start, p)) implies path_cost(
        g,
        start,
        p,
    ) >= dist_at(g, dist1, path_state(start, p)) by {
        let sp = path_state(start, p);
        if sp == vnode {
            lemma_covers(g, v, start, dist0, fr0, p);
            let i = choose|i: int| 0 <= i < fr0.len() && (#[trigger] fr0[i]).cost <= path_cost(
                g,
                start,
                p,
            );
            assert(fr0[i].cost >= vcost);
            assert(dist_at(g, dist1, sp) == vcost);
        } else {
            assert(settled(g, dist0, sp));
        }
    }
    // the surviving frontier entries
    assert forall|i: int| 0 <= i < fr1.len() implies entry_ok(g, v, start, #[trigger] fr1[i])
        && fr1[i].cost <= 9 * count_settled(dist1) by {
        if i == m {
            assert(fr1[i] == fr0[fr0.len() - 1]);
        } else {
            assert(fr1[i] == fr0[i]);
        }
    }
    // the start is settled at 0
    if count_settled(dist0) == 0 {
        assert(m == 0);
        assert(vnode == start_state(start));
        assert(dist_at(g, dist1, start_state(start)) == 0);
    } else {
        assert(settled(g, dist0, start_state(start)));
        assert(start_state(start) != vnode);
    }
    // no goal state becomes settled
    assert forall|s: State| s.pos == goal implies !(#[trigger] settled(g, dist1, s)) by {
        if settled(g, dist1, s) {
            assert(s != vnode);
            assert(settled(g, dist0, s));
        }
    }
    // boundary edges out of previously settled states
    assert forall|s: State, d: Dir|
        s != vnode && settled(g, dist1, s) && move_ok_from(v, s, d) && in_bounds(
            g,
            step_of(s.pos, d),
        ) && !settled(g, dist1, #[trigger] succ_state(s, d)) implies has_entry(
        fr1,
        succ_state(s, d),
        dist_at(g, dist1, s) + cost_at(g, step_of(s.pos, d)),
    ) by {
        let t = succ_state(s, d);
        assert(settled(g, dist0, s));
        assert(dist_at(g, dist1, s) == dist_at(g, dist0, s));
        // the successor is indexable, so the frame applies to it
        assert(valid_state(g, v, s));
        assert(chain_encodable(t.chain));
        assert(indexable(g, t));
        assert(t != vnode);
        assert(!settled(g, dist0, t));
        let b = dist_at(g, dist0, s) + cost_at(g, step_of(s.pos, d));
        assert(has_entry(fr0, t, b));
        let j = choose|j: int|
            0 <= j < fr0.len() && (#[trigger] fr0[j]).node@ == t && fr0[j].cost <= b;
        assert(j != m);
        if j == fr0.len() - 1 {
            assert(fr1[m] == fr0[j]);
            assert(fr1[m].node@ == t && fr1[m].cost <= b);
        } else {
            assert(fr1[j].node@ == t && fr1[j].cost <= b);
        }
    }
}

/// When the cheapest frontier entry sits on the goal cell, its cost is the
/// minimal cost of any legal path to the goal, whatever its run state.
proof fn lemma_goal_min(
    g: Seq<Seq<u8>>,
    v: Variant,
    start: Pos,
    goal: Pos,
    dist0: Seq<Option<u64>>,
    fr0: Seq<Entry>,
    m: int,
)
    requires
        grid_wf(g),
        in_bounds(g, start),
        inv_settled_min(g, v, start, dist0),
        inv_frontier_sound(g, v, start, fr0),
        inv_boundary(g, v, start, dist0, fr0),
        inv_start(g, v, start, dist0, fr0),
        inv_goal_unsettled(g, dist0, goal),
        0 <= m < fr0.len(),
        forall|i: int| 0 <= i < fr0.len() ==> fr0[m].cost <= (#[trigger] fr0[i]).cost,
        fr0[m].node@.pos == goal,
    ensures
        is_min_cost(g, v, start, goal, fr0[m].cost as int),
{
    let c = fr0[m].cost;
    assert(entry_ok(g, v, start, fr0[m]));
    let pw = choose|p: Seq<Dir>| #[trigger]
        path_ok(g, v, start, p) && path_state(start, p) == fr0[m].node@ && path_cost(g, start, p)
            == c as int;
    assert(reaches(g, v, start, goal, pw) && path_cost(g, start, pw) == c as int);
    assert forall|p: Seq<Dir>| #[trigger] reaches(g, v, start, goal, p) implies path_cost(
        g,
        start,
        p,
    ) >= c as int by {
        crate::paths::lemma_path_state_valid(g, v, start, p);
        let sp = path_state(start, p);
        assert(!settled(g, dist0, sp));
        lemma_covers(g, v, start, dist0, fr0, p);
        let i = choose|i: int| 0 <= i < fr0.len() && (#[trigger] fr0[i]).cost <= path_cost(
            g,
            start,
            p,
        );
        assert(fr0[i].cost >= c);
    }
}

/// Pushing a relaxed edge out of the newly settled node keeps the frontier
/// sound and supplies the entry the boundary invariant asks for.
proof fn lemma_push(
    g: Seq<Seq<u8>>,
    v: Variant,
    start: Pos,
    dist1: Seq<Option<u64>>,
    fr_pre: Seq<Entry>,
    fr_new: Seq<Entry>,
    vnode: State,
    c: u64,
    d: Dir,
    ne: Entry,
)
    requires
        fr_new == fr_pre.push(ne),
        ne.cost == c + cost_at(g, step_of(vnode.pos, d)),
        ne.node@ == succ_state(vnode, d),
        valid_state(g, v, ne.node@),
        move_ok_from(v, vnode, d),
        in_bounds(g, step_of(vnode.pos, d)),
        state_reached(g, v, start, vnode, c as int),
        ne.cost <= 9 * count_settled(dist1),
        inv_frontier_sound(g, v, start, fr_pre),
        inv_cost_bound(dist1, fr_pre),
    ensures
        inv_frontier_sound(g, v, start, fr_new),
        inv_cost_bound(dist1, fr_new),
        forall|t: State, b: int| #[trigger] has_entry(fr_pre, t, b) ==> has_entry(fr_new, t, b),
        has_entry(fr_new, succ_state(vnode, d), c + cost_at(g, step_of(vnode.pos, d))),
{
    lemma_has_entry_extend(fr_pre, fr_new);
    let pw = choose|p: Seq<Dir>| #[trigger]
        path_ok(g, v, start, p) && path_state(start, p) == vnode && path_cost(g, start, p)
            == c as int;
    crate::paths::lemma_path_snoc(g, v, start, pw, d);
    let p2 = pw.push(d);
    assert(path_ok(g, v, start, p2) && path_state(start, p2) == ne.node@ && path_cost(
        g,
        start,
        p2,
    ) == ne.cost as int);
    assert(entry_ok(g, v, start, ne));
    assert forall|i: int| 0 <= i < fr_new.len() implies entry_ok(g, v, start, #[trigger] fr_new[i])
        && fr_new[i].cost <= 9 * count_settled(dist1) by {
        if i < fr_pre.len() {
            assert(fr_new[i] == fr_pre[i]);
        } else {
            assert(fr_new[i] == ne);
        }
    }
    let j = fr_new.len() - 1;
    assert(fr_new[j].node@ == succ_state(vnode, d) && fr_new[j].cost <= c + cost_at(
        g,
        step_of(vnode.pos, d),
    ));
}

/// Best-first search for the cheapest legal path from `start` to `goal`.
///
/// Returns the minimal total entry cost over all paths that obey the
/// movement discipline of `v`, or `None` when no such path exists. The two
/// size bounds are machine limits: they let the settled table be indexed by
/// `usize` and keep every accumulated cost inside `u64`.
#[verifier::loop_isolation(false)]
#[verifier::rlimit(100)]
pub fn dijkstra(g: &Grid, v: Variant, start: (usize, usize), goal: (usize, usize)) -> (r: Option<
    u64,
>)
    requires
        grid_wf(g@),
        in_bounds(g@, (start.0 as int, start.1 as int)),
        in_bounds(g@, (goal.0 as int, goal.1 as int)),
        41 * g@.len() * g@[0].len() <= usize::MAX,
        378 * g@.len() * g@[0].len() <= u64::MAX,
    ensures
        match r {
            Some(c) => is_min_cost(
                g@,
                v,
                (start.0 as int, start.1 as int),
                (goal.0 as int, goal.1 as int),
                c as int,
            ),
            None => forall|p: Seq<Dir>|
                !reaches(g@, v, (start.0 as int, start.1 as int), (goal.0 as int, goal.1 as int), p),
        },
{
    let ghost stv: Pos = (start.0 as int, start.1 as int);
    let ghost goalv: Pos = (goal.0 as int, goal.1 as int);
    let rows = g.rows();
    let cols = g.cols();
    proof {
        let nr = g@.len() as int;
        let nc = g@[0].len() as int;
        assert(nr * nc >= 0 && nr * nc <= 41 * nr * nc && (nr * nc) * 41 == 41 * nr * nc)
            by (nonlinear_arith)
            requires
                nr >= 1,
                nc >= 1,
        ;
    }
    let n_cells = rows * cols;
    let n_states = n_cells * 41;

    let mut dist: Vec<Option<u64>> = Vec::new();
    let mut f: usize = 0;
    while f < n_states
        invariant
            dist@.len() == f,
            f <= n_states,
            forall|i: int| 0 <= i < f ==> dist@[i] is None,
        decreases n_states - f,
    {
        dist.push(None);
        f = f + 1;
    }
    proof {
        lemma_count_all_none(dist@);
    }

    let start_node = Node { row: start.0, col: start.1, chain: None };
    let mut frontier: Vec<Entry> = Vec::new();
    frontier.push(Entry { cost: 0, node: start_node });
    proof {
        assert(start_node@ == start_state(stv));
        let p0: Seq<Dir> = Seq::empty();
        assert(path_ok(g@, v, stv, p0) && path_state(stv, p0) == start_state(stv) && path_cost(
            g@,
            stv,
            p0,
        ) == 0);
        assert(entry_ok(g@, v, stv, frontier@[0]));
    }

    while frontier.len() > 0
        invariant
            dist@.len() == 41 * g@.len() * g@[0].len(),
            count_settled(dist@) <= dist@.len(),
            inv_settled_sound(g@, v, stv, dist@),
            inv_settled_min(g@, v, stv, dist@),
            inv_frontier_sound(g@, v, stv, frontier@),
            inv_boundary(g@, v, stv, dist@, frontier@),
            inv_start(g@, v, stv, dist@, frontier@),
            inv_cost_bound(dist@, frontier@),
            inv_goal_unsettled(g@, dist@, goalv),
        decreases dist@.len() - count_settled(dist@), frontier@.len(),
    {
        // pop the cheapest frontier entry
        let mut m: usize = 0;
        let mut k: usize = 1;
        while k < frontier.len()
            invariant
                m < frontier@.len(),
                k <= frontier@.len(),
                forall|i: int| 0 <= i < k ==> frontier@[m as int].cost <= (#[trigger] frontier@[i]).cost,
            decreases frontier@.len() - k,
        {
            if frontier[k].cost < frontier[m].cost {
                m = k;
            }
            k = k + 1;
        }
        let ghost fr0 = frontier@;
        let ghost dist0 = dist@;
        let e = frontier.swap_remove(m);
        let c = e.cost;
        let node = e.node;
        proof {
            assert(entry_ok(g@, v, stv, fr0[m as int]));
            assert(valid_state(g@, v, node@));
        }

        if node.row == goal.0 && node.col == goal.1 {
            proof {
                lemma_goal_min(g@, v, stv, goalv, dist0, fr0, m as int);
            }
            return Some(c);
        }

        let idx = node_index(g, &node);
        if dist[idx].is_some() {
            proof {
                lemma_discard(g@, v, stv, dist@, fr0, frontier@, m as int);
            }
        } else {
            dist[idx] = Some(c);
            proof {
                lemma_settle(
                    g@,
                    v,
                    stv,
                    goalv,
                    dist0,
                    dist@,
                    fr0,
                    frontier@,
                    m as int,
                );
                lemma_count_le_len(dist@);
                // every cost pushed below stays within u64
                assert(fr0[m as int].cost <= 9 * count_settled(dist0));
                let nr = g@.len() as int;
                let nc = g@[0].len() as int;
                assert(9 * (41 * nr * nc) <= 378 * nr * nc) by (nonlinear_arith)
                    requires
                        nr >= 0,
                        nc >= 0,
                ;
                assert(c + 9 <= u64::MAX);
            }
            let ghost dist1 = dist@;
            let ghost fr1 = frontier@;
            let ghost vnode = node@;

            let mut dk: usize = 0;
            while dk < 4
                invariant
                    dist@ == dist1,
                    frontier@.len() >= fr1.len(),
                    forall|i: int| 0 <= i < fr1.len() ==> frontier@[i] == fr1[i],
                    inv_frontier_sound(g@, v, stv, frontier@),
                    inv_cost_bound(dist1, frontier@),
                    forall|s: State, d: Dir|
                        s != vnode && settled(g@, dist1, s) && move_ok_from(v, s, d) && in_bounds(
                            g@,
                            step_of(s.pos, d),
                        ) && !settled(g@, dist1, #[trigger] succ_state(s, d)) ==> has_entry(
                            frontier@,
                            succ_state(s, d),
                            dist_at(g@, dist1, s) + cost_at(g@, step_of(s.pos, d)),
                        ),
                    forall|d: Dir|
                        d.spec_index_of() < dk && move_ok_from(v, vnode, d) && in_bounds(
                            g@,
                            step_of(vnode.pos, d),
                        ) && !settled(g@, dist1, #[trigger] succ_state(vnode, d)) ==> has_entry(
                            frontier@,
                            succ_state(vnode, d),
                            c + cost_at(g@, step_of(vnode.pos, d)),
                        ),
                decreases 4 - dk,
            {
                let ghost fr_pre = frontier@;
                let d = Dir::from_index(dk);
                match g.step((node.row, node.col), d) {
                    Some((npos, ncost)) => {
                        match apply_move(v, node.chain, d) {
                            Some(nchain) => {
                                let nnode = Node { row: npos.0, col: npos.1, chain: Some(nchain) };
                                proof {
                                    assert(nnode@ == succ_state(vnode, d));
                                }
                                let nidx = node_index(g, &nnode);
                                if dist[nidx].is_none() {
                                    let ne = Entry { cost: c + ncost as u64, node: nnode };
                                    frontier.push(ne);
                                    proof {
                                        lemma_push(
                                            g@,
                                            v,
                                            stv,
                                            dist1,
                                            fr_pre,
                                            frontier@,
                                            vnode,
                                            c,
                                            d,
                                            ne,
                                        );
                                    }
                                } else {
                                    proof {
                                        assert(settled(g@, dist1, nnode@));
                                    }
                                }
                            },
                            None => {
                                proof {
                                    assert(!move_ok_from(v, vnode, d));
                                }
                            },
                        }
                    },
                    None => {
                        proof {
                            assert(!in_bounds(g@, step_of(vnode.pos, d)));
                        }
                    },
                }
                dk = dk + 1;
            }
            proof {
                assert forall|s: State, d: Dir|
                    settled(g@, dist@, s) && move_ok_from(v, s, d) && in_bounds(
                        g@,
                        step_of(s.pos, d),
                    ) && !settled(g@, dist@, #[trigger] succ_state(s, d)) implies has_entry(
                    frontier@,
                    succ_state(s, d),
                    dist_at(g@, dist@, s) + cost_at(g@, step_of(s.pos, d)),
                ) by {
                    if s == vnode {
                        assert(d.spec_index_of() < 4);
                        assert(dist_at(g@, dist@, vnode) == c);
                    }
                }
            }
        }
    }
    proof {
        assert forall|p: Seq<Dir>| !reaches(g@, v, stv, goalv, p) by {
            if reaches(g@, v, stv, goalv, p) {
                crate::paths::lemma_path_state_valid(g@, v, stv, p);
                assert(!settled(g@, dist@, path_state(stv, p)));
                lemma_covers(g@, v, stv, dist@, frontier@, p);
            }
        }
    }
    None
}

} // verus!
