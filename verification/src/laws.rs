//! Laws of the search problem: bounds, monotonicity, determinism, and
//! what the ultra discipline rejects.

use vstd::prelude::*;

use crate::dirs::Dir;
use crate::discipline::{move_ok, Variant};
use crate::grid::{cost_at, grid_wf, in_bounds, step_of, Pos};
use crate::paths::{
    is_min_cost, lemma_path_cost_nonneg, path_cost, path_ok, path_state, reaches,
};

verus! {

/// The magnitude of an integer.
pub open spec fn iabs(x: int) -> int {
    if x < 0 {
        -x
    } else {
        x
    }
}

/// The Manhattan distance between two positions.
pub open spec fn man_dist(a: Pos, b: Pos) -> int {
    iabs(a.0 - b.0) + iabs(a.1 - b.1)
}

/// Whether every cell of the grid costs exactly `c` to enter.
pub open spec fn uniform(g: Seq<Seq<u8>>, c: int) -> bool {
    forall|q: Pos| in_bounds(g, q) ==> #[trigger] cost_at(g, q) == c
}

/// Whether `g2` is `g1` with the single cell `cell` made at least as
/// expensive, everything else unchanged.
pub open spec fn raised_at(g1: Seq<Seq<u8>>, g2: Seq<Seq<u8>>, cell: Pos) -> bool {
    &&& g1.len() == g2.len()
    &&& g1[0].len() == g2[0].len()
    &&& forall|q: Pos| in_bounds(g1, q) && q != cell ==> #[trigger] cost_at(g2, q) == cost_at(
        g1,
        q,
    )
    &&& in_bounds(g1, cell) ==> cost_at(g2, cell) >= cost_at(g1, cell)
}

/// Whether the path never steps onto `cell` (the start cell, whose cost a
/// path never pays, is not counted as stepped onto).
pub open spec fn path_avoids(start: Pos, p: Seq<Dir>, cell: Pos) -> bool {
    forall|i: int| 1 <= i <= p.len() ==> path_state(start, #[trigger] p.take(i)).pos != cell
}

/// A path of `n` moves ends at most `n` Manhattan steps from its start.
proof fn lemma_path_at_most_len(start: Pos, p: Seq<Dir>)
    ensures
        man_dist(start, path_state(start, p).pos) <= p.len(),
    decreases p.len(),
{
    if p.len() > 0 {
        lemma_path_at_most_len(start, p.drop_last());
    }
}

/// On a uniform grid every path costs its length times the cell cost.
proof fn lemma_uniform_path_cost(
    g: Seq<Seq<u8>>,
    v: Variant,
    start: Pos,
    p: Seq<Dir>,
    c: int,
)
    requires
        uniform(g, c),
        path_ok(g, v, start, p),
    ensures
        path_cost(g, start, p) == c * p.len(),
    decreases p.len(),
{
    if p.len() == 0 {
        assert(c * 0 == 0) by (nonlinear_arith);
    } else {
        lemma_uniform_path_cost(g, v, start, p.drop_last(), c);
        assert(in_bounds(g, path_state(start, p).pos));
        assert(c * (p.len() - 1) + c == c * p.len()) by (nonlinear_arith);
    }
}

/// On a grid whose cells all cost `c`, the minimal path cost between two
/// cells is at least `c` times their Manhattan distance: every move pays
/// `c`, and no path reaches the goal in fewer moves than the Manhattan
/// distance.
pub proof fn lemma_uniform_lower_bound(
    g: Seq<Seq<u8>>,
    v: Variant,
    start: Pos,
    goal: Pos,
    c: int,
    m: int,
)
    requires
        grid_wf(g),
        uniform(g, c),
        c >= 0,
        is_min_cost(g, v, start, goal, m),
    ensures
        m >= c * man_dist(start, goal),
{
    let p = choose|p: Seq<Dir>| #[trigger] reaches(g, v, start, goal, p) && path_cost(
        g,
        start,
        p,
    ) == m;
    lemma_uniform_path_cost(g, v, start, p, c);
    lemma_path_at_most_len(start, p);
    assert(c * p.len() >= c * man_dist(start, goal)) by (nonlinear_arith)
        requires
            c >= 0,
            p.len() >= man_dist(start, goal),
    ;
}

/// A run of `n` equal moves.
pub open spec fn straight(dd: Dir, n: int) -> Seq<Dir> {
    Seq::new(n as nat, |i: int| dd)
}

/// Multiplying by a unit displacement (1, -1 or 0) is copying, negating
/// or erasing.
proof fn lemma_mul_unit(n: int, u: int)
    ensures
        u == 1 ==> n * u == n,
        u == -1 ==> n * u == -n,
        u == 0 ==> n * u == 0,
{
    assert(u == 1 ==> n * u == n) by (nonlinear_arith);
    assert(u == -1 ==> n * u == -n) by (nonlinear_arith);
    assert(u == 0 ==> n * u == 0) by (nonlinear_arith);
}

/// A straight run within the discipline's cap is a legal path, and lands
/// where its displacement says.
proof fn lemma_straight_path_reaches(
    g: Seq<Seq<u8>>,
    v: Variant,
    start: Pos,
    goal: Pos,
    dd: Dir,
    n: int,
)
    requires
        in_bounds(g, start),
        in_bounds(g, goal),
        1 <= n <= v.max_run(),
        goal.0 == start.0 + n * dd.drow(),
        goal.1 == start.1 + n * dd.dcol(),
    ensures
        path_ok(g, v, start, straight(dd, n)),
        path_state(start, straight(dd, n)) == (crate::paths::State {
            pos: goal,
            chain: Some((dd, n)),
        }),
    decreases n,
{
    let p = straight(dd, n);
    assert(p.len() == n);
    assert(p.last() == dd);
    lemma_mul_unit(n, dd.drow());
    lemma_mul_unit(n, dd.dcol());
    lemma_mul_unit(n - 1, dd.drow());
    lemma_mul_unit(n - 1, dd.dcol());
    match dd {
        Dir::Up => assert(dd.spec_rev() == Dir::Down),
        Dir::Down => assert(dd.spec_rev() == Dir::Up),
        Dir::Left => assert(dd.spec_rev() == Dir::Right),
        Dir::Right => assert(dd.spec_rev() == Dir::Left),
    }
    assert(dd != dd.spec_rev());
    if n == 1 {
        assert(p.drop_last() =~= Seq::<Dir>::empty());
        assert(goal == step_of(start, dd));
        assert(path_ok(g, v, start, p.drop_last()));
        assert(path_state(start, p.drop_last()) == crate::paths::start_state(start));
        assert(move_ok(v, path_state(start, p.drop_last()).chain, p.last()));
        assert(in_bounds(g, step_of(path_state(start, p.drop_last()).pos, p.last())));
        assert(path_ok(g, v, start, p));
    } else {
        let mid = (start.0 + (n - 1) * dd.drow(), start.1 + (n - 1) * dd.dcol());
        assert(in_bounds(g, mid));
        lemma_straight_path_reaches(g, v, start, mid, dd, n - 1);
        assert(p.drop_last() =~= straight(dd, n - 1));
        assert(goal == step_of(mid, dd));
    }
}

/// The exact half of the uniform-grid bound for straight lines: when the
/// goal lies in the start's row or column, within the discipline's cap on
/// straight runs, the minimal cost on a uniform grid is exactly the cell
/// cost times the distance.
pub proof fn lemma_uniform_straight_cost(
    g: Seq<Seq<u8>>,
    v: Variant,
    start: Pos,
    goal: Pos,
    c: int,
    m: int,
)
    requires
        grid_wf(g),
        uniform(g, c),
        in_bounds(g, start),
        in_bounds(g, goal),
        start.0 == goal.0 || start.1 == goal.1,
        man_dist(start, goal) <= v.max_run(),
        is_min_cost(g, v, start, goal, m),
    ensures
        m == c * man_dist(start, goal),
{
    assert(cost_at(g, start) == c);
    assert(c >= 0);
    let d = man_dist(start, goal);
    if d == 0 {
        assert(start == goal);
        lemma_start_is_goal(g, v, start);
        lemma_min_cost_unique(g, v, start, goal, m, 0);
        assert(c * 0 == 0) by (nonlinear_arith);
    } else {
        let dd = if goal.0 < start.0 {
            Dir::Up
        } else if goal.0 > start.0 {
            Dir::Down
        } else if goal.1 < start.1 {
            Dir::Left
        } else {
            Dir::Right
        };
        lemma_mul_unit(d, dd.drow());
        lemma_mul_unit(d, dd.dcol());
        assert(goal.0 == start.0 + d * dd.drow() && goal.1 == start.1 + d * dd.dcol());
        lemma_straight_path_reaches(g, v, start, goal, dd, d);
        let p = straight(dd, d);
        assert(reaches(g, v, start, goal, p));
        lemma_uniform_path_cost(g, v, start, p, c);
        assert(m <= c * d);
        lemma_uniform_lower_bound(g, v, start, goal, c, m);
    }
}

/// Path legality does not depend on the cell costs, only on the grid's
/// dimensions and the discipline.
proof fn lemma_path_ok_same_dims(
    g1: Seq<Seq<u8>>,
    g2: Seq<Seq<u8>>,
    v: Variant,
    start: Pos,
    p: Seq<Dir>,
)
    requires
        g1.len() == g2.len(),
        g1[0].len() == g2[0].len(),
    ensures
        path_ok(g1, v, start, p) == path_ok(g2, v, start, p),
    decreases p.len(),
{
    if p.len() > 0 {
        lemma_path_ok_same_dims(g1, g2, v, start, p.drop_last());
    }
}

/// Raising one cell never lowers the cost of any legal path.
proof fn lemma_path_cost_raised(
    g1: Seq<Seq<u8>>,
    g2: Seq<Seq<u8>>,
    v: Variant,
    start: Pos,
    p: Seq<Dir>,
    cell: Pos,
)
    requires
        raised_at(g1, g2, cell),
        path_ok(g1, v, start, p),
    ensures
        path_cost(g2, start, p) >= path_cost(g1, start, p),
    decreases p.len(),
{
    if p.len() > 0 {
        lemma_path_cost_raised(g1, g2, v, start, p.drop_last(), cell);
        assert(in_bounds(g1, path_state(start, p).pos));
    }
}

/// A path that avoids the raised cell costs the same on both grids.
proof fn lemma_path_cost_avoid(
    g1: Seq<Seq<u8>>,
    g2: Seq<Seq<u8>>,
    v: Variant,
    start: Pos,
    p: Seq<Dir>,
    cell: Pos,
)
    requires
        raised_at(g1, g2, cell),
        path_ok(g1, v, start, p),
        path_avoids(start, p, cell),
    ensures
        path_cost(g2, start, p) == path_cost(g1, start, p),
    decreases p.len(),
{
    if p.len() > 0 {
        let q = p.drop_last();
        assert forall|i: int| 1 <= i <= q.len() implies path_state(start, #[trigger] q.take(i)).pos
            != cell by {
            assert(p.take(i) =~= q.take(i));
            assert(path_state(start, p.take(i)).pos != cell);
        }
        lemma_path_cost_avoid(g1, g2, v, start, q, cell);
        assert(p.take(p.len() as int) =~= p);
        assert(path_state(start, p).pos != cell);
        assert(in_bounds(g1, path_state(start, p).pos));
    }
}

/// Monotonicity: making one cell more expensive never lowers the reported
/// minimal cost.
pub proof fn lemma_raise_cell_monotone(
    g1: Seq<Seq<u8>>,
    g2: Seq<Seq<u8>>,
    v: Variant,
    start: Pos,
    goal: Pos,
    cell: Pos,
    c1: int,
    c2: int,
)
    requires
        raised_at(g1, g2, cell),
        is_min_cost(g1, v, start, goal, c1),
        is_min_cost(g2, v, start, goal, c2),
    ensures
        c2 >= c1,
{
    let p2 = choose|p: Seq<Dir>| #[trigger] reaches(g2, v, start, goal, p) && path_cost(
        g2,
        start,
        p,
    ) == c2;
    lemma_path_ok_same_dims(g1, g2, v, start, p2);
    assert(reaches(g1, v, start, goal, p2));
    lemma_path_cost_raised(g1, g2, v, start, p2, cell);
    assert(path_cost(g1, start, p2) >= c1);
}

/// Making one cell more expensive leaves the reported minimal cost
/// unchanged when some cheapest path avoids that cell.
pub proof fn lemma_raise_cell_off_path(
    g1: Seq<Seq<u8>>,
    g2: Seq<Seq<u8>>,
    v: Variant,
    start: Pos,
    goal: Pos,
    cell: Pos,
    c1: int,
    c2: int,
    p: Seq<Dir>,
)
    requires
        raised_at(g1, g2, cell),
        is_min_cost(g1, v, start, goal, c1),
        is_min_cost(g2, v, start, goal, c2),
        reaches(g1, v, start, goal, p),
        path_cost(g1, start, p) == c1,
        path_avoids(start, p, cell),
    ensures
        c2 == c1,
{
    lemma_raise_cell_monotone(g1, g2, v, start, goal, cell, c1, c2);
    lemma_path_ok_same_dims(g1, g2, v, start, p);
    assert(reaches(g2, v, start, goal, p));
    lemma_path_cost_avoid(g1, g2, v, start, p, cell);
    assert(path_cost(g2, start, p) >= c2);
}

/// Determinism: the minimal cost is a function of grid, discipline, start
/// and goal alone, so two searches of the same instance agree.
pub proof fn lemma_min_cost_unique(
    g: Seq<Seq<u8>>,
    v: Variant,
    start: Pos,
    goal: Pos,
    c1: int,
    c2: int,
)
    requires
        is_min_cost(g, v, start, goal, c1),
        is_min_cost(g, v, start, goal, c2),
    ensures
        c1 == c2,
{
    let p1 = choose|p: Seq<Dir>| #[trigger] reaches(g, v, start, goal, p) && path_cost(
        g,
        start,
        p,
    ) == c1;
    let p2 = choose|p: Seq<Dir>| #[trigger] reaches(g, v, start, goal, p) && path_cost(
        g,
        start,
        p,
    ) == c2;
    assert(path_cost(g, start, p1) >= c2);
    assert(path_cost(g, start, p2) >= c1);
}

/// A legal path stays legal when truncated.
proof fn lemma_path_ok_prefix(g: Seq<Seq<u8>>, v: Variant, start: Pos, p: Seq<Dir>, i: int)
    requires
        path_ok(g, v, start, p),
        0 <= i <= p.len(),
    ensures
        path_ok(g, v, start, p.take(i)),
    decreases p.len(),
{
    if i < p.len() {
        assert(p.drop_last().take(i) =~= p.take(i));
        lemma_path_ok_prefix(g, v, start, p.drop_last(), i);
    } else {
        assert(p.take(i) =~= p);
    }
}

/// After `j` opening moves all in one direction, the run state is exactly
/// that direction with run length `j`.
proof fn lemma_opening_run(start: Pos, p: Seq<Dir>, j: int)
    requires
        1 <= j <= p.len(),
        forall|t: int| 0 <= t < j ==> #[trigger] p[t] == p[0],
    ensures
        path_state(start, p.take(j)).chain == Some((p[0], j)),
    decreases j,
{
    let q = p.take(j);
    assert(q.drop_last() =~= p.take(j - 1));
    assert(q.last() == p[j - 1]);
    if j > 1 {
        lemma_opening_run(start, p, j - 1);
    }
}

/// The ultra discipline rejects any path whose opening move sequence turns
/// (or reverses) before completing 4 consecutive steps.
pub proof fn lemma_ultra_rejects_early_turn(
    g: Seq<Seq<u8>>,
    start: Pos,
    p: Seq<Dir>,
    i: int,
)
    requires
        1 <= i < p.len(),
        i < 4,
        forall|t: int| 0 <= t < i ==> #[trigger] p[t] == p[0],
        p[i] != p[0],
    ensures
        !path_ok(g, Variant::Ultra, start, p),
{
    if path_ok(g, Variant::Ultra, start, p) {
        lemma_path_ok_prefix(g, Variant::Ultra, start, p, i + 1);
        let q = p.take(i + 1);
        assert(q.drop_last() =~= p.take(i));
        assert(q.last() == p[i]);
        lemma_opening_run(start, p, i);
        assert(!crate::discipline::move_ok(
            Variant::Ultra,
            path_state(start, p.take(i)).chain,
            p[i],
        ));
        assert(!path_ok(g, Variant::Ultra, start, q));
    }
}

/// Along any legal path, `k` consecutive moves in one direction leave a
/// run of at least `k`.
proof fn lemma_consecutive_run(
    g: Seq<Seq<u8>>,
    v: Variant,
    start: Pos,
    p: Seq<Dir>,
    i: int,
    k: int,
)
    requires
        in_bounds(g, start),
        path_ok(g, v, start, p),
        0 <= i,
        1 <= k,
        i + k <= p.len(),
        forall|t: int| i <= t < i + k ==> #[trigger] p[t] == p[i],
    ensures
        ({
            let ch = path_state(start, p.take(i + k)).chain;
            ch is Some && ch.unwrap().0 == p[i] && ch.unwrap().1 >= k
        }),
    decreases k,
{
    let q = p.take(i + k);
    assert(q.drop_last() =~= p.take(i + k - 1));
    assert(q.last() == p[i + k - 1]);
    if k > 1 {
        lemma_consecutive_run(g, v, start, p, i, k - 1);
    } else {
        // the run the previous moves left behind, if any, is at least 1
        lemma_path_ok_prefix(g, v, start, p, i);
        crate::paths::lemma_path_state_valid(g, v, start, p.take(i));
    }
}

/// The ultra discipline rejects any path that continues straight past 10
/// consecutive steps.
pub proof fn lemma_ultra_rejects_long_run(
    g: Seq<Seq<u8>>,
    start: Pos,
    p: Seq<Dir>,
    i: int,
)
    requires
        in_bounds(g, start),
        0 <= i,
        i + 11 <= p.len(),
        forall|t: int| i <= t < i + 11 ==> #[trigger] p[t] == p[i],
    ensures
        !path_ok(g, Variant::Ultra, start, p),
{
    if path_ok(g, Variant::Ultra, start, p) {
        lemma_consecutive_run(g, Variant::Ultra, start, p, i, 11);
        lemma_path_ok_prefix(g, Variant::Ultra, start, p, i + 11);
        crate::paths::lemma_path_state_valid(g, Variant::Ultra, start, p.take(i + 11));
    }
}

/// A search whose start is its goal costs 0: the empty path already
/// reaches the goal, and no path costs less than 0.
pub proof fn lemma_start_is_goal(g: Seq<Seq<u8>>, v: Variant, pos: Pos)
    requires
        grid_wf(g),
        in_bounds(g, pos),
    ensures
        is_min_cost(g, v, pos, pos, 0),
{
    let p0: Seq<Dir> = Seq::empty();
    assert(reaches(g, v, pos, pos, p0) && path_cost(g, pos, p0) == 0);
    assert forall|p: Seq<Dir>| #[trigger] reaches(g, v, pos, pos, p) implies path_cost(g, pos, p)
        >= 0 by {
        lemma_path_cost_nonneg(g, pos, p);
    }
}

} // verus!
