//! The top-level entry point: parse a grid text and search it corner to
//! corner.

use vstd::prelude::*;

use crate::dirs::Dir;
use crate::discipline::Variant;
use crate::grid::{grid_of_text, grid_text_ok, in_bounds, Grid, Pos};
use crate::paths::{is_min_cost, reaches};
use crate::search::dijkstra;

verus! {

/// Why a puzzle run produced no answer.
#[derive(Clone, Copy, Debug, PartialEq, Eq, Structural)]
pub enum SolveError {
    /// The grid text was malformed: ragged or empty rows, characters other
    /// than digits, or no rows at all.
    Parse,
    /// The grid is well formed but no legal path connects its corners
    /// under the chosen discipline.
    Unreachable,
}

/// The start cell of a puzzle: the top-left corner.
pub open spec fn top_left() -> Pos {
    (0, 0)
}

/// The goal cell of a puzzle: the bottom-right corner.
pub open spec fn bottom_right(g: Seq<Seq<u8>>) -> Pos {
    (g.len() - 1, g[0].len() - 1)
}

/// Parses a grid text and reports the minimal total entry cost of a legal
/// path from the top-left to the bottom-right cell under discipline `v`.
///
/// The two size bounds are machine limits on the input length; they keep
/// the search's table index in `usize` and its costs in `u64`.
pub fn solve(bytes: &[u8], v: Variant) -> (r: Result<u64, SolveError>)
    requires
        41 * bytes@.len() <= usize::MAX,
        378 * bytes@.len() <= u64::MAX,
    ensures
        match r {
            Ok(c) => grid_text_ok(bytes@) && is_min_cost(
                grid_of_text(bytes@),
                v,
                top_left(),
                bottom_right(grid_of_text(bytes@)),
                c as int,
            ),
            Err(e) => match e {
                SolveError::Parse => !grid_text_ok(bytes@),
                SolveError::Unreachable => grid_text_ok(bytes@) && forall|p: Seq<Dir>|
                    !reaches(
                        grid_of_text(bytes@),
                        v,
                        top_left(),
                        bottom_right(grid_of_text(bytes@)),
                        p,
                    ),
            },
        },
{
    let gr = match Grid::parse_bytes(bytes) {
        Ok(gr) => gr,
        Err(_) => {
            return Err(SolveError::Parse);
        },
    };
    let rows = gr.rows();
    let cols = gr.cols();
    proof {
        let nr = gr@.len() as int;
        let nc = gr@[0].len() as int;
        let nb = bytes@.len() as int;
        assert(41 * nr * nc <= 41 * nb && 378 * nr * nc <= 378 * nb) by (nonlinear_arith)
            requires
                nr * nc <= nb,
                nr >= 0,
                nc >= 0,
                nb >= 0,
        ;
        assert(in_bounds(gr@, bottom_right(gr@)));
    }
    match dijkstra(&gr, v, (0, 0), (rows - 1, cols - 1)) {
        Some(c) => Ok(c),
        None => Err(SolveError::Unreachable),
    }
}

} // verus!
