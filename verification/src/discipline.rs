//! The movement discipline: which moves a path may make next, given the
//! direction and length of its current straight run.

use vstd::prelude::*;

use crate::dirs::Dir;

verus! {

/// The movement discipline a path must obey.
///
/// Both variants forbid reversing the previous move. `Basic` additionally
/// caps straight runs at 3 consecutive steps; `Ultra` caps them at 10 and
/// forbids turning before 4 consecutive steps in the current direction.
#[derive(Clone, Copy, Debug, PartialEq, Eq, Structural)]
pub enum Variant {
    Basic,
    Ultra,
}

impl Variant {
    /// Longest permitted straight run.
    pub open spec fn max_run(self) -> int {
        match self {
            Variant::Basic => 3,
            Variant::Ultra => 10,
        }
    }

    /// Shortest straight run after which a turn is permitted.
    pub open spec fn min_turn(self) -> int {
        match self {
            Variant::Basic => 1,
            Variant::Ultra => 4,
        }
    }

    /// Returns the longest permitted straight run.
    pub fn max_run_len(self) -> (r: u8)
        ensures
            r == self.max_run(),
    {
        match self {
            Variant::Basic => 3,
            Variant::Ultra => 10,
        }
    }
}

/// The mathematical value of a run state: the direction of the last move
/// and how many consecutive cells were traversed in it, or `None` before
/// any move.
pub open spec fn chain_view(ch: Option<(Dir, u8)>) -> Option<(Dir, int)> {
    match ch {
        Some((d, k)) => Some((d, k as int)),
        None => None,
    }
}

/// Whether a move in direction `d` is legal from run state `ch`.
pub open spec fn move_ok(v: Variant, ch: Option<(Dir, int)>, d: Dir) -> bool {
    match ch {
        Option::None => true,
        Option::Some((ld, k)) => d != ld.spec_rev() && (if d == ld {
            k < v.max_run()
        } else {
            k >= v.min_turn()
        }),
    }
}

/// The run state after a move in direction `d` from run state `ch`.
pub open spec fn chain_after(ch: Option<(Dir, int)>, d: Dir) -> (Dir, int) {
    match ch {
        Option::Some((ld, k)) => if d == ld {
            (d, k + 1)
        } else {
            (d, 1)
        },
        Option::None => (d, 1),
    }
}

/// Decides whether a move in direction `d` is legal from run state `ch`
/// and, if so, returns the new run state.
pub fn apply_move(v: Variant, ch: Option<(Dir, u8)>, d: Dir) -> (r: Option<(Dir, u8)>)
    requires
        match ch {
            Some((ld, k)) => 1 <= k <= v.max_run(),
            None => true,
        },
    ensures
        r is Some <==> move_ok(v, chain_view(ch), d),
        match r {
            Some((nd, nk)) => (nd, nk as int) == chain_after(chain_view(ch), d) && 1 <= nk
                <= v.max_run(),
            None => true,
        },
{
    match ch {
        None => Some((d, 1)),
        Some((ld, k)) => {
            if d == ld.rev() {
                None
            } else if d == ld {
                if k < v.max_run_len() {
                    Some((d, k + 1))
                } else {
                    None
                }
            } else {
                let can_turn = match v {
                    Variant::Basic => true,
                    Variant::Ultra => k >= 4,
                };
                if can_turn {
                    Some((d, 1))
                } else {
                    None
                }
            }
        },
    }
}

} // verus!
