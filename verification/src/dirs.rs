//! The four unit move directions and their fixed numbering.

use vstd::prelude::*;

verus! {

/// One of the four unit moves on the grid.
#[derive(Clone, Copy, Debug, PartialEq, Eq, Structural)]
pub enum Dir {
    Up,
    Down,
    Left,
    Right,
}

impl Dir {
    /// Row displacement of one step in this direction.
    pub open spec fn drow(self) -> int {
        match self {
            Dir::Up => -1,
            Dir::Down => 1,
            Dir::Left => 0,
            Dir::Right => 0,
        }
    }

    /// Column displacement of one step in this direction.
    pub open spec fn dcol(self) -> int {
        match self {
            Dir::Up => 0,
            Dir::Down => 0,
            Dir::Left => -1,
            Dir::Right => 1,
        }
    }

    /// The opposite direction.
    pub open spec fn spec_rev(self) -> Dir {
        match self {
            Dir::Up => Dir::Down,
            Dir::Down => Dir::Up,
            Dir::Left => Dir::Right,
            Dir::Right => Dir::Left,
        }
    }

    /// Returns the opposite direction.
    pub fn rev(self) -> (r: Dir)
        ensures
            r == self.spec_rev(),
    {
        match self {
            Dir::Up => Dir::Down,
            Dir::Down => Dir::Up,
            Dir::Left => Dir::Right,
            Dir::Right => Dir::Left,
        }
    }

    /// A fixed numbering of the four directions, used to pack search states
    /// into array indices.
    pub open spec fn spec_index_of(self) -> int {
        match self {
            Dir::Up => 0,
            Dir::Down => 1,
            Dir::Left => 2,
            Dir::Right => 3,
        }
    }

    /// Returns this direction's fixed number (0 to 3).
    pub fn index_of(self) -> (r: usize)
        ensures
            r == self.spec_index_of(),
    {
        match self {
            Dir::Up => 0,
            Dir::Down => 1,
            Dir::Left => 2,
            Dir::Right => 3,
        }
    }

    /// The direction with the given number; inverse of `index_of`.
    pub fn from_index(k: usize) -> (r: Dir)
        requires
            k < 4,
        ensures
            r.spec_index_of() == k,
    {
        if k == 0 {
            Dir::Up
        } else if k == 1 {
            Dir::Down
        } else if k == 2 {
            Dir::Left
        } else {
            Dir::Right
        }
    }

    /// The (row, column) displacement of one step in this direction.
    pub fn delta(self) -> (d: (isize, isize))
        ensures
            d.0 == self.drow(),
            d.1 == self.dcol(),
    {
        match self {
            Dir::Up => (-1, 0),
            Dir::Down => (1, 0),
            Dir::Left => (0, -1),
            Dir::Right => (0, 1),
        }
    }
}

} // verus!
