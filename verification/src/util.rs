//! Small helpers: coordinate offsets and digit names.

use vstd::prelude::*;

verus! {

/// Moves a (row, column) position by a signed displacement, or returns
/// `None` when a coordinate would leave the `usize` range.
pub fn offset(pos: (usize, usize), delta: (isize, isize)) -> (r: Option<(usize, usize)>)
    ensures
        match r {
            Some(q) => q.0 == pos.0 + delta.0 && q.1 == pos.1 + delta.1,
            None => !(0 <= pos.0 + delta.0 <= usize::MAX && 0 <= pos.1 + delta.1 <= usize::MAX),
        },
{
    match (pos.0.checked_add_signed(delta.0), pos.1.checked_add_signed(delta.1)) {
        (Some(a), Some(b)) => Some((a, b)),
        _ => None,
    }
}

/// Moves a (row, column) position by a signed displacement, or returns
/// `None` when the result would fall outside a `size.0` by `size.1` grid.
pub fn bounded_offset(pos: (usize, usize), delta: (isize, isize), size: (usize, usize)) -> (r:
    Option<(usize, usize)>)
    ensures
        match r {
            Some(q) => q.0 == pos.0 + delta.0 && q.1 == pos.1 + delta.1 && q.0 < size.0 && q.1
                < size.1,
            None => !(0 <= pos.0 + delta.0 < size.0 && 0 <= pos.1 + delta.1 < size.1),
        },
{
    match offset(pos, delta) {
        Some(q) => if q.0 < size.0 && q.1 < size.1 {
            Some(q)
        } else {
            None
        },
        None => None,
    }
}

/// Moves a (row, column) position by a signed displacement on a torus of
/// `size.0` by `size.1` cells, wrapping around the edges. Displacements
/// are expected to be small against the grid: each coordinate is shifted
/// by one grid size before the displacement is added, so that the sum
/// stays nonnegative, and is then reduced modulo the grid size.
pub fn wrapping_offset(pos: (usize, usize), delta: (isize, isize), size: (usize, usize)) -> (r: (
    usize,
    usize,
))
    requires
        size.0 >= 1,
        size.1 >= 1,
        pos.0 + size.0 <= usize::MAX,
        pos.1 + size.1 <= usize::MAX,
        0 <= pos.0 + size.0 + delta.0 <= usize::MAX,
        0 <= pos.1 + size.1 + delta.1 <= usize::MAX,
    ensures
        r.0 == (pos.0 + size.0 + delta.0) % (size.0 as int),
        r.1 == (pos.1 + size.1 + delta.1) % (size.1 as int),
{
    let a = (pos.0 + size.0).checked_add_signed(delta.0).unwrap();
    let b = (pos.1 + size.1).checked_add_signed(delta.1).unwrap();
    (a % size.0, b % size.1)
}

/// The value named by a decimal digit written either as its character or as
/// an English word, or `None` for any other string.
pub open spec fn spec_digit_name(s: Seq<char>) -> Option<u32> {
    if s == "0"@ || s == "zero"@ {
        Some(0u32)
    } else if s == "1"@ || s == "one"@ {
        Some(1u32)
    } else if s == "2"@ || s == "two"@ {
        Some(2u32)
    } else if s == "3"@ || s == "three"@ {
        Some(3u32)
    } else if s == "4"@ || s == "four"@ {
        Some(4u32)
    } else if s == "5"@ || s == "five"@ {
        Some(5u32)
    } else if s == "6"@ || s == "six"@ {
        Some(6u32)
    } else if s == "7"@ || s == "seven"@ {
        Some(7u32)
    } else if s == "8"@ || s == "eight"@ {
        Some(8u32)
    } else if s == "9"@ || s == "nine"@ {
        Some(9u32)
    } else {
        None
    }
}

/// Converts a digit written as a character or as an English word to its
/// value. Callers must pass one of the twenty recognised spellings.
pub fn to_digit(s: &str) -> (d: u32)
    requires
        spec_digit_name(s@) is Some,
    ensures
        Some(d) == spec_digit_name(s@),
{
    proof {
        reveal_strlit("0");
        reveal_strlit("1");
        reveal_strlit("2");
        reveal_strlit("3");
        reveal_strlit("4");
        reveal_strlit("5");
        reveal_strlit("6");
        reveal_strlit("7");
        reveal_strlit("8");
        reveal_strlit("9");
        reveal_strlit("zero");
        reveal_strlit("one");
        reveal_strlit("two");
        reveal_strlit("three");
        reveal_strlit("four");
        reveal_strlit("five");
        reveal_strlit("six");
        reveal_strlit("seven");
        reveal_strlit("eight");
        reveal_strlit("nine");
    }
    let n = s.unicode_len();
    let c0 = s.get_char(0);
    if n == 1 {
        if c0 == '0' {
            0
        } else if c0 == '1' {
            1
        } else if c0 == '2' {
            2
        } else if c0 == '3' {
            3
        } else if c0 == '4' {
            4
        } else if c0 == '5' {
            5
        } else if c0 == '6' {
            6
        } else if c0 == '7' {
            7
        } else if c0 == '8' {
            8
        } else {
            9
        }
    } else if n == 3 {
        if c0 == 'o' {
            1
        } else if c0 == 't' {
            2
        } else {
            6
        }
    } else if n == 4 {
        if c0 == 'z' {
            0
        } else if c0 == 'n' {
            9
        } else {
            let c1 = s.get_char(1);
            if c1 == 'o' {
                4
            } else {
                5
            }
        }
    } else {
        if c0 == 't' {
            3
        } else if c0 == 's' {
            7
        } else {
            8
        }
    }
}

} // verus!
