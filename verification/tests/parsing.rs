use crucible::dirs::Dir;
use crucible::grid::Grid;
use crucible::util::{bounded_offset, offset, to_digit, wrapping_offset};

#[test]
fn load_accepts_rectangular_digits() {
    let g = Grid::load("123\n456\n").unwrap();
    assert_eq!(g.rows(), 2);
    assert_eq!(g.cols(), 3);
    assert_eq!(g.entry_cost((0, 0)), 1);
    assert_eq!(g.entry_cost((0, 2)), 3);
    assert_eq!(g.entry_cost((1, 1)), 5);
}

#[test]
fn load_accepts_missing_trailing_newline() {
    let g = Grid::load("19\n91").unwrap();
    assert_eq!(g.rows(), 2);
    assert_eq!(g.cols(), 2);
    assert_eq!(g.entry_cost((1, 0)), 9);
}

#[test]
fn load_rejects_empty_input() {
    assert!(Grid::load("").is_err());
}

#[test]
fn load_rejects_blank_line() {
    assert!(Grid::load("12\n\n34\n").is_err());
    assert!(Grid::load("\n12\n").is_err());
}

#[test]
fn load_rejects_ragged_rows() {
    assert!(Grid::load("123\n45\n").is_err());
    assert!(Grid::load("12\n345\n").is_err());
}

#[test]
fn load_rejects_non_digit() {
    assert!(Grid::load("12a\n456\n").is_err());
    assert!(Grid::load("123\n4x6\n").is_err());
    assert!(Grid::load("1 3\n456\n").is_err());
    // a carriage return is not a digit either
    assert!(Grid::load("12\r\n34\r\n").is_err());
}

#[test]
fn parse_bytes_matches_load() {
    let g = Grid::parse_bytes(b"55\n55\n").unwrap();
    assert_eq!(g.rows(), 2);
    assert_eq!(g.entry_cost((1, 1)), 5);
    assert!(Grid::parse_bytes(b"5a\n55\n").is_err());
}

#[test]
fn step_stays_on_grid() {
    let g = Grid::load("12\n34\n").unwrap();
    assert_eq!(g.step((0, 0), Dir::Right), Some(((0, 1), 2)));
    assert_eq!(g.step((0, 0), Dir::Down), Some(((1, 0), 3)));
    assert_eq!(g.step((0, 0), Dir::Up), None);
    assert_eq!(g.step((0, 0), Dir::Left), None);
    assert_eq!(g.step((1, 1), Dir::Down), None);
    assert_eq!(g.step((1, 1), Dir::Right), None);
}

#[test]
fn offset_moves_and_rejects_underflow() {
    assert_eq!(offset((2, 3), (1, -1)), Some((3, 2)));
    assert_eq!(offset((2, 3), (0, 0)), Some((2, 3)));
    assert_eq!(offset((0, 3), (-1, 0)), None);
    assert_eq!(offset((2, 0), (0, -1)), None);
    assert_eq!(offset((0, 0), (-1, -1)), None);
}

#[test]
fn bounded_offset_respects_size() {
    let size = (3, 4);
    assert_eq!(bounded_offset((2, 3), (0, 0), size), Some((2, 3)));
    assert_eq!(bounded_offset((2, 3), (1, 0), size), None);
    assert_eq!(bounded_offset((2, 3), (0, 1), size), None);
    assert_eq!(bounded_offset((1, 1), (1, 2), size), Some((2, 3)));
    assert_eq!(bounded_offset((0, 0), (-1, 0), size), None);
}

#[test]
fn wrapping_offset_wraps_both_edges() {
    let size = (3, 4);
    assert_eq!(wrapping_offset((0, 0), (-1, -1), size), (2, 3));
    assert_eq!(wrapping_offset((2, 3), (1, 1), size), (0, 0));
    assert_eq!(wrapping_offset((1, 2), (0, 0), size), (1, 2));
    assert_eq!(wrapping_offset((1, 2), (1, -2), size), (2, 0));
}

#[test]
fn to_digit_reads_characters_and_words() {
    assert_eq!(to_digit("0"), 0);
    assert_eq!(to_digit("1"), 1);
    assert_eq!(to_digit("2"), 2);
    assert_eq!(to_digit("3"), 3);
    assert_eq!(to_digit("4"), 4);
    assert_eq!(to_digit("5"), 5);
    assert_eq!(to_digit("6"), 6);
    assert_eq!(to_digit("7"), 7);
    assert_eq!(to_digit("8"), 8);
    assert_eq!(to_digit("9"), 9);
    assert_eq!(to_digit("zero"), 0);
    assert_eq!(to_digit("one"), 1);
    assert_eq!(to_digit("two"), 2);
    assert_eq!(to_digit("three"), 3);
    assert_eq!(to_digit("four"), 4);
    assert_eq!(to_digit("five"), 5);
    assert_eq!(to_digit("six"), 6);
    assert_eq!(to_digit("seven"), 7);
    assert_eq!(to_digit("eight"), 8);
    assert_eq!(to_digit("nine"), 9);
}
