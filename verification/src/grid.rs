//! The grid of per-cell entry costs and the parser for its text form.

use vstd::prelude::*;

use crate::dirs::Dir;
use crate::util::bounded_offset;

verus! {

use vstd::string::StringSliceAdditionalSpecFns;

/// A position on the grid, in mathematical coordinates.
pub type Pos = (int, int);

/// Well-formedness of a grid value: at least one row, at least one column,
/// rectangular, and every entry cost at most 9.
pub open spec fn grid_wf(g: Seq<Seq<u8>>) -> bool {
    &&& g.len() >= 1
    &&& g[0].len() >= 1
    &&& forall|i: int| 0 <= i < g.len() ==> (#[trigger] g[i]).len() == g[0].len()
    &&& forall|i: int, j: int|
        0 <= i < g.len() && 0 <= j < g[0].len() ==> (#[trigger] g[i][j]) <= 9
}

/// Whether a position lies on the grid.
pub open spec fn in_bounds(g: Seq<Seq<u8>>, p: Pos) -> bool {
    0 <= p.0 < g.len() && 0 <= p.1 < g[0].len()
}

/// The cost paid when a path steps onto position `p`.
pub open spec fn cost_at(g: Seq<Seq<u8>>, p: Pos) -> int {
    g[p.0][p.1] as int
}

/// The position one step in direction `d` from `p`.
pub open spec fn step_of(p: Pos, d: Dir) -> Pos {
    (p.0 + d.drow(), p.1 + d.dcol())
}

/// Index of the first newline byte in `bytes`, or `bytes.len()` when there
/// is none.
pub open spec fn first_nl(bytes: Seq<u8>) -> int
    decreases bytes.len(),
{
    if bytes.len() == 0 {
        0
    } else if bytes[0] == 10u8 {
        0
    } else {
        1 + first_nl(bytes.drop_first())
    }
}

/// The lines of `bytes`: the maximal newline-free runs between newline
/// bytes. A trailing newline adds no empty final line.
pub open spec fn split_lines(bytes: Seq<u8>) -> Seq<Seq<u8>>
    decreases bytes.len(),
    via split_lines_dec
{
    if bytes.len() == 0 {
        Seq::empty()
    } else {
        let i = first_nl(bytes);
        if i == bytes.len() {
            seq![bytes]
        } else {
            seq![bytes.take(i)] + split_lines(bytes.skip(i + 1))
        }
    }
}

#[via_fn]
proof fn split_lines_dec(bytes: Seq<u8>) {
    lemma_first_nl(bytes);
}

/// Basic facts about `first_nl`: it points at the first newline, or at the
/// end when there is none.
pub proof fn lemma_first_nl(bytes: Seq<u8>)
    ensures
        0 <= first_nl(bytes) <= bytes.len(),
        first_nl(bytes) < bytes.len() ==> bytes[first_nl(bytes)] == 10u8,
        forall|t: int| 0 <= t < first_nl(bytes) ==> bytes[t] != 10u8,
    decreases bytes.len(),
{
    if bytes.len() > 0 && bytes[0] != 10u8 {
        lemma_first_nl(bytes.drop_first());
        assert forall|t: int| 0 <= t < first_nl(bytes) implies bytes[t] != 10u8 by {
            if t > 0 {
                assert(bytes.drop_first()[t - 1] != 10u8);
            }
        }
    }
}

/// `first_nl` is pinned down by a scan that saw no newline before `j` and
/// either a newline at `j` or the end of the input.
pub proof fn lemma_first_nl_is(bytes: Seq<u8>, j: int)
    requires
        0 <= j <= bytes.len(),
        forall|t: int| 0 <= t < j ==> bytes[t] != 10u8,
        j == bytes.len() || bytes[j] == 10u8,
    ensures
        first_nl(bytes) == j,
    decreases bytes.len(),
{
    if bytes.len() > 0 && bytes[0] != 10u8 {
        assert forall|t: int| 0 <= t < j - 1 implies bytes.drop_first()[t] != 10u8 by {
            assert(bytes[t + 1] != 10u8);
        }
        lemma_first_nl_is(bytes.drop_first(), j - 1);
    }
}

/// Splits off the first line: a scan of `bytes` from `i` to `j` that saw
/// no newline identifies `bytes[i..j]` as the next line of the remainder.
pub proof fn lemma_line_extract(bytes: Seq<u8>, i: int, j: int)
    requires
        0 <= i <= j <= bytes.len(),
        i < bytes.len(),
        forall|t: int| i <= t < j ==> bytes[t] != 10u8,
        j == bytes.len() || bytes[j] == 10u8,
    ensures
        split_lines(bytes.skip(i)) == seq![bytes.subrange(i, j)] + (if j < bytes.len() {
            split_lines(bytes.skip(j + 1))
        } else {
            Seq::<Seq<u8>>::empty()
        }),
{
    let tail = bytes.skip(i);
    assert forall|t: int| 0 <= t < j - i implies tail[t] != 10u8 by {
        assert(bytes[t + i] != 10u8);
    }
    lemma_first_nl_is(tail, j - i);
    assert(tail.take(j - i) =~= bytes.subrange(i, j));
    if j < bytes.len() {
        assert(tail.skip(j - i + 1) =~= bytes.skip(j + 1));
        assert(split_lines(tail) == seq![tail.take(j - i)] + split_lines(tail.skip(j - i + 1)));
    } else {
        assert(j - i == tail.len());
        assert(tail.take(j - i) =~= tail);
        assert(split_lines(tail) == seq![tail]);
        assert(seq![bytes.subrange(i, j)] + Seq::<Seq<u8>>::empty() =~= seq![bytes.subrange(i, j)]);
    }
}

/// Whether a byte is a decimal digit character.
pub open spec fn is_digit_byte(b: u8) -> bool {
    48 <= b <= 57
}

/// The value of a digit byte.
pub open spec fn digit_val(b: u8) -> u8 {
    (b - 48) as u8
}

/// Whether a line is a usable grid row: nonempty, digits only.
pub open spec fn row_ok(l: Seq<u8>) -> bool {
    l.len() >= 1 && forall|j: int| 0 <= j < l.len() ==> is_digit_byte(#[trigger] l[j])
}

/// Whether `bytes` is a well-formed grid text: at least one line, every
/// line a nonempty run of digits, all lines equally long.
pub open spec fn grid_text_ok(bytes: Seq<u8>) -> bool {
    let ls = split_lines(bytes);
    &&& ls.len() >= 1
    &&& forall|i: int|
        0 <= i < ls.len() ==> row_ok(#[trigger] ls[i]) && ls[i].len() == ls[0].len()
}

/// The grid a well-formed grid text denotes: each line, digit by digit.
pub open spec fn grid_of_text(bytes: Seq<u8>) -> Seq<Seq<u8>> {
    split_lines(bytes).map_values(|l: Seq<u8>| l.map_values(|b: u8| digit_val(b)))
}

/// Rejection of a malformed grid text: ragged or empty rows, characters
/// other than digits, or no rows at all.
#[derive(Clone, Copy, Debug, PartialEq, Eq, Structural)]
pub struct ParseError;

/// A non-digit byte inside a line makes the whole text malformed.
proof fn lemma_bad_byte(bytes: Seq<u8>, raw: Seq<Seq<u8>>, i: int, j: int)
    requires
        split_lines(bytes) == raw + split_lines(bytes.skip(i)),
        0 <= i <= j < bytes.len(),
        forall|t: int| i <= t <= j ==> bytes[t] != 10u8,
        !is_digit_byte(bytes[j]),
    ensures
        !grid_text_ok(bytes),
{
    let tail = bytes.skip(i);
    assert forall|t: int| 0 <= t <= j - i implies tail[t] != 10u8 by {
        assert(bytes[t + i] != 10u8);
    }
    lemma_first_nl(tail);
    let fnl = first_nl(tail);
    assert(fnl > j - i);
    let line = split_lines(tail)[0];
    if fnl == tail.len() {
        assert(line == tail);
    } else {
        assert(line == tail.take(fnl));
    }
    assert(line.len() > j - i);
    assert(line[j - i] == bytes[j]);
    assert(!row_ok(line));
    let k = raw.len() as int;
    assert(split_lines(bytes)[k] == line);
    assert(!grid_text_ok(bytes));
}

/// A line whose length differs from the first line's makes the text
/// malformed (this covers empty lines after the first as well).
proof fn lemma_ragged(bytes: Seq<u8>, raw: Seq<Seq<u8>>, i: int, j: int)
    requires
        split_lines(bytes) == raw + split_lines(bytes.skip(i)),
        0 <= i <= j <= bytes.len(),
        i < bytes.len(),
        forall|t: int| i <= t < j ==> bytes[t] != 10u8,
        j == bytes.len() || bytes[j] == 10u8,
        raw.len() >= 1,
        bytes.subrange(i, j).len() != raw[0].len(),
    ensures
        !grid_text_ok(bytes),
{
    lemma_line_extract(bytes, i, j);
    let line = bytes.subrange(i, j);
    let k = raw.len() as int;
    assert(split_lines(bytes)[k] == line);
    assert(split_lines(bytes)[0] == raw[0]);
    assert(!grid_text_ok(bytes));
}

/// An empty first line makes the text malformed.
proof fn lemma_empty_first(bytes: Seq<u8>, i: int, j: int)
    requires
        split_lines(bytes) == Seq::<Seq<u8>>::empty() + split_lines(bytes.skip(i)),
        0 <= i <= j <= bytes.len(),
        i < bytes.len(),
        forall|t: int| i <= t < j ==> bytes[t] != 10u8,
        j == bytes.len() || bytes[j] == 10u8,
        j == i,
    ensures
        !grid_text_ok(bytes),
{
    lemma_line_extract(bytes, i, j);
    let line = bytes.subrange(i, j);
    assert(line.len() == 0);
    assert(split_lines(bytes)[0] == line);
    assert(!row_ok(line));
    assert(!grid_text_ok(bytes));
}

/// A rectangular grid of per-cell entry costs, each a digit 0 to 9.
///
/// Values are only ever built by [`Grid::load`], which establishes
/// [`grid_wf`] of the view.
pub struct Grid {
    cells: Vec<Vec<u8>>,
}

impl View for Grid {
    type V = Seq<Seq<u8>>;

    closed spec fn view(&self) -> Seq<Seq<u8>> {
        self.cells.deep_view()
    }
}

impl Grid {
    /// Parses a grid text given as raw bytes: newline-separated lines of
    /// equal length, one digit character per cell, at least one line. A
    /// trailing newline is accepted; any other irregularity is rejected.
    #[verifier::loop_isolation(false)]
    #[verifier::rlimit(60)]
    pub fn parse_bytes(bytes: &[u8]) -> (r: Result<Grid, ParseError>)
        ensures
            match r {
                Ok(gr) => {
                    &&& grid_text_ok(bytes@)
                    &&& gr@ == grid_of_text(bytes@)
                    &&& grid_wf(gr@)
                    &&& gr@.len() * gr@[0].len() <= bytes@.len()
                },
                Err(_) => !grid_text_ok(bytes@),
            },
    {
        let n = bytes.len();
        let mut cells: Vec<Vec<u8>> = Vec::new();
        let mut ncols: usize = 0;
        let ghost mut raw: Seq<Seq<u8>> = Seq::empty();
        let mut i: usize = 0;
        proof {
            assert(bytes@.skip(0) =~= bytes@);
            assert(raw + split_lines(bytes@) =~= split_lines(bytes@));
        }
        while i < n
            invariant
                i <= n,
                split_lines(bytes@) == raw + split_lines(bytes@.skip(i as int)),
                raw.len() == cells@.len(),
                cells@.len() == 0 ==> i == 0 && raw.len() == 0,
                cells@.len() > 0 ==> ncols == raw[0].len() && ncols >= 1,
                forall|k: int|
                    0 <= k < raw.len() ==> row_ok(#[trigger] raw[k]) && raw[k].len() == ncols,
                forall|k: int|
                    0 <= k < raw.len() ==> (#[trigger] cells@[k])@ == raw[k].map_values(
                        |b: u8| digit_val(b),
                    ),
                cells@.len() * ncols <= i,
            decreases n - i,
        {
            let mut j = i;
            let mut row: Vec<u8> = Vec::new();
            proof {
                assert(row@ =~= bytes@.subrange(i as int, i as int).map_values(
                    |b: u8| digit_val(b),
                ));
            }
            while j < n && bytes[j] != 10
                invariant
                    i <= j <= n,
                    forall|t: int| i <= t < j ==> bytes@[t] != 10u8 && is_digit_byte(bytes@[t]),
                    row@ == bytes@.subrange(i as int, j as int).map_values(|b: u8| digit_val(b)),
                decreases n - j,
            {
                let b = bytes[j];
                if b < 48 || b > 57 {
                    proof {
                        lemma_bad_byte(bytes@, raw, i as int, j as int);
                    }
                    return Err(ParseError);
                }
                row.push(b - 48);
                proof {
                    assert(bytes@.subrange(i as int, j as int + 1) =~= bytes@.subrange(
                        i as int,
                        j as int,
                    ).push(bytes@[j as int]));
                    assert(row@ =~= bytes@.subrange(i as int, j as int + 1).map_values(
                        |b: u8| digit_val(b),
                    ));
                }
                j = j + 1;
            }
            let ghost line = bytes@.subrange(i as int, j as int);
            proof {
                lemma_line_extract(bytes@, i as int, j as int);
                assert(row@.len() == line.len());
            }
            if cells.len() == 0 {
                if row.len() == 0 {
                    proof {
                        assert(raw =~= Seq::<Seq<u8>>::empty());
                        lemma_empty_first(bytes@, i as int, j as int);
                    }
                    return Err(ParseError);
                }
                ncols = row.len();
            } else if row.len() != ncols {
                proof {
                    lemma_ragged(bytes@, raw, i as int, j as int);
                }
                return Err(ParseError);
            }
            cells.push(row);
            proof {
                raw = raw.push(line);
                assert(row_ok(line));
                // re-establish the line decomposition at the new cursor
                if j < n {
                    assert(raw + (seq![line] + split_lines(bytes@.skip(j as int + 1)))
                        =~= raw.push(line) + split_lines(bytes@.skip(j as int + 1)));
                } else {
                    assert(bytes@.skip(n as int) =~= Seq::<u8>::empty());
                    assert(split_lines(bytes@.skip(n as int)) =~= Seq::<Seq<u8>>::empty());
                    assert(raw + (seq![line] + Seq::<Seq<u8>>::empty()) =~= raw.push(line)
                        + split_lines(bytes@.skip(n as int)));
                }
                assert(ncols == j - i);
                let lnew = cells@.len() as int;
                assert(lnew * ncols == (lnew - 1) * ncols + ncols) by (nonlinear_arith);
                if lnew == 1 {
                    assert((lnew - 1) * ncols == 0) by (nonlinear_arith)
                        requires
                            lnew == 1,
                    ;
                }
                assert(lnew * ncols <= j);
            }
            i = if j < n {
                j + 1
            } else {
                n
            };
        }
        if cells.len() == 0 {
            proof {
                assert(bytes@.skip(n as int) =~= Seq::<u8>::empty());
                assert(split_lines(bytes@) =~= Seq::<Seq<u8>>::empty());
            }
            return Err(ParseError);
        }
        let gr = Grid { cells };
        proof {
            assert(bytes@.skip(n as int) =~= Seq::<u8>::empty());
            assert(split_lines(bytes@) =~= raw);
            assert(grid_text_ok(bytes@));
            assert forall|k: int| 0 <= k < raw.len() implies gr@[k] == grid_of_text(bytes@)[
                k
            ] by {
                assert(gr@[k] =~= gr.cells@[k]@);
                assert(gr.cells@[k]@ == raw[k].map_values(|b: u8| digit_val(b)));
            }
            assert(gr@ =~= grid_of_text(bytes@));
            assert forall|k: int, l: int|
                0 <= k < gr@.len() && 0 <= l < gr@[0].len() implies (#[trigger] gr@[k][l])
                <= 9 by {
                assert(is_digit_byte(raw[k][l]));
                assert(gr@[k][l] == digit_val(raw[k][l]));
            }
            assert(grid_wf(gr@));
        }
        Ok(gr)
    }

    /// Parses a grid text. See [`Grid::parse_bytes`]; the text is read
    /// byte for byte.
    pub fn load(text: &str) -> (r: Result<Grid, ParseError>)
        ensures
            match r {
                Ok(gr) => {
                    &&& grid_text_ok(text.spec_bytes())
                    &&& gr@ == grid_of_text(text.spec_bytes())
                    &&& grid_wf(gr@)
                    &&& gr@.len() * gr@[0].len() <= text.spec_bytes().len()
                },
                Err(_) => !grid_text_ok(text.spec_bytes()),
            },
    {
        Grid::parse_bytes(text.as_bytes())
    }

    /// Number of rows.
    pub fn rows(&self) -> (r: usize)
        ensures
            r == self@.len(),
    {
        self.cells.len()
    }

    /// Number of columns.
    pub fn cols(&self) -> (r: usize)
        requires
            grid_wf(self@),
        ensures
            r == self@[0].len(),
    {
        self.cells[0].len()
    }

    /// The cost paid when a path steps onto `pos`.
    pub fn entry_cost(&self, pos: (usize, usize)) -> (c: u8)
        requires
            grid_wf(self@),
            in_bounds(self@, (pos.0 as int, pos.1 as int)),
        ensures
            c == cost_at(self@, (pos.0 as int, pos.1 as int)),
            c <= 9,
    {
        proof {
            assert(self@.len() == self.cells@.len());
            assert(self@[pos.0 as int] == self.cells@[pos.0 as int].deep_view());
        }
        let row: &Vec<u8> = &self.cells[pos.0];
        row[pos.1]
    }

    /// Moves one step in direction `d` from `pos`, returning the new
    /// position and its entry cost, or `None` when the step would leave
    /// the grid.
    pub fn step(&self, pos: (usize, usize), d: Dir) -> (r: Option<((usize, usize), u8)>)
        requires
            grid_wf(self@),
            in_bounds(self@, (pos.0 as int, pos.1 as int)),
        ensures
            match r {
                Some((q, c)) => {
                    &&& in_bounds(self@, step_of((pos.0 as int, pos.1 as int), d))
                    &&& (q.0 as int, q.1 as int) == step_of((pos.0 as int, pos.1 as int), d)
                    &&& c == cost_at(self@, step_of((pos.0 as int, pos.1 as int), d))
                    &&& c <= 9
                },
                None => !in_bounds(self@, step_of((pos.0 as int, pos.1 as int), d)),
            },
    {
        let size = (self.rows(), self.cols());
        match bounded_offset(pos, d.delta(), size) {
            Some(q) => {
                let c = self.entry_cost(q);
                Some((q, c))
            },
            None => None,
        }
    }
}

} // verus!
