//! The character grid of a schematic: the lines of a text, all of one width.

use crate::text::{lemma_line_end, line_end, to_chars};
use vstd::prelude::*;

verus! {

/// Why a text is no schematic.
#[derive(Debug, Clone, Copy, PartialEq, Eq)]
pub enum SchematicError {
    /// The text has no line.
    Empty,
    /// Two lines differ in length.
    Ragged,
    /// A run of digits is worth more than `u32::MAX`.
    NumberTooLarge,
}

/// The lines of `s` that begin at or after `from`, where `from` is the start
/// of a line. A line ends before a line feed or at the end of the text; a
/// line feed at the very end opens no further line.
pub open spec fn lines_from(s: Seq<char>, from: int) -> Seq<Seq<char>>
    decreases s.len() - from,
    via lines_from_terminates
{
    if 0 <= from < s.len() {
        let end = line_end(s, from);
        let rest = if end < s.len() {
            lines_from(s, end + 1)
        } else {
            Seq::empty()
        };
        seq![s.subrange(from, end)] + rest
    } else {
        Seq::empty()
    }
}

#[via_fn]
proof fn lines_from_terminates(s: Seq<char>, from: int) {
    if 0 <= from < s.len() {
        lemma_line_end(s, from);
    }
}

/// The lines of `s`.
pub open spec fn lines(s: Seq<char>) -> Seq<Seq<char>> {
    lines_from(s, 0)
}

/// A grid has at least one row, and its rows are equally long.
pub open spec fn rectangular(g: Seq<Seq<char>>) -> bool {
    &&& g.len() > 0
    &&& forall|y: int| 0 <= y < g.len() ==> (#[trigger] g[y]).len() == g[0].len()
}

/// The number of columns of a grid.
pub open spec fn grid_width(g: Seq<Seq<char>>) -> nat {
    g[0].len()
}

/// Whether column `x` of row `y` is a cell of the grid.
pub open spec fn in_grid(g: Seq<Seq<char>>, x: int, y: int) -> bool {
    0 <= y < g.len() && 0 <= x < g[y].len()
}

/// The rows held by a vector of vectors.
pub open spec fn rows_of(rows: Seq<Vec<char>>) -> Seq<Seq<char>> {
    Seq::new(rows.len(), |y: int| rows[y]@)
}

/// One more row of `width` cells adds `width` cells.
proof fn lemma_one_more_row(rows: int, width: int)
    ensures
        (rows + 1) * width == rows * width + width,
{
    assert((rows + 1) * width == rows * width + width) by (nonlinear_arith);
}

/// Adds `row` below `rows` if it is as long as they are.
fn add_row(rows: &mut Vec<Vec<char>>, row: Vec<char>) -> (fits: bool)
    ensures
        fits == (old(rows).len() == 0 || row.len() == old(rows)@[0].len()),
        fits ==> final(rows)@ == old(rows)@.push(row),
        !fits ==> final(rows)@ == old(rows)@,
{
    if rows.len() == 0 || row.len() == rows[0].len() {
        rows.push(row);
        true
    } else {
        false
    }
}

/// A rectangular grid of characters.
#[derive(Debug)]
pub struct Grid {
    rows: Vec<Vec<char>>,
}

impl View for Grid {
    type V = Seq<Seq<char>>;

    closed spec fn view(&self) -> Seq<Seq<char>> {
        rows_of(self.rows@)
    }
}

impl Grid {
    /// What holds of every grid: it is rectangular and its cells can be counted.
    #[verifier::type_invariant]
    pub closed spec fn inv(&self) -> bool {
        &&& rectangular(rows_of(self.rows@))
        &&& self.rows.len() * self.rows@[0].len() <= usize::MAX
    }

    /// The shape that the invariant gives to the rows.
    pub proof fn lemma_shape(&self)
        requires
            self.inv(),
        ensures
            rectangular(self@),
            self@.len() * grid_width(self@) <= usize::MAX,
    {
    }

    /// Splits `input` into lines and takes them as the rows of a grid. There
    /// is no grid where the text is empty or its lines differ in length.
    pub fn parse(input: &str) -> (r: Result<Grid, SchematicError>)
        ensures
            match r {
                Ok(g) => g@ == lines(input@) && rectangular(g@),
                Err(SchematicError::Empty) => input@.len() == 0,
                Err(SchematicError::Ragged) => input@.len() > 0 && !rectangular(lines(input@)),
                Err(SchematicError::NumberTooLarge) => false,
            },
    {
        let chars = to_chars(input);
        let n = chars.len();
        if n == 0 {
            return Err(SchematicError::Empty);
        }
        let ghost s = chars@;
        let mut rows: Vec<Vec<char>> = Vec::new();
        let mut row: Vec<char> = Vec::new();
        let mut start: usize = 0;
        let mut i: usize = 0;
        while i < n
            invariant
                s == chars@,
                s == input@,
                n == s.len(),
                0 <= start <= i <= n,
                lines(s) == rows_of(rows@) + lines_from(s, start as int),
                row@ == s.subrange(start as int, i as int),
                line_end(s, start as int) == line_end(s, i as int),
                forall|y: int|
                    0 <= y < rows.len() ==> (#[trigger] rows@[y]).len() == rows@[0].len(),
                rows.len() > 0 ==> rows.len() * rows@[0].len() + rows.len() <= start,
            decreases n - i,
        {
            let c = chars[i];
            if c == '\n' {
                proof {
                    lemma_line_end(s, start as int);
                    lemma_line_end(s, i as int);
                    lemma_one_more_row(rows.len() as int, row.len() as int);
                    if rows.len() > 0 {
                        assert(lines(s)[rows.len() as int] == row@);
                    }
                }
                if !add_row(&mut rows, row) {
                    return Err(SchematicError::Ragged);
                }
                row = Vec::new();
                start = i + 1;
            } else {
                row.push(c);
            }
            i += 1;
        }
        if start < n {
            proof {
                lemma_one_more_row(rows.len() as int, row.len() as int);
                if rows.len() > 0 {
                    assert(lines(s)[rows.len() as int] == row@);
                }
            }
            if !add_row(&mut rows, row) {
                return Err(SchematicError::Ragged);
            }
        }
        proof {
            assert(lines(s).len() > 0);
        }
        Ok(Grid { rows })
    }

    /// The number of columns.
    pub fn width(&self) -> (r: usize)
        ensures
            r == grid_width(self@),
    {
        proof {
            use_type_invariant(self);
        }
        self.rows[0].len()
    }

    /// The number of rows.
    pub fn height(&self) -> (r: usize)
        ensures
            r == self@.len(),
    {
        self.rows.len()
    }

    /// The character in column `x` of row `y`.
    pub fn cell(&self, x: usize, y: usize) -> (r: char)
        requires
            in_grid(self@, x as int, y as int),
        ensures
            r == self@[y as int][x as int],
    {
        self.rows[y][x]
    }
}

} // verus!
