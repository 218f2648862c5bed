//! The schematic analyzer: the numbers of a grid that stand next to a symbol.
//!
//! A run is a longest stretch of digits in one row. A symbol is ASCII
//! punctuation other than the full stop. A run is beside every cell of the
//! box that reaches one cell beyond it in each of the eight directions.

use crate::grid::{grid_width, in_grid, lines, rectangular, Grid, SchematicError};
use crate::parts::{with_adjacent, Part, PartMap, PartView};
use crate::scan::{
    lemma_nothing_so_far, lemma_scan_done, lemma_scan_next_row, lemma_scan_other, lemma_scan_run,
    part_so_far, parts_so_far, scanned,
};
use crate::text::{
    checked_u32, decimal_value, digit_of, is_ascii_punctuation, is_decimal, is_digit,
    is_punctuation, lemma_sum_to_grows, sum_to,
};
use vstd::prelude::*;

verus! {

/// Whether `c` is a symbol.
pub open spec fn is_symbol(c: char) -> bool {
    c != '.' && is_punctuation(c)
}

/// Whether the grid has a symbol in column `x` of row `y`.
pub open spec fn symbol_at(g: Seq<Seq<char>>, x: int, y: int) -> bool {
    in_grid(g, x, y) && is_symbol(g[y][x])
}

/// Whether a run begins in column `x` of `row`.
pub open spec fn run_start(row: Seq<char>, x: int) -> bool {
    &&& 0 <= x < row.len()
    &&& is_digit(row[x])
    &&& (x == 0 || !is_digit(row[x - 1]))
}

/// The column after the last of the digits that begin in column `x`.
pub open spec fn run_end(row: Seq<char>, x: int) -> int
    decreases row.len() - x,
{
    if 0 <= x < row.len() && is_digit(row[x]) {
        run_end(row, x + 1)
    } else {
        x
    }
}

/// The number written by the digits that begin in column `x`.
pub open spec fn run_value(row: Seq<char>, x: int) -> nat {
    decimal_value(row.subrange(x, run_end(row, x)))
}

/// Whether the cell `(x, y)` lies in the box around the cells of row `ay`
/// from column `ax` up to, not including, column `end`.
pub open spec fn beside(ax: int, ay: int, end: int, x: int, y: int) -> bool {
    ay - 1 <= y <= ay + 1 && ax - 1 <= x <= end
}

/// Whether `(x, y)` holds a symbol of the grid that lies in that box.
pub open spec fn touched(g: Seq<Seq<char>>, ax: int, ay: int, end: int, x: int, y: int) -> bool {
    beside(ax, ay, end, x, y) && symbol_at(g, x, y)
}

/// Whether the box holds a symbol of the grid.
pub open spec fn any_touched(g: Seq<Seq<char>>, ax: int, ay: int, end: int) -> bool {
    exists|x: int, y: int| touched(g, ax, ay, end, x, y)
}

/// The part map once a run has been recorded in it: the run lies in row `ay`
/// from column `ax` to before column `end` and is worth `num`. Every symbol
/// in its box has `num` added; if there is one, the number stands at
/// `(ax, ay)`; all else is as in `m`.
pub open spec fn after_run(
    m: Map<(int, int), PartView>,
    g: Seq<Seq<char>>,
    ax: int,
    ay: int,
    end: int,
    num: u32,
) -> Map<(int, int), PartView> {
    Map::new(
        |c: (int, int)|
            m.contains_key(c) || touched(g, ax, ay, end, c.0, c.1) || (c == (ax, ay)
                && any_touched(g, ax, ay, end)),
        |c: (int, int)|
            if c == (ax, ay) && any_touched(g, ax, ay, end) {
                PartView::Number(num)
            } else if touched(g, ax, ay, end, c.0, c.1) {
                with_adjacent(m.get(c), g[c.1][c.0], num)
            } else {
                m[c]
            },
    )
}

/// Whether the run that begins at `(ax, ay)` has a symbol in its box.
pub open spec fn has_adjacent_symbol(g: Seq<Seq<char>>, ax: int, ay: int) -> bool {
    any_touched(g, ax, ay, run_end(g[ay], ax))
}

/// The numbers of the runs of `row` that begin before column `upto` and are
/// beside column `x`, from left to right.
pub open spec fn row_adjacent(row: Seq<char>, x: int, upto: int) -> Seq<u32>
    decreases upto,
{
    if upto <= 0 {
        Seq::empty()
    } else {
        let a = upto - 1;
        if run_start(row, a) && a - 1 <= x <= run_end(row, a) {
            row_adjacent(row, x, a).push(run_value(row, a) as u32)
        } else {
            row_adjacent(row, x, a)
        }
    }
}

/// The numbers of the runs of row `r` that are beside column `x`; none if the
/// grid has no row `r`.
pub open spec fn numbers_beside(g: Seq<Seq<char>>, x: int, r: int) -> Seq<u32> {
    if 0 <= r < g.len() {
        row_adjacent(g[r], x, g[r].len() as int)
    } else {
        Seq::empty()
    }
}

/// The numbers of the runs beside the cell `(x, y)`, in the order in which a
/// scan by rows meets the runs: the row above, the cell's own row, the row
/// below, each from left to right.
pub open spec fn adjacent_numbers(g: Seq<Seq<char>>, x: int, y: int) -> Seq<u32> {
    numbers_beside(g, x, y - 1) + numbers_beside(g, x, y) + numbers_beside(g, x, y + 1)
}

/// Whether every run of the grid is worth at most `u32::MAX`.
pub open spec fn numbers_fit(g: Seq<Seq<char>>) -> bool {
    forall|x: int, y: int|
        in_grid(g, x, y) && #[trigger] run_start(g[y], x) ==> run_value(g[y], x) <= u32::MAX
}

/// What the part map of a grid holds at `(x, y)`: at a symbol, the symbol
/// with its adjacent numbers; at the first cell of a run with a symbol in
/// its box, the run's number; nothing anywhere else.
pub open spec fn part_at(g: Seq<Seq<char>>, x: int, y: int) -> Option<PartView> {
    if symbol_at(g, x, y) {
        Some(PartView::Symbol { value: g[y][x], adjacent_numbers: adjacent_numbers(g, x, y) })
    } else if in_grid(g, x, y) && run_start(g[y], x) && has_adjacent_symbol(g, x, y) {
        Some(PartView::Number(run_value(g[y], x) as u32))
    } else {
        None
    }
}

/// The part map of a grid.
pub open spec fn parts_of(g: Seq<Seq<char>>) -> Map<(int, int), PartView> {
    Map::new(
        |c: (int, int)| part_at(g, c.0, c.1) is Some,
        |c: (int, int)| part_at(g, c.0, c.1).unwrap(),
    )
}

/// What a place adds to a sum: to that of the gear ratios if `gears`, to that
/// of the part numbers if not.
pub open spec fn worth(p: Option<PartView>, gears: bool) -> nat {
    match p {
        Some(part) => if gears {
            part.gear_ratio()
        } else {
            part.number()
        },
        None => 0,
    }
}

/// What the cells of row `y` add, by column.
pub open spec fn worth_by_column(g: Seq<Seq<char>>, y: int, gears: bool) -> spec_fn(int) -> nat {
    |x: int| worth(part_at(g, x, y), gears)
}

/// What the rows add, by row.
pub open spec fn worth_by_row(g: Seq<Seq<char>>, gears: bool) -> spec_fn(int) -> nat {
    |y: int| sum_to(worth_by_column(g, y, gears), grid_width(g) as int)
}

/// The sum of the numbers of the runs of the grid that have a symbol in
/// their box.
pub open spec fn total_part_numbers(g: Seq<Seq<char>>) -> nat {
    sum_to(worth_by_row(g, false), g.len() as int)
}

/// The sum, over the symbols of the grid with exactly two adjacent numbers,
/// of the product of the two.
pub open spec fn total_gear_ratios(g: Seq<Seq<char>>) -> nat {
    sum_to(worth_by_row(g, true), g.len() as int)
}

/// The first cells of the runs that are beside the cell `(x, y)`.
pub open spec fn runs_beside(g: Seq<Seq<char>>, x: int, y: int) -> Set<(int, int)> {
    Set::new(
        |a: (int, int)|
            in_grid(g, a.0, a.1) && run_start(g[a.1], a.0) && beside(
                a.0,
                a.1,
                run_end(g[a.1], a.0),
                x,
                y,
            ),
    )
}

/// The first cells of the runs of row `r` that begin before column `upto`
/// and are beside column `x`.
spec fn row_runs_beside(g: Seq<Seq<char>>, x: int, r: int, upto: int) -> Set<(int, int)> {
    Set::new(
        |a: (int, int)|
            a.1 == r && 0 <= a.0 < upto && run_start(g[r], a.0) && a.0 - 1 <= x <= run_end(
                g[r],
                a.0,
            ),
    )
}

/// A row has as many numbers beside a column as it has runs beside it.
proof fn lemma_row_runs_counted(g: Seq<Seq<char>>, x: int, r: int, upto: int)
    requires
        0 <= r < g.len(),
        0 <= upto,
    ensures
        row_runs_beside(g, x, r, upto).finite(),
        row_runs_beside(g, x, r, upto).len() == row_adjacent(g[r], x, upto).len(),
    decreases upto,
{
    if upto == 0 {
        assert(row_runs_beside(g, x, r, upto) =~= Set::<(int, int)>::empty());
    } else {
        lemma_row_runs_counted(g, x, r, upto - 1);
        let fewer = row_runs_beside(g, x, r, upto - 1);
        if run_start(g[r], upto - 1) && upto - 2 <= x <= run_end(g[r], upto - 1) {
            assert(row_runs_beside(g, x, r, upto) =~= fewer.insert((upto - 1, r)));
        } else {
            assert(row_runs_beside(g, x, r, upto) =~= fewer);
        }
    }
}

/// The runs of row `r` that are beside column `x`; none if the grid has no
/// row `r`.
spec fn runs_beside_in_row(g: Seq<Seq<char>>, x: int, r: int) -> Set<(int, int)> {
    if 0 <= r < g.len() {
        row_runs_beside(g, x, r, g[r].len() as int)
    } else {
        Set::empty()
    }
}

/// A run's number is in the part map exactly when a symbol lies in the box
/// around the run, and it is kept at the run's first cell. Nothing else is
/// there: a part at a cell without a symbol is such a number.
pub proof fn lemma_number_iff_symbol_beside(g: Seq<Seq<char>>, x: int, y: int)
    requires
        rectangular(g),
    ensures
        in_grid(g, x, y) && run_start(g[y], x) ==> (parts_of(g).contains_key((x, y)) <==> (
        exists|sx: int, sy: int|
            beside(x, y, run_end(g[y], x), sx, sy) && #[trigger] symbol_at(g, sx, sy))),
        parts_of(g).contains_key((x, y)) && !symbol_at(g, x, y) ==> in_grid(g, x, y)
            && run_start(g[y], x) && parts_of(g)[(x, y)] == PartView::Number(
            run_value(g[y], x) as u32,
        ),
{
    if in_grid(g, x, y) && run_start(g[y], x) {
        let end = run_end(g[y], x);
        if exists|sx: int, sy: int| beside(x, y, end, sx, sy) && #[trigger] symbol_at(g, sx, sy) {
            let (sx, sy) = choose|sx: int, sy: int|
                beside(x, y, end, sx, sy) && #[trigger] symbol_at(g, sx, sy);
            assert(touched(g, x, y, end, sx, sy));
        }
    }
}

/// Every symbol is in the part map, and it has as many adjacent numbers as
/// there are runs whose box holds it.
pub proof fn lemma_symbol_counts_its_runs(g: Seq<Seq<char>>, x: int, y: int)
    requires
        rectangular(g),
        symbol_at(g, x, y),
    ensures
        parts_of(g).contains_key((x, y)),
        parts_of(g)[(x, y)] == (PartView::Symbol {
            value: g[y][x],
            adjacent_numbers: adjacent_numbers(g, x, y),
        }),
        runs_beside(g, x, y).finite(),
        adjacent_numbers(g, x, y).len() == runs_beside(g, x, y).len(),
{
    let above = runs_beside_in_row(g, x, y - 1);
    let level = runs_beside_in_row(g, x, y);
    let below = runs_beside_in_row(g, x, y + 1);
    if 0 <= y - 1 < g.len() {
        lemma_row_runs_counted(g, x, y - 1, g[y - 1].len() as int);
    }
    lemma_row_runs_counted(g, x, y, g[y].len() as int);
    if 0 <= y + 1 < g.len() {
        lemma_row_runs_counted(g, x, y + 1, g[y + 1].len() as int);
    }
    vstd::set_lib::lemma_set_disjoint_lens(above, level);
    vstd::set_lib::lemma_set_disjoint_lens(above + level, below);
    assert(runs_beside(g, x, y) =~= above + level + below);
}

/// The digits that begin in column `x` end inside the row, hold digits only
/// and are followed by none.
pub proof fn lemma_run_end(row: Seq<char>, x: int)
    requires
        0 <= x <= row.len(),
    ensures
        x <= run_end(row, x) <= row.len(),
        forall|i: int| x <= i < run_end(row, x) ==> is_digit(#[trigger] row[i]),
        run_end(row, x) < row.len() ==> !is_digit(row[run_end(row, x)]),
    decreases row.len() - x,
{
    if x < row.len() && is_digit(row[x]) {
        lemma_run_end(row, x + 1);
    }
}

/// Whether the walk through the box, column by column and each column from
/// row `y0` to row `y1`, has passed `(x, y)` when it stands at `(cx, cy)`.
spec fn passed(x0: int, y0: int, y1: int, cx: int, cy: int, x: int, y: int) -> bool {
    y0 <= y <= y1 && (x0 <= x < cx || (x == cx && y < cy))
}

/// The part map in the middle of that walk.
spec fn amid_run(
    m: Map<(int, int), PartView>,
    g: Seq<Seq<char>>,
    x0: int,
    y0: int,
    y1: int,
    cx: int,
    cy: int,
    num: u32,
) -> Map<(int, int), PartView> {
    Map::new(
        |c: (int, int)|
            m.contains_key(c) || (passed(x0, y0, y1, cx, cy, c.0, c.1) && symbol_at(g, c.0, c.1)),
        |c: (int, int)|
            if passed(x0, y0, y1, cx, cy, c.0, c.1) && symbol_at(g, c.0, c.1) {
                with_adjacent(m.get(c), g[c.1][c.0], num)
            } else {
                m[c]
            },
    )
}

/// A stretch of columns and a stretch of rows, each with its first and its
/// last.
#[derive(Debug, Clone, Copy, PartialEq, Eq)]
pub struct Bounds {
    pub left: usize,
    pub right: usize,
    pub top: usize,
    pub bottom: usize,
}

impl Bounds {
    /// Whether the cell `(x, y)` lies within the bounds.
    pub open spec fn holds(self, x: int, y: int) -> bool {
        self.left <= x <= self.right && self.top <= y <= self.bottom
    }
}

/// The box around the run that begins at `loc` and is `len` cells long, cut
/// off at the edges of the grid: it reaches one cell beyond the run in each
/// direction where the grid has such a cell, and no further. Its cells are
/// the cells of the grid that are beside the run.
pub fn bounding_box(grid: &Grid, loc: (usize, usize), len: usize) -> (r: Bounds)
    requires
        in_grid(grid@, loc.0 as int, loc.1 as int),
        loc.0 + len <= grid_width(grid@),
    ensures
        r.left == if loc.0 == 0 {
            0
        } else {
            loc.0 - 1
        },
        r.right == if loc.0 + len < grid_width(grid@) {
            loc.0 + len
        } else {
            grid_width(grid@) - 1
        },
        r.top == if loc.1 == 0 {
            0
        } else {
            loc.1 - 1
        },
        r.bottom == if loc.1 + 1 < grid@.len() {
            loc.1 + 1
        } else {
            grid@.len() - 1
        },
        forall|x: int, y: int|
            r.holds(x, y) <==> in_grid(grid@, x, y) && beside(
                loc.0 as int,
                loc.1 as int,
                loc.0 + len,
                x,
                y,
            ),
{
    let (x, y) = loc;
    proof {
        use_type_invariant(grid);
        grid.lemma_shape();
    }
    let width = grid.width();
    let height = grid.height();
    Bounds {
        left: if x == 0 { 0 } else { x - 1 },
        right: if x + len < width { x + len } else { width - 1 },
        top: if y == 0 { 0 } else { y - 1 },
        bottom: if y + 1 < height { y + 1 } else { height - 1 },
    }
}

/// Records a run in the part map: the run begins at `loc`, is `len` cells
/// long and is worth `num`. Every symbol in the box around the run, cut off
/// at the edges of the grid, gets `num` added to its adjacent numbers (a
/// symbol that the map did not hold yet is put in first). If the box holds a
/// symbol, `Number(num)` is put at `loc`.
pub fn detect_adjacent_symbols(
    parts: &mut PartMap,
    grid: &Grid,
    loc: (usize, usize),
    len: usize,
    num: u32,
)
    requires
        old(parts).columns() == grid_width(grid@),
        old(parts).rows() == grid@.len(),
        loc.0 + len <= grid_width(grid@),
        in_grid(grid@, loc.0 as int, loc.1 as int),
    ensures
        final(parts)@ == after_run(
            old(parts)@,
            grid@,
            loc.0 as int,
            loc.1 as int,
            loc.0 + len,
            num,
        ),
        final(parts).columns() == old(parts).columns(),
        final(parts).rows() == old(parts).rows(),
{
    let (x, y) = loc;
    proof {
        use_type_invariant(grid);
        grid.lemma_shape();
    }
    let width = grid.width();
    let height = grid.height();
    let bounds = bounding_box(grid, loc, len);
    let x0 = bounds.left;
    let x1 = bounds.right;
    let y0 = bounds.top;
    let y1 = bounds.bottom;
    let ghost g = grid@;
    let ghost m = parts@;
    let mut has_adjacent_symbols = false;
    let mut cx = x0;
    while cx <= x1
        invariant
            g == grid@,
            rectangular(g),
            width == grid_width(g),
            height == g.len(),
            parts.columns() == width,
            parts.rows() == height,
            x0 <= cx <= x1 + 1,
            x1 < width,
            y0 <= y1 < height,
            parts@ == amid_run(m, g, x0 as int, y0 as int, y1 as int, cx as int, y0 as int, num),
            has_adjacent_symbols <==> exists|sx: int, sy: int|
                passed(x0 as int, y0 as int, y1 as int, cx as int, y0 as int, sx, sy) && symbol_at(
                    g,
                    sx,
                    sy,
                ),
        decreases x1 + 1 - cx,
    {
        let mut cy = y0;
        while cy <= y1
            invariant
                g == grid@,
                rectangular(g),
                width == grid_width(g),
                height == g.len(),
                parts.columns() == width,
                parts.rows() == height,
                x0 <= cx <= x1,
                x1 < width,
                y0 <= cy <= y1 + 1,
                y1 < height,
                parts@ == amid_run(
                    m,
                    g,
                    x0 as int,
                    y0 as int,
                    y1 as int,
                    cx as int,
                    cy as int,
                    num,
                ),
                has_adjacent_symbols <==> exists|sx: int, sy: int|
                    passed(x0 as int, y0 as int, y1 as int, cx as int, cy as int, sx, sy)
                        && symbol_at(g, sx, sy),
            decreases y1 + 1 - cy,
        {
            let c = grid.cell(cx, cy);
            if c != '.' && is_ascii_punctuation(c) {
                has_adjacent_symbols = true;
                parts.record_adjacent(cx, cy, c, num);
            }
            cy += 1;
        }
        cx += 1;
    }
    proof {
        assert forall|sx: int, sy: int|
            touched(g, x as int, y as int, x + len, sx, sy) <==> passed(
                x0 as int,
                y0 as int,
                y1 as int,
                x1 + 1,
                y0 as int,
                sx,
                sy,
            ) && symbol_at(g, sx, sy) by {}
    }
    if has_adjacent_symbols {
        parts.insert(x, y, Part::Number(num));
    }
}

/// Reads the run that begins in column `x` of row `y`: the column after its
/// last digit, and its number unless that is more than `u32::MAX`.
fn read_run(grid: &Grid, x: usize, y: usize) -> (r: (usize, Option<u32>))
    requires
        in_grid(grid@, x as int, y as int),
        is_digit(grid@[y as int][x as int]),
    ensures
        r.0 == run_end(grid@[y as int], x as int),
        x < r.0 <= grid_width(grid@),
        r.1 == if run_value(grid@[y as int], x as int) <= u32::MAX {
            Some(run_value(grid@[y as int], x as int) as u32)
        } else {
            None
        },
{
    proof {
        use_type_invariant(grid);
        grid.lemma_shape();
    }
    let width = grid.width();
    let ghost row = grid@[y as int];
    let mut end = x;
    let mut value: Option<u32> = Some(0);
    let mut more = true;
    while more
        invariant
            rectangular(grid@),
            in_grid(grid@, x as int, y as int),
            row == grid@[y as int],
            width == row.len(),
            x <= end <= width,
            !more ==> x < end,
            more ==> end < width && is_digit(row[end as int]),
            !more && end < width ==> !is_digit(row[end as int]),
            forall|i: int| x <= i < end ==> is_digit(#[trigger] row[i]),
            value == if decimal_value(row.subrange(x as int, end as int)) <= u32::MAX {
                Some(decimal_value(row.subrange(x as int, end as int)) as u32)
            } else {
                None
            },
        decreases width - end + if more { 1int } else { 0int },
    {
        let digit = digit_of(grid.cell(end, y));
        proof {
            let longer = row.subrange(x as int, end + 1);
            assert(longer.drop_last() == row.subrange(x as int, end as int));
        }
        value =
        match value {
            Some(v) => match v.checked_mul(10) {
                Some(tens) => tens.checked_add(digit as u32),
                None => None,
            },
            None => None,
        };
        end += 1;
        more = end < width && is_decimal(&grid.cell(end, y));
    }
    proof {
        lemma_digits_end(row, x as int, end as int);
    }
    (end, value)
}

/// A stretch of digits that no digit follows ends where `run_end` says.
proof fn lemma_digits_end(row: Seq<char>, x: int, end: int)
    requires
        0 <= x <= end <= row.len(),
        forall|i: int| x <= i < end ==> is_digit(#[trigger] row[i]),
        end < row.len() ==> !is_digit(row[end]),
    ensures
        run_end(row, x) == end,
    decreases end - x,
{
    if x < end {
        lemma_digits_end(row, x + 1, end);
    }
}

/// A grid with the parts found in it.
#[derive(Debug)]
pub struct Schematic {
    grid: Grid,
    parts: PartMap,
}

impl View for Schematic {
    type V = Seq<Seq<char>>;

    closed spec fn view(&self) -> Seq<Seq<char>> {
        self.grid@
    }
}

impl Schematic {
    /// What holds of every schematic: its grid is rectangular, the numbers
    /// in it fit, and its part map is the part map of its grid.
    #[verifier::type_invariant]
    pub closed spec fn inv(&self) -> bool {
        &&& rectangular(self.grid@)
        &&& numbers_fit(self.grid@)
        &&& self.parts.columns() == grid_width(self.grid@)
        &&& self.parts.rows() == self.grid@.len()
        &&& self.parts@ == parts_of(self.grid@)
    }

    /// Reads a schematic: splits `input` into the rows of a grid and scans
    /// the grid by rows for symbols and runs. There is no schematic where the
    /// text is empty, where its lines differ in length, or where a run is
    /// worth more than `u32::MAX`. What the schematic holds at a coordinate
    /// is told by `get`.
    pub fn new(input: &str) -> (r: Result<Schematic, SchematicError>)
        ensures
            match r {
                Ok(s) => s@ == lines(input@) && rectangular(s@) && numbers_fit(s@),
                Err(SchematicError::Empty) => input@.len() == 0,
                Err(SchematicError::Ragged) => input@.len() > 0 && !rectangular(lines(input@)),
                Err(SchematicError::NumberTooLarge) => rectangular(lines(input@)) && !numbers_fit(
                    lines(input@),
                ),
            },
    {
        let grid = match Grid::parse(input) {
            Ok(grid) => grid,
            Err(e) => {
                return Err(e);
            },
        };
        proof {
            use_type_invariant(&grid);
            grid.lemma_shape();
        }
        let width = grid.width();
        let height = grid.height();
        let ghost g = grid@;
        let mut parts = PartMap::new(width, height);
        proof {
            assert(parts_so_far(g, 0, 0) =~= Map::<(int, int), PartView>::empty()) by {
                assert forall|c: (int, int)| part_so_far(g, c.0, c.1, 0, 0) is None by {
                    lemma_nothing_so_far(g, c.0, c.1);
                }
            }
        }
        let mut y: usize = 0;
        while y < height
            invariant
                g == grid@,
                g == lines(input@),
                rectangular(g),
                width == grid_width(g),
                height == g.len(),
                parts.columns() == width,
                parts.rows() == height,
                0 <= y <= height,
                parts@ == parts_so_far(g, 0, y as int),
                forall|ax: int, ay: int|
                    in_grid(g, ax, ay) && #[trigger] run_start(g[ay], ax) && scanned(
                        ax,
                        ay,
                        0,
                        y as int,
                    ) ==> run_value(g[ay], ax) <= u32::MAX,
            decreases height - y,
        {
            let mut x: usize = 0;
            while x < width
                invariant
                    g == grid@,
                    g == lines(input@),
                    rectangular(g),
                    width == grid_width(g),
                    height == g.len(),
                    parts.columns() == width,
                    parts.rows() == height,
                    0 <= y < height,
                    0 <= x <= width,
                    x == 0 || x == width || !is_digit(g[y as int][x - 1]) || !is_digit(
                        g[y as int][x as int],
                    ),
                    parts@ == parts_so_far(g, x as int, y as int),
                    forall|ax: int, ay: int|
                        in_grid(g, ax, ay) && #[trigger] run_start(g[ay], ax) && scanned(
                            ax,
                            ay,
                            x as int,
                            y as int,
                        ) ==> run_value(g[ay], ax) <= u32::MAX,
                decreases width - x,
            {
                let c = grid.cell(x, y);
                if is_decimal(&c) {
                    let (end, value) = read_run(&grid, x, y);
                    let num = match value {
                        Some(num) => num,
                        None => {
                            assert(run_start(g[y as int], x as int));
                            return Err(SchematicError::NumberTooLarge);
                        },
                    };
                    proof {
                        lemma_scan_run(g, x as int, y as int);
                        lemma_run_end(g[y as int], x as int);
                        assert forall|ax: int, ay: int|
                            in_grid(g, ax, ay) && #[trigger] run_start(g[ay], ax) && scanned(
                                ax,
                                ay,
                                end as int,
                                y as int,
                            ) implies run_value(g[ay], ax) <= u32::MAX by {}
                    }
                    detect_adjacent_symbols(&mut parts, &grid, (x, y), end - x, num);
                    x = end;
                } else {
                    proof {
                        lemma_scan_other(g, x as int, y as int);
                    }
                    if c != '.' && is_ascii_punctuation(c) {
                        if parts.get(x, y).is_none() {
                            parts.insert(
                                x,
                                y,
                                Part::Symbol { value: c, adjacent_numbers: Vec::new() },
                            );
                        }
                    }
                    x += 1;
                }
            }
            proof {
                lemma_scan_next_row(g, y as int);
            }
            y += 1;
        }
        proof {
            lemma_scan_done(g);
        }
        Ok(Schematic { grid, parts })
    }

    /// The part at column `x` of row `y`, if there is one.
    pub fn get(&self, x: usize, y: usize) -> (r: Option<&Part>)
        ensures
            match r {
                Some(p) => part_at(self@, x as int, y as int) == Some(p@),
                None => part_at(self@, x as int, y as int) is None,
            },
    {
        proof {
            use_type_invariant(self);
        }
        self.parts.get(x, y)
    }

    /// The number of columns of the grid.
    pub fn width(&self) -> (r: usize)
        ensures
            r == grid_width(self@),
    {
        self.grid.width()
    }

    /// The number of rows of the grid.
    pub fn height(&self) -> (r: usize)
        ensures
            r == self@.len(),
    {
        self.grid.height()
    }

    /// The sum of the numbers in the part map, unless it is more than
    /// `u32::MAX`.
    pub fn sum_of_part_numbers(&self) -> (r: Option<u32>)
        ensures
            r == checked_u32(total_part_numbers(self@)),
    {
        self.sum_of(false)
    }

    /// The sum of the gear ratios, unless it is more than `u32::MAX`: every
    /// symbol with exactly two adjacent numbers adds their product.
    pub fn sum_of_gear_ratios(&self) -> (r: Option<u32>)
        ensures
            r == checked_u32(total_gear_ratios(self@)),
    {
        self.sum_of(true)
    }

    /// What the part at `(x, y)` adds to a sum, unless it is more than
    /// `u32::MAX`.
    fn worth_at(&self, x: usize, y: usize, gears: bool) -> (r: Option<u32>)
        ensures
            r == checked_u32(worth(part_at(self@, x as int, y as int), gears)),
    {
        match self.get(x, y) {
            Some(part) => if gears {
                part.gear_ratio()
            } else {
                Some(part.number())
            },
            None => Some(0),
        }
    }

    /// The sum over all cells of what the part there adds.
    fn sum_of(&self, gears: bool) -> (r: Option<u32>)
        ensures
            r == checked_u32(sum_to(worth_by_row(self@, gears), self@.len() as int)),
    {
        let width = self.width();
        let height = self.height();
        let ghost g = self@;
        let ghost by_row = worth_by_row(g, gears);
        let mut sum: u32 = 0;
        let mut y: usize = 0;
        while y < height
            invariant
                g == self@,
                by_row == worth_by_row(g, gears),
                width == grid_width(g),
                height == g.len(),
                0 <= y <= height,
                sum == sum_to(by_row, y as int),
            decreases height - y,
        {
            let ghost by_column = worth_by_column(g, y as int, gears);
            let ghost above = sum;
            let mut x: usize = 0;
            while x < width
                invariant
                    g == self@,
                    by_row == worth_by_row(g, gears),
                    by_column == worth_by_column(g, y as int, gears),
                    width == grid_width(g),
                    height == g.len(),
                    0 <= y < height,
                    0 <= x <= width,
                    above == sum_to(by_row, y as int),
                    sum == above + sum_to(by_column, x as int),
                decreases width - x,
            {
                let next = match self.worth_at(x, y, gears) {
                    Some(v) => sum.checked_add(v),
                    None => None,
                };
                proof {
                    lemma_sum_to_grows(by_column, x + 1, width as int);
                    lemma_sum_to_grows(by_row, y + 1, height as int);
                }
                match next {
                    Some(next) => {
                        sum = next;
                    },
                    None => {
                        return None;
                    },
                }
                x += 1;
            }
            y += 1;
        }
        Some(sum)
    }
}

} // verus!
