//! The scan of a grid by rows, step by step: the proof that the part map
//! which the scan builds is the part map of the grid.
//!
//! The scan stands at a cell `(cx, cy)` when it has been through the rows
//! above row `cy` and through the columns of row `cy` before column `cx`.

use crate::grid::{grid_width, in_grid, rectangular};
use crate::parts::PartView;
use crate::schematic::{
    after_run, beside, has_adjacent_symbol, lemma_run_end, part_at, parts_of, row_adjacent,
    run_end, run_start, run_value, symbol_at,
};
use crate::text::is_digit;
use vstd::prelude::*;

verus! {

/// Whether a scan by rows that stands at `(cx, cy)` has been through `(x, y)`.
pub open spec fn scanned(x: int, y: int, cx: int, cy: int) -> bool {
    y < cy || (y == cy && x < cx)
}

/// How many columns of row `r` that scan has been through.
pub open spec fn columns_done(g: Seq<Seq<char>>, r: int, cx: int, cy: int) -> int {
    if r < cy {
        g[r].len() as int
    } else if r == cy {
        cx
    } else {
        0
    }
}

/// The numbers of the runs of row `r` that the scan has met and that are
/// beside column `x`.
pub open spec fn numbers_beside_so_far(
    g: Seq<Seq<char>>,
    x: int,
    r: int,
    cx: int,
    cy: int,
) -> Seq<u32> {
    if 0 <= r < g.len() {
        row_adjacent(g[r], x, columns_done(g, r, cx, cy))
    } else {
        Seq::empty()
    }
}

/// The numbers that the scan has recorded at `(x, y)` so far.
pub open spec fn adjacent_so_far(g: Seq<Seq<char>>, x: int, y: int, cx: int, cy: int) -> Seq<u32> {
    numbers_beside_so_far(g, x, y - 1, cx, cy) + numbers_beside_so_far(g, x, y, cx, cy)
        + numbers_beside_so_far(g, x, y + 1, cx, cy)
}

/// What the part map holds at `(x, y)` when the scan stands at `(cx, cy)`. A
/// symbol is there once the scan has been through it or has met a run beside
/// it.
pub open spec fn part_so_far(g: Seq<Seq<char>>, x: int, y: int, cx: int, cy: int) -> Option<
    PartView,
> {
    if symbol_at(g, x, y) {
        let adjacent_numbers = adjacent_so_far(g, x, y, cx, cy);
        if scanned(x, y, cx, cy) || adjacent_numbers.len() > 0 {
            Some(PartView::Symbol { value: g[y][x], adjacent_numbers })
        } else {
            None
        }
    } else if in_grid(g, x, y) && run_start(g[y], x) && scanned(x, y, cx, cy)
        && has_adjacent_symbol(g, x, y) {
        Some(PartView::Number(run_value(g[y], x) as u32))
    } else {
        None
    }
}

/// The part map when the scan stands at `(cx, cy)`.
pub open spec fn parts_so_far(g: Seq<Seq<char>>, cx: int, cy: int) -> Map<(int, int), PartView> {
    Map::new(
        |c: (int, int)| part_so_far(g, c.0, c.1, cx, cy) is Some,
        |c: (int, int)| part_so_far(g, c.0, c.1, cx, cy).unwrap(),
    )
}

/// Two maps that hold the same at every key are one map.
proof fn lemma_same_everywhere(a: Map<(int, int), PartView>, b: Map<(int, int), PartView>)
    requires
        forall|c: (int, int)| #[trigger] a.get(c) == b.get(c),
    ensures
        a == b,
{
    assert forall|c: (int, int)| a.contains_key(c) == b.contains_key(c) by {
        assert(a.get(c) == b.get(c));
    }
    assert forall|c: (int, int)| a.contains_key(c) implies a[c] == b[c] by {
        assert(a.get(c) == b.get(c));
    }
    assert(a =~= b);
}

/// Before the scan has begun the part map is empty.
pub proof fn lemma_nothing_so_far(g: Seq<Seq<char>>, x: int, y: int)
    ensures
        part_so_far(g, x, y, 0, 0) is None,
{
}

/// No run begins inside a run: past the first cell of a run, the cells of the
/// run add nothing to the numbers beside a column.
proof fn lemma_row_adjacent_inside(row: Seq<char>, x: int, a: int, upto: int)
    requires
        run_start(row, a),
        a < upto <= run_end(row, a),
    ensures
        row_adjacent(row, x, upto) == row_adjacent(row, x, a + 1),
    decreases upto - a,
{
    lemma_run_end(row, a);
    if upto > a + 1 {
        lemma_row_adjacent_inside(row, x, a, upto - 1);
    }
}

/// The scan through a run: recording the run that begins where the scan
/// stands turns the part map into the one for the scan standing behind the
/// run.
pub proof fn lemma_scan_run(g: Seq<Seq<char>>, ax: int, ay: int)
    requires
        rectangular(g),
        in_grid(g, ax, ay),
        run_start(g[ay], ax),
        run_value(g[ay], ax) <= u32::MAX,
    ensures
        after_run(
            parts_so_far(g, ax, ay),
            g,
            ax,
            ay,
            run_end(g[ay], ax),
            run_value(g[ay], ax) as u32,
        ) == parts_so_far(g, run_end(g[ay], ax), ay),
{
    let end = run_end(g[ay], ax);
    let num = run_value(g[ay], ax) as u32;
    let before = parts_so_far(g, ax, ay);
    let after = after_run(before, g, ax, ay, end, num);
    let target = parts_so_far(g, end, ay);
    lemma_run_end(g[ay], ax);
    assert forall|c: (int, int)| #[trigger] after.get(c) == target.get(c) by {
        lemma_adjacent_step(g, ax, ay, c.0, c.1);
    }
    lemma_same_everywhere(after, target);
}

/// What the scan through the run at `(ax, ay)` adds to the numbers recorded
/// at `(x, y)`: the run's number at the end if the run is beside the cell,
/// and nothing otherwise.
proof fn lemma_adjacent_step(g: Seq<Seq<char>>, ax: int, ay: int, x: int, y: int)
    requires
        rectangular(g),
        in_grid(g, ax, ay),
        run_start(g[ay], ax),
        run_value(g[ay], ax) <= u32::MAX,
    ensures
        adjacent_so_far(g, x, y, run_end(g[ay], ax), ay) == if beside(
            ax,
            ay,
            run_end(g[ay], ax),
            x,
            y,
        ) {
            adjacent_so_far(g, x, y, ax, ay).push(run_value(g[ay], ax) as u32)
        } else {
            adjacent_so_far(g, x, y, ax, ay)
        },
{
    let end = run_end(g[ay], ax);
    lemma_run_end(g[ay], ax);
    lemma_row_adjacent_inside(g[ay], x, ax, end);
}

/// The scan through a cell that holds no digit: the part map gains the
/// cell's symbol, if it holds one that was not there yet, and nothing else.
pub proof fn lemma_scan_other(g: Seq<Seq<char>>, cx: int, cy: int)
    requires
        rectangular(g),
        in_grid(g, cx, cy),
        !is_digit(g[cy][cx]),
    ensures
        parts_so_far(g, cx + 1, cy) == if symbol_at(g, cx, cy) && !parts_so_far(
            g,
            cx,
            cy,
        ).contains_key((cx, cy)) {
            parts_so_far(g, cx, cy).insert(
                (cx, cy),
                PartView::Symbol { value: g[cy][cx], adjacent_numbers: Seq::empty() },
            )
        } else {
            parts_so_far(g, cx, cy)
        },
{
    let before = parts_so_far(g, cx, cy);
    let after = parts_so_far(g, cx + 1, cy);
    assert forall|x: int, y: int|
        adjacent_so_far(g, x, y, cx + 1, cy) == #[trigger] adjacent_so_far(g, x, y, cx, cy) by {}
    let expected = if symbol_at(g, cx, cy) && !before.contains_key((cx, cy)) {
        before.insert(
            (cx, cy),
            PartView::Symbol { value: g[cy][cx], adjacent_numbers: Seq::empty() },
        )
    } else {
        before
    };
    assert forall|c: (int, int)| #[trigger] after.get(c) == expected.get(c) by {}
    lemma_same_everywhere(after, expected);
}

/// The scan at the end of a row stands at the start of the next.
pub proof fn lemma_scan_next_row(g: Seq<Seq<char>>, cy: int)
    requires
        rectangular(g),
        0 <= cy < g.len(),
    ensures
        parts_so_far(g, grid_width(g) as int, cy) == parts_so_far(g, 0, cy + 1),
{
    let w = grid_width(g) as int;
    let before = parts_so_far(g, w, cy);
    let after = parts_so_far(g, 0, cy + 1);
    assert forall|c: (int, int)| #[trigger] before.get(c) == after.get(c) by {}
    lemma_same_everywhere(before, after);
}

/// The scan that has been through every row has built the part map of the grid.
pub proof fn lemma_scan_done(g: Seq<Seq<char>>)
    requires
        rectangular(g),
    ensures
        parts_so_far(g, 0, g.len() as int) == parts_of(g),
{
    let h = g.len() as int;
    assert forall|c: (int, int)|
        part_so_far(g, c.0, c.1, 0, h) == #[trigger] part_at(g, c.0, c.1) by {}
    assert(parts_so_far(g, 0, h) =~= parts_of(g));
}

} // verus!
