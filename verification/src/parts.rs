//! The parts of a schematic and the map that holds them by coordinate.

use crate::text::checked_u32;
use std::collections::HashMap;
use vstd::prelude::*;

verus! {

/// What a schematic holds at a coordinate.
#[derive(Debug, PartialEq, Eq)]
pub enum Part {
    /// The number written by a run of digits, kept at the run's first cell.
    Number(u32),
    /// A symbol, with the numbers of the runs next to it in the order in
    /// which a scan by rows meets them.
    Symbol { value: char, adjacent_numbers: Vec<u32> },
}

/// A part as a mathematical value.
pub enum PartView {
    Number(u32),
    Symbol { value: char, adjacent_numbers: Seq<u32> },
}

impl View for Part {
    type V = PartView;

    open spec fn view(&self) -> PartView {
        match self {
            Part::Number(n) => PartView::Number(*n),
            Part::Symbol { value, adjacent_numbers } => PartView::Symbol {
                value: *value,
                adjacent_numbers: adjacent_numbers@,
            },
        }
    }
}

impl PartView {
    /// What the part adds to the sum of the part numbers: its number, if it
    /// is one.
    pub open spec fn number(self) -> nat {
        match self {
            PartView::Number(n) => n as nat,
            PartView::Symbol { .. } => 0,
        }
    }

    /// What the part adds to the sum of the gear ratios: the product of its
    /// adjacent numbers, if it is a symbol with exactly two of them.
    pub open spec fn gear_ratio(self) -> nat {
        match self {
            PartView::Symbol { value, adjacent_numbers } => if adjacent_numbers.len() == 2 {
                (adjacent_numbers[0] * adjacent_numbers[1]) as nat
            } else {
                0
            },
            PartView::Number(_) => 0,
        }
    }
}

impl Part {
    /// What the part adds to the sum of the part numbers: its number, if it
    /// is one, and else nothing.
    pub fn number(&self) -> (r: u32)
        ensures
            r == self@.number(),
    {
        match self {
            Part::Number(n) => *n,
            Part::Symbol { .. } => 0,
        }
    }

    /// What the part adds to the sum of the gear ratios, unless it is more
    /// than `u32::MAX`: a symbol with exactly two adjacent numbers adds
    /// their product, and every other part adds nothing.
    pub fn gear_ratio(&self) -> (r: Option<u32>)
        ensures
            r == checked_u32(self@.gear_ratio()),
    {
        match self {
            Part::Symbol { value: _, adjacent_numbers } => if adjacent_numbers.len() == 2 {
                adjacent_numbers[0].checked_mul(adjacent_numbers[1])
            } else {
                Some(0)
            },
            Part::Number(_) => Some(0),
        }
    }
}

/// What stands at a symbol's place once one more adjacent number has been
/// recorded there. A place that was empty gets the symbol `value` with `num`
/// alone; a symbol gets `num` at the end of its list; a number stays as it is.
pub open spec fn with_adjacent(before: Option<PartView>, value: char, num: u32) -> PartView {
    match before {
        None => PartView::Symbol { value, adjacent_numbers: seq![num] },
        Some(PartView::Symbol { value: v, adjacent_numbers }) => PartView::Symbol {
            value: v,
            adjacent_numbers: adjacent_numbers.push(num),
        },
        Some(PartView::Number(n)) => PartView::Number(n),
    }
}

/// The key under which the cell in column `x` of row `y` is stored.
spec fn cell_key(x: int, y: int, width: int) -> int {
    y * width + x
}

/// The keys of the cells of a grid lie below the number of its cells.
proof fn lemma_cell_key_bound(x: int, y: int, width: int, height: int)
    requires
        0 <= x < width,
        0 <= y < height,
    ensures
        0 <= cell_key(x, y, width) < width * height,
{
    assert(y * width + x < width * height) by (nonlinear_arith)
        requires
            0 <= x < width,
            0 <= y < height,
    ;
}

/// Two cells of a grid with one key are one cell.
proof fn lemma_cell_key_injective(x1: int, y1: int, x2: int, y2: int, width: int)
    requires
        0 <= x1 < width,
        0 <= x2 < width,
        cell_key(x1, y1, width) == cell_key(x2, y2, width),
    ensures
        x1 == x2,
        y1 == y2,
{
    assert(y1 == y2) by (nonlinear_arith)
        requires
            0 <= x1 < width,
            0 <= x2 < width,
            y1 * width + x1 == y2 * width + x2,
    ;
}

/// A map from the coordinates of a grid to parts. The cell in column `x` of
/// row `y` is stored under the number that it has when the cells are counted
/// by rows.
#[derive(Debug)]
pub struct PartMap {
    cells: HashMap<usize, Part>,
    width: usize,
    height: usize,
}

impl View for PartMap {
    type V = Map<(int, int), PartView>;

    closed spec fn view(&self) -> Map<(int, int), PartView> {
        Map::new(
            |c: (int, int)|
                0 <= c.0 < self.width && 0 <= c.1 < self.height && self.cells@.contains_key(
                    cell_key(c.0, c.1, self.width as int) as usize,
                ),
            |c: (int, int)| self.cells@[cell_key(c.0, c.1, self.width as int) as usize]@,
        )
    }
}

impl PartMap {
    /// The cells of the grid can be counted.
    #[verifier::type_invariant]
    pub closed spec fn inv(&self) -> bool {
        self.width * self.height <= usize::MAX
    }

    /// The number of columns of the grid that the map is for.
    pub closed spec fn columns(&self) -> nat {
        self.width as nat
    }

    /// The number of rows of the grid that the map is for.
    pub closed spec fn rows(&self) -> nat {
        self.height as nat
    }

    /// Among the cells of the grid, only the one in column `x` of row `y` is
    /// stored under its key.
    proof fn lemma_only_key(&self, x: int, y: int)
        requires
            self.inv(),
            0 <= x < self.width,
            0 <= y < self.height,
        ensures
            forall|c: (int, int)|
                0 <= c.0 < self.width && 0 <= c.1 < self.height ==> (#[trigger] cell_key(
                    c.0,
                    c.1,
                    self.width as int,
                ) as usize == cell_key(x, y, self.width as int) as usize <==> c == (x, y)),
    {
        let w = self.width as int;
        let h = self.height as int;
        lemma_cell_key_bound(x, y, w, h);
        assert forall|c: (int, int)| 0 <= c.0 < w && 0 <= c.1 < h implies (#[trigger] cell_key(
            c.0,
            c.1,
            w,
        ) as usize == cell_key(x, y, w) as usize <==> c == (x, y)) by {
            lemma_cell_key_bound(c.0, c.1, w, h);
            if cell_key(c.0, c.1, w) == cell_key(x, y, w) {
                lemma_cell_key_injective(c.0, c.1, x, y, w);
            }
        }
    }

    /// An empty map for a grid of `width` columns and `height` rows.
    pub fn new(width: usize, height: usize) -> (r: PartMap)
        requires
            width * height <= usize::MAX,
        ensures
            r@ == Map::<(int, int), PartView>::empty(),
            r.columns() == width,
            r.rows() == height,
    {
        let r = PartMap { cells: HashMap::new(), width, height };
        r
    }

    /// The key under which the cell in column `x` of row `y` is stored.
    fn key(&self, x: usize, y: usize) -> (k: usize)
        requires
            x < self.width,
            y < self.height,
        ensures
            k == cell_key(x as int, y as int, self.width as int),
    {
        proof {
            use_type_invariant(self);
            lemma_cell_key_bound(x as int, y as int, self.width as int, self.height as int);
        }
        y * self.width + x
    }

    /// Stores `part` under `k` and hands back what was there. The cells are
    /// swapped out for the change: a field of a type with an invariant is
    /// not lent out to a call that may unwind.
    fn store(&mut self, k: usize, part: Part) -> (before: Option<Part>)
        ensures
            final(self).cells@ == old(self).cells@.insert(k, part),
            final(self).width == old(self).width,
            final(self).height == old(self).height,
            match before {
                Some(p) => old(self).cells@.contains_key(k) && old(self).cells@[k] == p,
                None => !old(self).cells@.contains_key(k),
            },
    {
        proof {
            use_type_invariant(&*self);
        }
        let mut cells: HashMap<usize, Part> = HashMap::new();
        std::mem::swap(&mut self.cells, &mut cells);
        let before = cells.insert(k, part);
        std::mem::swap(&mut self.cells, &mut cells);
        before
    }

    /// Takes out what is stored under `k`.
    fn take(&mut self, k: usize) -> (before: Option<Part>)
        ensures
            final(self).cells@ == old(self).cells@.remove(k),
            final(self).width == old(self).width,
            final(self).height == old(self).height,
            match before {
                Some(p) => old(self).cells@.contains_key(k) && old(self).cells@[k] == p,
                None => !old(self).cells@.contains_key(k),
            },
    {
        proof {
            use_type_invariant(&*self);
        }
        let mut cells: HashMap<usize, Part> = HashMap::new();
        std::mem::swap(&mut self.cells, &mut cells);
        let before = cells.remove(&k);
        std::mem::swap(&mut self.cells, &mut cells);
        before
    }

    /// The part at column `x` of row `y`, if there is one.
    pub fn get(&self, x: usize, y: usize) -> (r: Option<&Part>)
        ensures
            match r {
                Some(p) => self@.get((x as int, y as int)) == Some(p@),
                None => !self@.contains_key((x as int, y as int)),
            },
    {
        if x >= self.width || y >= self.height {
            return None;
        }
        let k = self.key(x, y);
        self.cells.get(&k)
    }

    /// Puts `part` at column `x` of row `y`, in place of what was there.
    pub fn insert(&mut self, x: usize, y: usize, part: Part)
        requires
            x < old(self).columns(),
            y < old(self).rows(),
        ensures
            final(self)@ == old(self)@.insert((x as int, y as int), part@),
            final(self).columns() == old(self).columns(),
            final(self).rows() == old(self).rows(),
    {
        let k = self.key(x, y);
        self.store(k, part);
        proof {
            use_type_invariant(&*self);
            self.lemma_only_key(x as int, y as int);
        }
    }

    /// Records at the symbol in column `x` of row `y` that a run worth `num`
    /// is next to it. An empty place gets the symbol `value` first.
    pub fn record_adjacent(&mut self, x: usize, y: usize, value: char, num: u32)
        requires
            x < old(self).columns(),
            y < old(self).rows(),
        ensures
            final(self)@ == old(self)@.insert(
                (x as int, y as int),
                with_adjacent(old(self)@.get((x as int, y as int)), value, num),
            ),
            final(self).columns() == old(self).columns(),
            final(self).rows() == old(self).rows(),
    {
        let k = self.key(x, y);
        let part = match self.take(k) {
            None => {
                let mut adjacent_numbers: Vec<u32> = Vec::new();
                adjacent_numbers.push(num);
                Part::Symbol { value, adjacent_numbers }
            },
            Some(Part::Symbol { value: v, adjacent_numbers }) => {
                let mut adjacent_numbers = adjacent_numbers;
                adjacent_numbers.push(num);
                Part::Symbol { value: v, adjacent_numbers }
            },
            Some(Part::Number(n)) => Part::Number(n),
        };
        self.store(k, part);
        proof {
            use_type_invariant(&*self);
            self.lemma_only_key(x as int, y as int);
        }
    }
}

} // verus!
