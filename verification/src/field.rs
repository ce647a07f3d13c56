//! A plain rectangular field of optional puyos, used by callers that want a
//! simple cell-by-cell store with arbitrary dimensions.

use vstd::prelude::*;

verus! {

/// A single colored puyo, or a garbage (ojama) puyo.
#[derive(Clone, Copy, Debug, PartialEq, Eq, Structural)]
pub enum Puyo {
    Red,
    Green,
    Blue,
    Yellow,
    Purple,
    Ojama,
}

/// A `width` x `height` grid of optional puyos, stored row-major.
#[derive(Clone, Debug)]
pub struct Field {
    pub width: usize,
    pub height: usize,
    pub cells: Vec<Option<Puyo>>,
}

impl Field {
    /// The grid holds exactly `width * height` cells.
    pub open spec fn wf(&self) -> bool {
        self.cells@.len() == self.width * self.height
    }

    /// The cell at column `x`, row `y`.
    pub open spec fn cell_at(&self, x: int, y: int) -> Option<Puyo> {
        self.cells@[y * self.width + x]
    }

    /// An empty field of the given dimensions.
    pub fn new(width: usize, height: usize) -> (r: Self)
        requires
            width * height <= usize::MAX,
        ensures
            r.wf(),
            r.width == width,
            r.height == height,
            forall|x: int, y: int|
                0 <= x < width && 0 <= y < height ==> r.cell_at(x, y) is None,
    {
        let n = width * height;
        let r = Self { width, height, cells: vec![None; n] };
        proof {
            assert forall|x: int, y: int|
                0 <= x < width && 0 <= y < height implies r.cell_at(x, y) is None by {
                lemma_row_major_in_range(width as int, height as int, x, y);
            }
        }
        r
    }

    /// The row-major index of cell (`x`, `y`).
    pub fn index(&self, x: usize, y: usize) -> (r: usize)
        requires
            self.wf(),
            x < self.width,
            y < self.height,
        ensures
            r == y * self.width + x,
    {
        let _n = self.cells.len();
        proof {
            lemma_row_major_in_range(self.width as int, self.height as int, x as int, y as int);
        }
        y * self.width + x
    }

    /// Reads the cell at (`x`, `y`).
    pub fn get(&self, x: usize, y: usize) -> (r: Option<Puyo>)
        requires
            self.wf(),
            x < self.width,
            y < self.height,
        ensures
            r == self.cell_at(x as int, y as int),
    {
        let idx = self.index(x, y);
        proof {
            lemma_row_major_in_range(self.width as int, self.height as int, x as int, y as int);
        }
        self.cells[idx]
    }

    /// Writes the cell at (`x`, `y`), leaving every other cell unchanged.
    pub fn set(&mut self, x: usize, y: usize, puyo: Option<Puyo>)
        requires
            old(self).wf(),
            x < old(self).width,
            y < old(self).height,
        ensures
            final(self).wf(),
            final(self).width == old(self).width,
            final(self).height == old(self).height,
            final(self).cell_at(x as int, y as int) == puyo,
            forall|x2: int, y2: int|
                0 <= x2 < old(self).width && 0 <= y2 < old(self).height
                    && !(x2 == x as int && y2 == y as int)
                    ==> final(self).cell_at(x2, y2) == old(self).cell_at(x2, y2),
    {
        let idx = self.index(x, y);
        proof {
            lemma_row_major_in_range(self.width as int, self.height as int, x as int, y as int);
        }
        self.cells[idx] = puyo;
        proof {
            assert forall|x2: int, y2: int|
                0 <= x2 < self.width && 0 <= y2 < self.height
                    && !(x2 == x as int && y2 == y as int)
                    implies self.cell_at(x2, y2) == old(self).cell_at(x2, y2) by {
                lemma_row_major_in_range(self.width as int, self.height as int, x2, y2);
                lemma_row_major_distinct(
                    self.width as int, x as int, y as int, x2, y2,
                );
            }
        }
    }
}

impl Default for Field {
    /// The canonical 6 x 13 field, fully empty.
    fn default() -> (r: Self)
        ensures
            r.wf(),
            r.width == 6,
            r.height == 13,
            forall|x: int, y: int| 0 <= x < 6 && 0 <= y < 13 ==> r.cell_at(x, y) is None,
    {
        Field::new(6, 13)
    }
}

/// A row-major index stays within a `w` x `h` grid.
proof fn lemma_row_major_in_range(w: int, h: int, x: int, y: int)
    requires
        0 <= x < w,
        0 <= y < h,
    ensures
        0 <= y * w + x < w * h,
{
    assert(0 <= y * w + x < w * h) by (nonlinear_arith)
        requires
            0 <= x < w,
            0 <= y < h,
    ;
}

/// Distinct cells of one row-major grid have distinct indices.
proof fn lemma_row_major_distinct(w: int, x1: int, y1: int, x2: int, y2: int)
    requires
        0 <= x1 < w,
        0 <= x2 < w,
        0 <= y1,
        0 <= y2,
        !(x1 == x2 && y1 == y2),
    ensures
        y1 * w + x1 != y2 * w + x2,
{
    assert(y1 * w + x1 != y2 * w + x2) by (nonlinear_arith)
        requires
            0 <= x1 < w,
            0 <= x2 < w,
            0 <= y1,
            0 <= y2,
            !(x1 == x2 && y1 == y2),
    ;
}

} // verus!
