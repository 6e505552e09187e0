//! Static grid of per-cell entry costs.

use vstd::prelude::*;

use crate::grid::{cost_at, in_bounds, lemma_grid_size, lemma_row_major_index, lemma_row_major_injective};

verus! {

/// A grid of 8-bit traversal costs: the price of *entering* each cell.
/// 0 is legal (free passage) and 255 is legal (expensive, never blocking).
pub struct CostField {
    width: usize,
    height: usize,
    data: Vec<u8>,
}

impl CostField {
    pub closed spec fn spec_width(&self) -> int {
        self.width as int
    }

    pub closed spec fn spec_height(&self) -> int {
        self.height as int
    }

    /// The cost buffer, row-major: index = y * width + x.
    pub closed spec fn cells(&self) -> Seq<u8> {
        self.data@
    }

    /// Dimensions bounded to 1000 each and a buffer of exactly width * height cells.
    pub closed spec fn wf(&self) -> bool {
        &&& self.width <= 1000
        &&& self.height <= 1000
        &&& self.data@.len() == self.width * self.height
    }

    /// The cost of cell (x, y), widened to a mathematical integer.
    pub open spec fn spec_cost(&self, x: int, y: int) -> int {
        cost_at(self.cells(), self.spec_width(), (x, y))
    }

    /// Creates a grid with every cell's cost set to 1.
    pub fn new(width: usize, height: usize) -> (r: Self)
        requires
            width <= 1000,
            height <= 1000,
        ensures
            r.wf(),
            r.spec_width() == width,
            r.spec_height() == height,
            forall|x: int, y: int|
                in_bounds(width as int, height as int, (x, y)) ==> r.spec_cost(x, y) == 1,
    {
        proof {
            assert(width * height <= 1000 * 1000) by (nonlinear_arith)
                requires
                    width <= 1000,
                    height <= 1000,
            ;
        }
        let size = width * height;
        let mut data: Vec<u8> = Vec::new();
        let mut i: usize = 0;
        while i < size
            invariant
                i <= size,
                data@.len() == i,
                forall|j: int| 0 <= j < i ==> data@[j] == 1u8,
            decreases size - i,
        {
            data.push(1);
            i = i + 1;
        }
        let r = CostField { width, height, data };
        proof {
            assert forall|x: int, y: int|
                in_bounds(width as int, height as int, (x, y)) implies r.spec_cost(x, y) == 1 by {
                lemma_row_major_index(width as int, height as int, x, y);
            }
        }
        r
    }

    /// Reads one cell's cost, widened to 16 bits. The caller guarantees bounds.
    #[inline]
    pub fn get(&self, x: usize, y: usize) -> (r: u16)
        requires
            self.wf(),
            x < self.spec_width(),
            y < self.spec_height(),
        ensures
            r == self.spec_cost(x as int, y as int),
            r <= 255,
    {
        proof {
            lemma_row_major_index(self.spec_width(), self.spec_height(), x as int, y as int);
            lemma_grid_size(self.spec_width(), self.spec_height());
        }
        self.data[self.width * y + x] as u16
    }

    /// Overwrites one cell's cost. The caller guarantees bounds.
    #[inline]
    pub fn set(&mut self, x: usize, y: usize, cost: u8)
        requires
            old(self).wf(),
            x < old(self).spec_width(),
            y < old(self).spec_height(),
        ensures
            final(self).wf(),
            final(self).spec_width() == old(self).spec_width(),
            final(self).spec_height() == old(self).spec_height(),
            final(self).spec_cost(x as int, y as int) == cost,
            forall|cx: int, cy: int|
                in_bounds(old(self).spec_width(), old(self).spec_height(), (cx, cy)) && (cx, cy)
                    != (x as int, y as int) ==> final(self).spec_cost(cx, cy) == old(
                    self,
                ).spec_cost(cx, cy),
    {
        proof {
            lemma_row_major_index(self.spec_width(), self.spec_height(), x as int, y as int);
            lemma_grid_size(self.spec_width(), self.spec_height());
        }
        let idx = self.width * y + x;
        self.data.set(idx, cost);
        proof {
            let w = self.spec_width();
            let h = self.spec_height();
            assert forall|cx: int, cy: int|
                in_bounds(w, h, (cx, cy)) && (cx, cy) != (x as int, y as int) implies self.spec_cost(
                cx,
                cy,
            ) == old(self).spec_cost(cx, cy) by {
                lemma_row_major_index(w, h, cx, cy);
                if cy * w + cx == y * w + x {
                    lemma_row_major_injective(w, cx, cy, x as int, y as int);
                }
            }
        }
    }
}

} // verus!
