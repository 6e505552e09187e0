//! Grid of per-cell compass directions, derived from a completed
//! integration field by pointing every cell at its cheapest neighbour.

use vstd::prelude::*;

use crate::direction::{direction, lemma_direction_none_iff, spec_direction, Direction};
use crate::grid::{in_bounds, lemma_grid_size, lemma_row_major_index, SENTINEL};
use crate::integration::IntegrationField;

verus! {

/// The stored value of (x, y) in `f`, or the sentinel outside the grid.
pub open spec fn bounded_value(f: &IntegrationField, x: int, y: int) -> u16 {
    if in_bounds(f.spec_width(), f.spec_height(), (x, y)) {
        f.values()[y * f.spec_width() + x]
    } else {
        SENTINEL
    }
}

/// The eight neighbour values of (x, y) in the fixed enumeration order
/// N, NE, E, SE, S, SW, W, NW; off-grid neighbours count as the sentinel.
pub open spec fn neighbour_values(f: &IntegrationField, x: int, y: int) -> Seq<u16> {
    seq![
        bounded_value(f, x, y - 1),
        bounded_value(f, x + 1, y - 1),
        bounded_value(f, x + 1, y),
        bounded_value(f, x + 1, y + 1),
        bounded_value(f, x, y + 1),
        bounded_value(f, x - 1, y + 1),
        bounded_value(f, x - 1, y),
        bounded_value(f, x - 1, y - 1),
    ]
}

/// The direction cell (x, y) receives: toward the first of its eight
/// neighbours holding the smallest value, when that value beats its own.
pub open spec fn flow_direction_at(f: &IntegrationField, x: int, y: int) -> u8 {
    spec_direction(bounded_value(f, x, y), neighbour_values(f, x, y))
}

/// A cell receives no direction exactly when it is a local minimum of the
/// cumulative-cost surface: none of its eight neighbours (off-grid ones
/// counting as the sentinel) holds a strictly smaller value.
pub proof fn lemma_flow_none_iff(f: &IntegrationField, x: int, y: int)
    ensures
        flow_direction_at(f, x, y) == 0 <==> (forall|j: int|
            0 <= j < 8 ==> neighbour_values(f, x, y)[j] >= bounded_value(f, x, y)),
{
    assert(neighbour_values(f, x, y).len() == 8);
    lemma_direction_none_iff(bounded_value(f, x, y), neighbour_values(f, x, y));
}

/// A grid of per-cell directions toward decreasing cumulative cost.
pub struct FlowField {
    width: usize,
    height: usize,
    data: Vec<Direction>,
}

impl FlowField {
    pub closed spec fn spec_width(&self) -> int {
        self.width as int
    }

    pub closed spec fn spec_height(&self) -> int {
        self.height as int
    }

    /// The direction buffer, row-major: index = y * width + x.
    pub closed spec fn directions(&self) -> Seq<Direction> {
        self.data@
    }

    /// Dimensions bounded to 1000 each and a buffer of exactly width * height cells.
    pub closed spec fn wf(&self) -> bool {
        &&& self.width <= 1000
        &&& self.height <= 1000
        &&& self.data@.len() == self.width * self.height
    }

    /// The direction stored for cell (x, y).
    pub open spec fn dir_at(&self, x: int, y: int) -> Direction {
        self.directions()[y * self.spec_width() + x]
    }

    #[inline]
    pub fn width(&self) -> (r: usize)
        ensures
            r == self.spec_width(),
    {
        self.width
    }

    #[inline]
    pub fn height(&self) -> (r: usize)
        ensures
            r == self.spec_height(),
    {
        self.height
    }

    /// Reads one cell's direction. The caller guarantees bounds.
    #[inline]
    pub fn get(&self, x: usize, y: usize) -> (r: Direction)
        requires
            self.wf(),
            x < self.spec_width(),
            y < self.spec_height(),
        ensures
            r == self.dir_at(x as int, y as int),
    {
        proof {
            lemma_row_major_index(self.spec_width(), self.spec_height(), x as int, y as int);
            lemma_grid_size(self.spec_width(), self.spec_height());
        }
        self.data[self.width * y + x]
    }

    /// Derives the whole direction grid from a completed integration field:
    /// every cell points at the first of its eight neighbours (in the order
    /// N, NE, E, SE, S, SW, W, NW) holding the smallest cumulative value,
    /// when that value is strictly below the cell's own; a local minimum
    /// gets no direction. Each cell depends only on the finished field, so
    /// the pass is a single independent sweep.
    #[verifier::loop_isolation(false)]
    pub fn from_integration_field(field: &IntegrationField) -> (r: Self)
        requires
            field.wf(),
        ensures
            r.wf(),
            r.spec_width() == field.spec_width(),
            r.spec_height() == field.spec_height(),
            forall|x: int, y: int|
                in_bounds(field.spec_width(), field.spec_height(), (x, y)) ==> (#[trigger] r.dir_at(
                    x,
                    y,
                )).spec_code() == flow_direction_at(field, x, y),
    {
        let width = field.width();
        let height = field.height();
        proof {
            field.lemma_wf_bounds();
            lemma_grid_size(width as int, height as int);
        }
        let mut data: Vec<Direction> = Vec::new();
        let mut yy: usize = 0;
        while yy < height
            invariant
                yy <= height,
                data@.len() == yy * width,
                forall|cx: int, cy: int|
                    0 <= cx < width && 0 <= cy < yy ==> (#[trigger] data@[cy * width
                        + cx]).spec_code() == flow_direction_at(field, cx, cy),
            decreases height - yy,
        {
            let mut xx: usize = 0;
            while xx < width
                invariant
                    xx <= width,
                    yy < height,
                    data@.len() == yy * width + xx,
                    forall|cx: int, cy: int|
                        0 <= cx < width && 0 <= cy < yy ==> (#[trigger] data@[cy * width
                            + cx]).spec_code() == flow_direction_at(field, cx, cy),
                    forall|cx: int|
                        0 <= cx < xx ==> (#[trigger] data@[yy * width + cx]).spec_code()
                            == flow_direction_at(field, cx, yy as int),
                decreases width - xx,
            {
                let xi = xx as isize;
                let yi = yy as isize;
                let own = field.get_bounding(xi, yi);
                let mut vals: Vec<u16> = Vec::with_capacity(8);
                vals.push(field.get_bounding(xi, yi - 1));
                vals.push(field.get_bounding(xi + 1, yi - 1));
                vals.push(field.get_bounding(xi + 1, yi));
                vals.push(field.get_bounding(xi + 1, yi + 1));
                vals.push(field.get_bounding(xi, yi + 1));
                vals.push(field.get_bounding(xi - 1, yi + 1));
                vals.push(field.get_bounding(xi - 1, yi));
                vals.push(field.get_bounding(xi - 1, yi - 1));
                proof {
                    assert(vals@ =~= neighbour_values(field, xx as int, yy as int));
                    assert(own == bounded_value(field, xx as int, yy as int));
                    assert(yy * width + xx < width * height) by (nonlinear_arith)
                        requires
                            0 <= xx < width,
                            0 <= yy < height,
                    ;
                }
                let d = direction(own, vals.as_slice());
                data.push(d);
                proof {
                    assert(data@[yy * width + xx] == d);
                    assert forall|cx: int, cy: int|
                        0 <= cx < width && 0 <= cy < yy implies (#[trigger] data@[cy * width
                        + cx]).spec_code() == flow_direction_at(field, cx, cy) by {
                        assert(cy * width + cx < yy * width + xx) by (nonlinear_arith)
                            requires
                                0 <= cx < width,
                                0 <= cy < yy,
                                0 <= xx,
                        ;
                    }
                }
                xx = xx + 1;
            }
            yy = yy + 1;
            proof {
                assert(data@.len() == yy * width) by (nonlinear_arith)
                    requires
                        data@.len() == (yy - 1) * width + width,
                ;
            }
        }
        proof {
            assert(data@.len() == width * height) by (nonlinear_arith)
                requires
                    data@.len() == yy * width,
                    yy == height,
            ;
        }
        let r = FlowField { width, height, data };
        proof {
            assert forall|x: int, y: int|
                in_bounds(width as int, height as int, (x, y)) implies (#[trigger] r.dir_at(
                x,
                y,
            )).spec_code() == flow_direction_at(field, x, y) by {
                assert(r.directions()[y * width + x] == data@[y * width + x]);
            }
        }
        r
    }
}

} // verus!
