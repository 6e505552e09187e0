//! Shared grid-indexing model: row-major layout, bounds, orthogonal
//! adjacency, and the list of in-bounds orthogonal neighbours of a cell.

use vstd::prelude::*;

verus! {

/// The stored value that stands for "not yet reached / unreachable".
pub const SENTINEL: u16 = 0xffff;

/// A cell (x, y) lies inside a `w` by `h` grid.
pub open spec fn in_bounds(w: int, h: int, c: (int, int)) -> bool {
    0 <= c.0 < w && 0 <= c.1 < h
}

/// Two cells differ by exactly one orthogonal step (north, east, south or west).
pub open spec fn ortho_adjacent(a: (int, int), b: (int, int)) -> bool {
    ||| b.0 == a.0 - 1 && b.1 == a.1
    ||| b.0 == a.0 + 1 && b.1 == a.1
    ||| b.0 == a.0 && b.1 == a.1 - 1
    ||| b.0 == a.0 && b.1 == a.1 + 1
}

/// The entry cost of cell `c` in a row-major cost grid of width `w`.
pub open spec fn cost_at(costs: Seq<u8>, w: int, c: (int, int)) -> int {
    costs[c.1 * w + c.0] as int
}

/// The stored cumulative value of cell `c` in a row-major value grid of width `w`.
pub open spec fn value_of(vals: Seq<u16>, w: int, c: (int, int)) -> int {
    vals[c.1 * w + c.0] as int
}

/// A row-major index of an in-bounds cell lies inside the buffer.
pub proof fn lemma_row_major_index(w: int, h: int, x: int, y: int)
    requires
        0 <= x < w,
        0 <= y < h,
    ensures
        0 <= y * w + x < w * h,
        y * w >= 0,
{
    assert(0 <= y * w + x < w * h && y * w >= 0) by (nonlinear_arith)
        requires
            0 <= x < w,
            0 <= y < h,
    ;
}

/// The cell count of a grid within the 1000 by 1000 bound fits comfortably
/// in a machine word.
pub proof fn lemma_grid_size(w: int, h: int)
    requires
        0 <= w <= 1000,
        0 <= h <= 1000,
    ensures
        0 <= w * h <= 1000000,
{
    assert(0 <= w * h <= 1000000) by (nonlinear_arith)
        requires
            0 <= w <= 1000,
            0 <= h <= 1000,
    ;
}

/// Distinct in-bounds cells have distinct row-major indices.
pub proof fn lemma_row_major_injective(w: int, x1: int, y1: int, x2: int, y2: int)
    requires
        0 <= x1 < w,
        0 <= x2 < w,
        0 <= y1,
        0 <= y2,
        y1 * w + x1 == y2 * w + x2,
    ensures
        x1 == x2 && y1 == y2,
{
    assert(x1 == x2 && y1 == y2) by (nonlinear_arith)
        requires
            0 <= x1 < w,
            0 <= x2 < w,
            0 <= y1,
            0 <= y2,
            y1 * w + x1 == y2 * w + x2,
    ;
}

/// The in-bounds orthogonal neighbours of (x, y), in the order the
/// propagation enumerates them: west, east, north, south.
pub open spec fn ortho_neighbour_list(w: int, h: int, x: int, y: int) -> Seq<(int, int)> {
    (if x > 0 {
        seq![(x - 1, y)]
    } else {
        Seq::<(int, int)>::empty()
    }) + (if x < w - 1 {
        seq![(x + 1, y)]
    } else {
        Seq::<(int, int)>::empty()
    }) + (if y > 0 {
        seq![(x, y - 1)]
    } else {
        Seq::<(int, int)>::empty()
    }) + (if y < h - 1 {
        seq![(x, y + 1)]
    } else {
        Seq::<(int, int)>::empty()
    })
}

/// The neighbour list holds exactly the in-bounds cells orthogonally
/// adjacent to (x, y).
pub proof fn lemma_neighbour_list_iff(w: int, h: int, x: int, y: int, c: (int, int))
    requires
        in_bounds(w, h, (x, y)),
    ensures
        ortho_neighbour_list(w, h, x, y).contains(c) <==> (in_bounds(w, h, c) && ortho_adjacent(
            (x, y),
            c,
        )),
{
    let l = ortho_neighbour_list(w, h, x, y);
    if in_bounds(w, h, c) && ortho_adjacent((x, y), c) {
        if c == ((x - 1, y)) {
            assert(l[0] == c);
        } else if c == ((x + 1, y)) {
            let i = if x > 0 { 1int } else { 0int };
            assert(l[i] == c);
        } else if c == ((x, y - 1)) {
            let i = (if x > 0 { 1int } else { 0int }) + (if x < w - 1 { 1int } else { 0int });
            assert(l[i] == c);
        } else {
            let i = (if x > 0 { 1int } else { 0int }) + (if x < w - 1 { 1int } else { 0int }) + (
            if y > 0 {
                1int
            } else {
                0int
            });
            assert(l[i] == c);
        }
        assert(l.contains(c));
    }
    if l.contains(c) {
        let i = choose|i: int| 0 <= i < l.len() && l[i] == c;
        assert(in_bounds(w, h, c) && ortho_adjacent((x, y), c));
    }
}

} // verus!
