//! A flow-field pathfinding kernel over a bounded 2D grid.
//!
//! Three stages: a [`cost::CostField`] stores per-cell entry costs, an
//! [`integration::IntegrationField`] propagates minimal cumulative costs
//! outward from a goal cell by FIFO wavefront relaxation, and a
//! [`flow::FlowField`] derives a compass direction per cell pointing toward
//! decreasing cumulative cost.

use vstd::prelude::*;

pub mod cost;
pub mod direction;
pub mod flow;
pub mod grid;
pub mod integration;
pub mod paths;

pub use cost::CostField;
pub use direction::Direction;
pub use flow::FlowField;
pub use integration::IntegrationField;
pub use integration::TodoItem;

verus! {

/// Adds two to an integer.
pub fn add_two(a: i32) -> (r: i32)
    requires
        a + 2 <= i32::MAX,
    ensures
        r == a + 2,
{
    a + 2
}

} // verus!
