//! Geometry of a grid-based fluid simulation, verified: Morton indexing of
//! the cells, the walls of the square grid and the shapes drawn into it, the
//! staggered power-of-two grid, the numbering of solid objects, Bresenham
//! lines, and the decisions taken on mouse input while walls are drawn.
use vstd::prelude::*;

pub mod grid;
pub mod grid2;
pub mod interaction;
pub mod labels;
pub mod line;
pub mod morton;

verus! {

} // verus!
