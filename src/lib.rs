//! Exact packing of a grid region with rotated copies of shapes.
//!
//! - `position`: grid cells, offsets, and the order of cells.
//! - `symmetry`: the rotations of the cube.
//! - `piece`: placed shapes as sorted sets of cells.
//! - `template`: shape definitions and their distinct orientations.
//! - `solver`: the region to fill, the supply of shapes, and the search.
//! - `text`: plain-text rendering.

pub mod piece;
pub mod position;
pub mod solver;
pub mod symmetry;
pub mod template;
pub mod text;

pub use piece::{Piece, PositionIterator};
pub use position::{Position, Translation};
pub use solver::{solve, solve_with, Bag, Solution, Target};
pub use symmetry::CubeSymmetry;
pub use template::{PieceIterator, Template};
