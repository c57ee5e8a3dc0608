//! Logical core of a rotatable-pipe connectivity puzzle on a square grid.
//!
//! A puzzle is a grid of tiles, each carrying a pipe shape in one of four
//! orientations. A single source tile feeds energy through connected pipes;
//! walls block individual edges, and the board may optionally wrap around
//! like a torus. The [`builder`] module generates random puzzles; the
//! [`puzzle`] module owns the energy propagation that recomputes which
//! tiles are powered.

pub mod builder;
pub mod direction;
pub mod grid;
pub mod laws;
pub mod links;
pub mod puzzle;
mod rng;
pub mod tile;
pub mod vec2;

pub use builder::Builder;
pub use direction::Direction;
pub use grid::Grid;
pub use links::Links;
pub use puzzle::{Alignment, Difficulty, Options, Puzzle, Wall};
pub use tile::{Feature, Kind, Orientation, Tile};
pub use vec2::Vec2;
