//! Integer core of a fractal flame renderer: the hit-count grid, the
//! mapping of cells to indices, the selection of a function by its
//! cumulative threshold and the iteration schedule of the chaos game.
pub mod picture;
pub mod schedule;
pub mod select;

pub use picture::Picture;
