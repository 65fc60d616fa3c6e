//! Maximum path sums through triangular and square grids of unsigned
//! integers, reduced in place one row at a time.

pub mod grid;
pub mod input;
pub mod layer;

pub use grid::{checked_pyramid, checked_rectangle, get_size, pyramid, rectangle, ShapeError};
pub use input::{gen_data, CELL_LIMIT};
pub use layer::{chunk_len, combine_chunk, LayerCalc, ParallelSplit, Simple, Vectorization};
