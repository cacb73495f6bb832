//! Dense row-major matrix multiply-accumulate, `C <- C + A * B`.
//!
//! The kernels accumulate: they add the product to what `C` holds, and leave it to the caller
//! to clear `C` first where the plain product is wanted. They are generic over the element
//! type and are handed its fused multiply-add, so that one proof covers every arithmetic.
//!
//! `sgemm` spreads the rows of `C` over a worker pool; `sgemm_sequential` computes them one
//! after the other; `try_sgemm` checks the buffer lengths first.

pub mod checked;
pub mod kernel;
pub mod laws;
pub mod model;
pub mod parallel;
pub mod view;

pub use checked::{check_dimensions, try_sgemm, DimensionMismatch};
pub use kernel::{accumulate_row, sgemm_sequential};
pub use parallel::{accumulate_chunk, sgemm};
pub use view::{Matrix, MutMatrix};
