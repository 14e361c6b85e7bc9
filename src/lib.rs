//! A simulated hypercube of `n^3` processors that multiplies two `n x n`
//! integer matrices in five observable steps: broadcast along Y, selection of
//! A along Y, selection of B along Z, pointwise product, and reduction of C
//! along Y.

pub mod address;
pub mod grid;
pub mod hypercube;
pub mod laws;
pub mod render;
pub mod wrap;

pub use address::{decode, encode};
pub use grid::Processor;
pub use hypercube::{Hypercube, HypercubeError};
pub use render::{push_decimal, Register};
