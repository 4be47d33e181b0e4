//! Diagonal-covariance Gaussian mixtures: their constants, and what is decided about them.

pub mod accum;
pub mod am;
pub mod diag;
pub mod estimates;
pub mod flags;
pub mod gaussian;
pub mod laws;
pub mod matrix;
pub mod merge;
pub mod mixing;
pub mod mle;
pub mod packed;
pub mod packing;
pub mod targets;
