//! Batched scoring and accumulation.

pub mod accum;
pub mod fmllr;
pub mod groups;
pub mod jobs;
pub mod plan;
pub mod score;
