//! Phone HMMs: topologies, transition models, context trees and decoding graphs.

pub mod construct;
pub mod context;
pub mod costs;
pub mod endings;
pub mod error;
pub mod graph;
pub mod selfloops;
pub mod spoken;
pub mod topology;
pub mod transition;
pub mod utils;
pub mod words;
