//! Features and the transforms that are applied to them.

pub mod laws;
pub mod mfcc;
pub mod numbers;
pub mod options;
pub mod transform;
pub mod window;
