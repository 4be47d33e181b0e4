//! Kaldi's binary model files.

pub mod import;
pub mod objects;
pub mod read;
pub mod settings;
pub mod written;
