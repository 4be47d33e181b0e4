//! Forced alignment of speech with HMM-GMM acoustic models.

pub mod align;
pub mod audio;
pub mod device;
pub mod exact;
pub mod feat;
pub mod float;
pub mod gmm;
pub mod hmm;
pub mod io;
pub mod kaldi_io;
pub mod model;
pub mod order;
pub mod random;
pub mod scan;
pub mod table;
pub mod text;
pub mod train;
pub mod tree;
pub mod types;
