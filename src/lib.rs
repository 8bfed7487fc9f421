//! A still-image codec built on a fractal (twindragon) tiling of the plane:
//! an integer Haar-like lifting transform over the binary tree inside each
//! tile, neighbourhood-based prediction, and the symbol statistics of an
//! interleaved rANS entropy coder.

pub mod cell;
pub mod codec;
pub mod context_modeling;
pub mod entropy;
pub mod fractal;
pub mod images;
pub mod lifting;
pub mod pipeline;
pub mod prediction;
pub mod serialize;
pub mod utils;
pub mod wavelet;
