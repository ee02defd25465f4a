//! Segmentation of a stream of hydrophone samples into overlapping chunks,
//! the take-then-peek reader over a circular sample buffer, and the
//! integer side of the bubble search on a scaleogram.
//!
//! Samples and scaleogram magnitudes are carried through this crate as the
//! bit patterns of their single-precision values (`u32`): the library moves
//! them, orders them and finds them again, and never computes with them.
pub mod config;
pub mod segmenter;
pub mod iter;
pub mod wavelets;
pub mod ieee;
pub mod analysis;
pub mod mean_shift_clustering;
