//! Splitting a recording into stretches of steady pitch.

pub mod segmentation;

pub use segmentation::Subtrack;
