//! Audio: what a block is made of, takes and the files they become.

pub mod capture;
pub mod decode;
pub mod engine;
pub mod limiter;
pub mod wav;
