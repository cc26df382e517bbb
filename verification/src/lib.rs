//! Lempel–Ziv–Welch compression of byte strings into fixed-width integer
//! codes, with every function proved against a mathematical model of the
//! coder.

pub mod decoder;
pub mod encoder;
pub mod laws;
pub mod model;
pub mod packing;

pub use decoder::{decompress, InvalidCode};
pub use encoder::{compress, MAX_INPUT_LEN};
pub use packing::{to_bytes, to_u32};
