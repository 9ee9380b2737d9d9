//! Least-significant-bit steganography over an RGB channel grid.
//!
//! A text payload, followed by an end marker, is written as a bit stream into
//! the low-order bits of the channels of a pixel grid, a chosen number of bits
//! per channel, and read back from them at the same width.
pub mod bits;
pub mod capacity;
pub mod decode;
pub mod encode;
pub mod grid;
pub mod laws;

pub use bits::{text_to_bits, to_binary};
pub use capacity::is_encodable;
pub use decode::decode_image;
pub use encode::encode_image;
pub use grid::{PixelGrid, StegoError};
