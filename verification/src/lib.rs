//! A verified lossless codec for the QOI (Quite OK Image) binary format.
//!
//! The stream is a 14-byte header, a sequence of tagged chunks that encode
//! pixels as cache hits, deltas from the previous pixel, literals or runs,
//! and a fixed 8-byte end marker. `decode` and `encode` share one predictive
//! model (previous pixel plus a 64-slot color cache), and the crate proves
//! that decoding an encoded image gives back exactly the original pixels.

pub mod chunk;
pub mod color;
pub mod decode;
pub mod encode;
pub mod error;
pub mod header;
pub mod image;
pub mod model;
pub mod roundtrip;

pub use chunk::Chunk;
pub use color::Color;
pub use decode::decode;
pub use encode::{encode, pixels_to_data};
pub use error::QoiError;
pub use header::Header;
pub use image::{Image, ImageV};
