//! Reading, writing and transforming PPM raster images.
//!
//! The library works on bytes held in memory: a caller reads a file and hands
//! its bytes to a decoder, or takes the encoder's bytes and writes them out.
//!
//! * [`pixel`]: the RGB pixel and its two transforms.
//! * [`image`]: the image, a header and a raster, and the transforms over it.
//! * [`text`]: lines, tokens and decimal numbers on bytes.
//! * [`decode`]: the text decoder and the binary decoder.
//! * [`encode`]: the text encoder.
//! * [`round_trip`]: the proof that the text decoder undoes the encoder.

pub mod decode;
pub mod encode;
pub mod image;
pub mod pixel;
pub mod round_trip;
pub mod text;

pub use crate::decode::{decode_binary, decode_text, read_header, DecodeError, Header};
pub use crate::encode::encode_text;
pub use crate::image::Image;
pub use crate::pixel::Pixel;
