//! Least-significant-bit steganography over three-channel pixel images.
//!
//! A payload is framed as a 63-bit length header followed by its bits and is
//! spread, seven bits per pixel, over the low bits of the red, green and blue
//! channels of a carrier image.
//!
//! - [`bits`]: bit sequences and the numbers they spell.
//! - [`reader`], [`writer`]: a bit source over bytes and a bit sink into bytes.
//! - [`image`]: pixels, the grid that models an image, and the [`Image`] trait.
//! - [`word`]: the seven-bit word of a pixel and the addressing of words.
//! - [`frame`]: the length header and the payload words.
//! - [`stream`]: [`ImageDataStream`], which embeds and extracts payloads.
//! - [`bmp`], [`le`]: bitmap files as carriers, and their little-endian fields.
//! - [`laws`]: what is proved of these together.

pub mod bits;
pub mod bmp;
pub mod error;
pub mod frame;
pub mod image;
pub mod laws;
pub mod le;
pub mod reader;
pub mod stream;
pub mod word;
pub mod writer;

pub use bmp::{Header, BMP};
pub use error::StreamError;
pub use image::{Grid, Image, Pixel};
pub use reader::FileBitReader;
pub use stream::ImageDataStream;
pub use writer::FileBitWriter;
