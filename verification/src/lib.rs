//! Color quantization for RGBA images, together with an indexed-PNG codec.
//!
//! The pipeline builds a weighted color histogram from a raw RGBA buffer,
//! derives a palette of at most 256 entries by variance-guided box splitting,
//! scores how well the palette represents the source, remaps every pixel to
//! its nearest palette entry (optionally with error-diffusion dithering), and
//! reads or writes the result as an indexed PNG with a transparency table.

pub mod pixel;
pub mod errors;
pub mod crc;
pub mod zlib;
pub mod codec;
pub mod hist;
pub mod remap;
pub mod quality;
pub mod palette;
pub mod quantizer;
