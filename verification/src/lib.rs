//! An image codec for two raster formats: PNG (chunked, CRC-checked,
//! zlib-compressed, filtered and optionally Adam7-interlaced) and the
//! plain-text pixmap format. Both sides work on in-memory bytes and meet in
//! a shared 8-bit RGBA raster model; file I/O is left to callers.

pub mod adam7;
pub mod bytes;
pub mod checksum;
pub mod chunk;
pub mod color;
pub mod error;
pub mod filter;
pub mod ihdr;
pub mod image;
pub mod interface;
pub mod png;
pub mod png_reader;
pub mod png_writer;
pub mod ppm_reader;
pub mod ppm_writer;
pub mod roundtrip;
pub mod sample;
pub mod zlib;
