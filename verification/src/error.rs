use vstd::prelude::*;

verus! {

/// Everything that can go wrong while decoding or encoding an image,
/// apart from file I/O, which callers handle themselves.
#[derive(Clone, Copy, Debug, PartialEq, Eq, Structural)]
pub enum CodecError {
    /// The stream does not start with the expected magic bytes.
    BadSignature,
    /// A chunk header, payload or trailer ended before its declared size.
    ShortChunk,
    /// No IHDR chunk was found before the image data.
    MissingIHDR,
    /// The IHDR names a color-type code outside the closed set.
    BadColorType,
    /// A feature outside the supported profile: bit depth other than 8,
    /// a nonzero compression or filter method, an interlace method other
    /// than 0 or 1, the palette color type, or a sample value over 255.
    Unsupported,
    /// The compressed image data is not a valid zlib stream.
    ZlibFailure,
    /// A scanline declares a filter type outside 0..=4.
    BadFilterType,
    /// The pixel data ends before the declared dimensions are filled.
    TruncatedPixelStream,
}

} // verus!
