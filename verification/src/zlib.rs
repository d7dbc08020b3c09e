use std::io::Read;
use std::io::Write;

use vstd::prelude::*;

verus! {

/// The zlib stream that compressing a byte sequence at the default level
/// produces, as `flate2` with its pure-Rust backend computes it. The output
/// depends on the input bytes alone.
pub uninterp spec fn deflate_of(data: Seq<u8>) -> Seq<u8>;

/// What decompressing a byte sequence as a zlib stream yields: `None` when
/// the bytes are not a well-formed stream. The outcome depends on the input
/// bytes alone.
pub uninterp spec fn inflate_of(data: Seq<u8>) -> Option<Seq<u8>>;

/// Relies on `flate2::write::ZlibEncoder` at `Compression::default()`:
/// compression is deterministic in the input, and zlib compression is
/// lossless, so decompressing the output restores the input. Writing into a
/// `Vec` sink cannot fail.
#[verifier::external_body]
pub(crate) fn zlib_compress(data: &Vec<u8>) -> (r: Vec<u8>)
    ensures
        r@ == deflate_of(data@),
        inflate_of(r@) == Some(data@),
{
    let mut encoder = flate2::write::ZlibEncoder::new(
        Vec::new(),
        flate2::Compression::default(),
    );
    encoder.write_all(data.as_slice()).expect("writing to a Vec cannot fail");
    encoder.finish().expect("writing to a Vec cannot fail")
}

/// Relies on `flate2::read::ZlibDecoder`: decompression is deterministic in
/// the input and fails exactly on streams that are not well-formed zlib.
#[verifier::external_body]
pub(crate) fn zlib_decompress(data: &Vec<u8>) -> (r: Option<Vec<u8>>)
    ensures
        match r {
            Some(v) => inflate_of(data@) == Some(v@),
            None => inflate_of(data@) is None,
        },
{
    let mut decoder = flate2::read::ZlibDecoder::new(data.as_slice());
    let mut out = Vec::new();
    match decoder.read_to_end(&mut out) {
        Ok(_) => Some(out),
        Err(_) => None,
    }
}

} // verus!
