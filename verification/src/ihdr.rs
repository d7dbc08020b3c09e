use vstd::prelude::*;

use crate::bytes::{be32_bytes, push_be32, read_be32};
use crate::chunk::be32_at;
use crate::error::CodecError;

verus! {

/// The closed set of PNG color types, with their on-wire codes.
#[derive(Clone, Copy, Debug, PartialEq, Eq, Structural)]
pub enum ColorType {
    Grayscale,
    RGB,
    Palette,
    GrayscaleAlpha,
    RGBA,
}

impl ColorType {
    /// The on-wire code of this color type.
    pub open spec fn code(self) -> u8 {
        match self {
            ColorType::Grayscale => 0u8,
            ColorType::RGB => 2u8,
            ColorType::Palette => 3u8,
            ColorType::GrayscaleAlpha => 4u8,
            ColorType::RGBA => 6u8,
        }
    }

    /// How many samples one pixel carries.
    pub open spec fn channels(self) -> int {
        match self {
            ColorType::Grayscale => 1,
            ColorType::RGB => 3,
            ColorType::Palette => 1,
            ColorType::GrayscaleAlpha => 2,
            ColorType::RGBA => 4,
        }
    }

    /// Whether a code is one of the five defined color types.
    pub open spec fn code_valid(value: u8) -> bool {
        value == 0 || value == 2 || value == 3 || value == 4 || value == 6
    }

    /// Maps an on-wire code to its color type; any other code is a
    /// `BadColorType` error.
    pub fn from_code(value: u8) -> (r: Result<ColorType, CodecError>)
        ensures
            match r {
                Ok(ct) => Self::code_valid(value) && ct.code() == value,
                Err(e) => e == CodecError::BadColorType && !Self::code_valid(value),
            },
    {
        match value {
            0 => Ok(ColorType::Grayscale),
            2 => Ok(ColorType::RGB),
            3 => Ok(ColorType::Palette),
            4 => Ok(ColorType::GrayscaleAlpha),
            6 => Ok(ColorType::RGBA),
            _ => Err(CodecError::BadColorType),
        }
    }

    pub fn to_code(&self) -> (r: u8)
        ensures
            r == self.code(),
    {
        match self {
            ColorType::Grayscale => 0,
            ColorType::RGB => 2,
            ColorType::Palette => 3,
            ColorType::GrayscaleAlpha => 4,
            ColorType::RGBA => 6,
        }
    }
}

/// The image header: the fixed 13-byte IHDR payload, decoded.
#[derive(Clone, Copy, Debug, PartialEq, Eq, Structural)]
pub struct IHDR {
    pub width: u32,
    pub height: u32,
    pub bit_depth: u8,
    pub color_type: ColorType,
    pub compression_method: u8,
    pub filter_method: u8,
    pub interlace_method: u8,
}

/// The 13 payload bytes of an image header, in declared order.
pub open spec fn ihdr_bytes(h: IHDR) -> Seq<u8> {
    be32_bytes(h.width) + be32_bytes(h.height) + seq![
        h.bit_depth,
        h.color_type.code(),
        h.compression_method,
        h.filter_method,
        h.interlace_method,
    ]
}

impl IHDR {
    /// Bytes per complete pixel: channel count times bytes per sample.
    pub open spec fn spec_bytes_per_pixel(self) -> int {
        self.color_type.channels() * (self.bit_depth as int) / 8
    }

    pub fn bytes_per_pixel(&self) -> (r: usize)
        ensures
            r == self.spec_bytes_per_pixel(),
    {
        match self.color_type {
            ColorType::Grayscale => self.bit_depth as usize / 8,
            ColorType::RGB => 3 * self.bit_depth as usize / 8,
            ColorType::Palette => self.bit_depth as usize / 8,
            ColorType::GrayscaleAlpha => 2 * self.bit_depth as usize / 8,
            ColorType::RGBA => 4 * self.bit_depth as usize / 8,
        }
    }

    pub fn has_alpha(&self) -> (r: bool)
        ensures
            r == (self.color_type == ColorType::GrayscaleAlpha || self.color_type
                == ColorType::RGBA),
    {
        match self.color_type {
            ColorType::GrayscaleAlpha | ColorType::RGBA => true,
            _ => false,
        }
    }

    /// Decodes an image header from a chunk payload. The payload must hold
    /// at least the 13 declared bytes; extra bytes are ignored.
    pub fn read(data: &Vec<u8>) -> (r: Result<IHDR, CodecError>)
        ensures
            match r {
                Ok(h) => {
                    &&& data@.len() >= 13
                    &&& h.width == be32_at(data@, 0)
                    &&& h.height == be32_at(data@, 4)
                    &&& h.bit_depth == data@[8]
                    &&& ColorType::code_valid(data@[9])
                    &&& h.color_type.code() == data@[9]
                    &&& h.compression_method == data@[10]
                    &&& h.filter_method == data@[11]
                    &&& h.interlace_method == data@[12]
                },
                Err(e) => {
                    ||| (e == CodecError::ShortChunk && data@.len() < 13)
                    ||| (e == CodecError::BadColorType && data@.len() >= 13
                        && !ColorType::code_valid(data@[9]))
                },
            },
    {
        if data.len() < 13 {
            return Err(CodecError::ShortChunk);
        }
        let width = read_be32(data, 0);
        let height = read_be32(data, 4);
        let bit_depth = data[8];
        let color_type = ColorType::from_code(data[9])?;
        let compression_method = data[10];
        let filter_method = data[11];
        let interlace_method = data[12];
        Ok(
            IHDR {
                width,
                height,
                bit_depth,
                color_type,
                compression_method,
                filter_method,
                interlace_method,
            },
        )
    }

    /// Appends the 13 payload bytes of this header.
    pub fn write(&self, out: &mut Vec<u8>)
        ensures
            final(out)@ == old(out)@ + ihdr_bytes(*self),
    {
        let ghost out0 = out@;
        push_be32(out, self.width);
        push_be32(out, self.height);
        out.push(self.bit_depth);
        out.push(self.color_type.to_code());
        out.push(self.compression_method);
        out.push(self.filter_method);
        out.push(self.interlace_method);
        proof {
            assert(out@ =~= out0 + ihdr_bytes(*self));
        }
    }
}

/// Reading back the 13 bytes that `write` produces restores every field.
pub proof fn lemma_ihdr_roundtrip(h: IHDR)
    ensures
        ihdr_bytes(h).len() == 13,
        be32_at(ihdr_bytes(h), 0) == h.width,
        be32_at(ihdr_bytes(h), 4) == h.height,
        ihdr_bytes(h)[8] == h.bit_depth,
        ihdr_bytes(h)[9] == h.color_type.code(),
        ColorType::code_valid(ihdr_bytes(h)[9]),
        ihdr_bytes(h)[10] == h.compression_method,
        ihdr_bytes(h)[11] == h.filter_method,
        ihdr_bytes(h)[12] == h.interlace_method,
{
    crate::bytes::lemma_be32_roundtrip(h.width);
    crate::bytes::lemma_be32_roundtrip(h.height);
}

} // verus!
