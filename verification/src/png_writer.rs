use vstd::prelude::*;

use crate::bytes::push_all;
use crate::checksum::{crc32, crc32_of};
use crate::chunk::{idat_tag, iend_tag, ihdr_tag, model_bytes, Chunk, ChunkModel, ChunkType};
use crate::color::Color;
use crate::error::CodecError;
use crate::filter::{filter_spec, paeth, predictor, wsub};
use crate::ihdr::{ihdr_bytes, ColorType, IHDR};
use crate::image::Image;
use crate::interface::Writer;
use crate::png::{png_signature, PNG};
use crate::sample::pack_row;
use crate::zlib::{deflate_of, inflate_of, zlib_compress};

verus! {

/// Encoder settings: sample layout of the file to produce.
pub struct Settings {
    pub bit_depth: u8,
    pub color_type: ColorType,
    pub interlace_method: u8,
}

/// What the write path supports: 8-bit samples, no palette, no interlacing.
pub open spec fn settings_supported(s: Settings) -> bool {
    &&& s.bit_depth == 8
    &&& s.color_type != ColorType::Palette
    &&& s.interlace_method == 0
}

/// The packed sample rows of a whole image.
pub open spec fn packed_mat(ct: ColorType, mat: Seq<Seq<Color>>) -> Seq<Seq<u8>> {
    mat.map_values(|row: Seq<Color>| pack_row(ct, row))
}

/// The packed row a scanline is filtered against: the row above, or nothing
/// for the first row.
pub open spec fn row_prev(rows: Seq<Seq<u8>>, y: int) -> Seq<u8> {
    if y == 0 {
        Seq::empty()
    } else {
        rows[y - 1]
    }
}

/// What filter type `f` costs for a row: the length of the zlib stream its
/// filtered bytes compress to.
pub open spec fn filter_cost(x: Seq<u8>, prev: Seq<u8>, bpp: int, f: u8) -> int {
    deflate_of(filter_spec(f, x, prev, bpp)).len() as int
}

/// The cheapest filter type among 0..=f, ties going to the lowest number.
pub open spec fn chosen_filter_upto(x: Seq<u8>, prev: Seq<u8>, bpp: int, f: int) -> u8
    decreases f,
{
    if f <= 0 {
        0u8
    } else {
        let b = chosen_filter_upto(x, prev, bpp, f - 1);
        if filter_cost(x, prev, bpp, f as u8) < filter_cost(x, prev, bpp, b) {
            f as u8
        } else {
            b
        }
    }
}

/// The filter type the encoder picks for a row: the one of the five whose
/// output compresses smallest, ties going to the lowest type number.
pub open spec fn chosen_filter(x: Seq<u8>, prev: Seq<u8>, bpp: int) -> u8 {
    chosen_filter_upto(x, prev, bpp, 4)
}

/// The filtered scanline stream of the first `n` packed rows: per row one
/// filter-type byte, then the filtered bytes.
pub open spec fn filtered_rows(rows: Seq<Seq<u8>>, bpp: int, n: int) -> Seq<u8>
    decreases n,
{
    if n <= 0 {
        Seq::empty()
    } else {
        let x = rows[n - 1];
        let prev = row_prev(rows, n - 1);
        let bf = chosen_filter(x, prev, bpp);
        filtered_rows(rows, bpp, n - 1) + seq![bf] + filter_spec(bf, x, prev, bpp)
    }
}

/// The whole filtered scanline stream of an image.
pub open spec fn encoded_stream(ct: ColorType, mat: Seq<Seq<Color>>) -> Seq<u8> {
    filtered_rows(packed_mat(ct, mat), ct.channels(), mat.len() as int)
}

/// The compressed image data fits the 32-bit chunk length field.
pub open spec fn encoded_len_fits(ct: ColorType, mat: Seq<Seq<Color>>) -> bool {
    deflate_of(encoded_stream(ct, mat)).len() <= u32::MAX
}

/// The header the encoder writes for an image of the given size.
pub open spec fn encode_ihdr(w: u32, h: u32, s: Settings) -> IHDR {
    IHDR {
        width: w,
        height: h,
        bit_depth: s.bit_depth,
        color_type: s.color_type,
        compression_method: 0u8,
        filter_method: 0u8,
        interlace_method: s.interlace_method,
    }
}

/// Every byte of the file the encoder produces: the signature, an IHDR
/// chunk, one IDAT chunk holding the compressed filtered stream, and an
/// IEND chunk, each with its CRC over tag and payload.
pub open spec fn encode_file_bytes(mat: Seq<Seq<Color>>, w: u32, h: u32, s: Settings) -> Seq<u8> {
    let hp = ihdr_bytes(encode_ihdr(w, h, s));
    let z = deflate_of(encoded_stream(s.color_type, mat));
    png_signature() + model_bytes(
        ChunkModel { length: 13u32, tag: ihdr_tag(), data: hp, crc: crc32_of(ihdr_tag() + hp) },
    ) + model_bytes(
        ChunkModel {
            length: z.len() as u32,
            tag: idat_tag(),
            data: z,
            crc: crc32_of(idat_tag() + z),
        },
    ) + model_bytes(
        ChunkModel {
            length: 0u32,
            tag: iend_tag(),
            data: Seq::empty(),
            crc: crc32_of(iend_tag() + Seq::empty()),
        },
    )
}

/// The PNG encoder.
pub struct PNGWriter {
    pub settings: Settings,
}

impl PNGWriter {
    /// The CRC stored with a chunk: the checksum of the tag bytes followed
    /// by the payload bytes.
    pub fn crc(&self, chunk_type: &Vec<u8>, chunk_data: &Vec<u8>) -> (r: u32)
        ensures
            r == crc32_of(chunk_type@ + chunk_data@),
    {
        let mut buf: Vec<u8> = Vec::new();
        push_all(&mut buf, chunk_type);
        push_all(&mut buf, chunk_data);
        proof {
            assert(buf@ =~= chunk_type@ + chunk_data@);
        }
        crc32(&buf)
    }

    /// Filters one packed scanline against the packed row above it.
    pub fn filter_scanline(
        &self,
        filter_type: u8,
        scanline: &[u8],
        prev_scanline: &[u8],
        bpp: usize,
    ) -> (r: Vec<u8>)
        requires
            filter_type <= 4,
            bpp >= 1,
            prev_scanline@.len() == scanline@.len(),
        ensures
            r@ == filter_spec(filter_type, scanline@, prev_scanline@, bpp as int),
    {
        let n = scanline.len();
        let mut filtered: Vec<u8> = Vec::new();
        let mut i: usize = 0;
        while i < n
            invariant
                i <= n,
                n == scanline@.len(),
                prev_scanline@.len() == n,
                filter_type <= 4,
                bpp >= 1,
                filtered@.len() == i,
                forall|j: int|
                    0 <= j < i ==> filtered@[j] == wsub(
                        scanline@[j],
                        predictor(filter_type, scanline@, prev_scanline@, bpp as int, j),
                    ),
            decreases n - i,
        {
            let x = scanline[i];
            let a = if i < bpp {
                0
            } else {
                scanline[i - bpp]
            };
            let b = prev_scanline[i];
            let c = if i < bpp {
                0
            } else {
                prev_scanline[i - bpp]
            };
            let pred = if filter_type == 0 {
                0
            } else if filter_type == 1 {
                a
            } else if filter_type == 2 {
                b
            } else if filter_type == 3 {
                ((a as u16 + b as u16) / 2) as u8
            } else {
                paeth(a, b, c)
            };
            filtered.push(x.wrapping_sub(pred));
            i = i + 1;
        }
        proof {
            assert(filtered@ =~= filter_spec(
                filter_type,
                scanline@,
                prev_scanline@,
                bpp as int,
            ));
        }
        filtered
    }

    /// How small a byte sequence becomes under zlib at the default level.
    pub fn compressed_data_len(&self, data: &Vec<u8>) -> (r: usize)
        ensures
            r == deflate_of(data@).len(),
    {
        let compressed = zlib_compress(data);
        compressed.len()
    }

    /// Encodes an image as a complete PNG file. Fails with `Unsupported`
    /// when the settings fall outside the write profile or the compressed
    /// data would overflow a chunk's length field.
    pub fn encode(&self, image: &Image) -> (r: Result<Vec<u8>, CodecError>)
        requires
            image.wf(),
            image.width <= u32::MAX,
            image.height <= u32::MAX,
        ensures
            match r {
                Ok(out) => {
                    &&& settings_supported(self.settings)
                    &&& encoded_len_fits(self.settings.color_type, image.mat())
                    &&& inflate_of(
                        deflate_of(encoded_stream(self.settings.color_type, image.mat())),
                    ) == Some(encoded_stream(self.settings.color_type, image.mat()))
                    &&& out@ == encode_file_bytes(
                        image.mat(),
                        image.width as u32,
                        image.height as u32,
                        self.settings,
                    )
                },
                Err(e) => {
                    &&& e == CodecError::Unsupported
                    &&& !(settings_supported(self.settings) && encoded_len_fits(
                        self.settings.color_type,
                        image.mat(),
                    ))
                },
            },
    {
        let ct = self.settings.color_type;
        if !(self.settings.bit_depth == 8 && self.settings.interlace_method == 0) {
            return Err(CodecError::Unsupported);
        }
        if let ColorType::Palette = ct {
            return Err(CodecError::Unsupported);
        }
        let w = image.width();
        let h = image.height();
        let hdr = IHDR {
            width: w as u32,
            height: h as u32,
            bit_depth: self.settings.bit_depth,
            color_type: ct,
            compression_method: 0,
            filter_method: 0,
            interlace_method: self.settings.interlace_method,
        };
        let bpp = hdr.bytes_per_pixel();
        proof {
            assert(bpp == ct.channels());
        }
        let ghost mat = image.mat();
        let ghost prows = packed_mat(ct, mat);

        // Pack each pixel row into its sample bytes.
        let mut packed: Vec<Vec<u8>> = Vec::new();
        let mut y: usize = 0;
        while y < h
            invariant
                y <= h,
                image.wf(),
                h == image.spec_height(),
                w == image.spec_width(),
                mat == image.mat(),
                prows == packed_mat(ct, mat),
                ct != ColorType::Palette,
                packed@.len() == y,
                forall|i: int| 0 <= i < y ==> (#[trigger] packed@[i])@ == prows[i],
            decreases h - y,
        {
            let row = &image.pixels[y];
            let mut rb: Vec<u8> = Vec::new();
            let mut x: usize = 0;
            proof {
                assert(rb@ =~= pack_row(ct, row@.subrange(0, 0)));
            }
            while x < row.len()
                invariant
                    x <= row@.len(),
                    ct != ColorType::Palette,
                    rb@ == pack_row(ct, row@.subrange(0, x as int)),
                decreases row@.len() - x,
            {
                let c = row[x];
                match ct {
                    ColorType::Grayscale => {
                        rb.push(c.r);
                    },
                    ColorType::RGB => {
                        rb.push(c.r);
                        rb.push(c.g);
                        rb.push(c.b);
                    },
                    ColorType::GrayscaleAlpha => {
                        rb.push(c.r);
                        rb.push(c.a);
                    },
                    ColorType::RGBA => {
                        rb.push(c.r);
                        rb.push(c.g);
                        rb.push(c.b);
                        rb.push(c.a);
                    },
                    ColorType::Palette => {
                        proof {
                            assert(false);
                        }
                        return Err(CodecError::Unsupported);
                    },
                }
                x = x + 1;
                proof {
                    assert(row@.subrange(0, x as int).drop_last() =~= row@.subrange(0, x - 1));
                    assert(row@.subrange(0, x as int).last() == row@[x - 1]);
                    assert(rb@ =~= pack_row(ct, row@.subrange(0, x as int)));
                }
            }
            proof {
                assert(row@.subrange(0, row@.len() as int) =~= row@);
                assert(mat[y as int] == row@);
            }
            packed.push(rb);
            y = y + 1;
        }

        // Pick the cheapest filter for each row and build the scanline stream.
        proof {
            assert forall|i: int| 0 <= i < h implies (#[trigger] prows[i]).len() == mat[i].len()
                * ct.channels() by {
                crate::sample::lemma_pack_row_len(ct, mat[i]);
            }
        }
        let mut finalized: Vec<u8> = Vec::new();
        let mut y: usize = 0;
        while y < h
            invariant
                y <= h,
                h == mat.len(),
                prows == packed_mat(ct, mat),
                ct != ColorType::Palette,
                bpp == ct.channels(),
                bpp >= 1,
                packed@.len() == h,
                forall|i: int| 0 <= i < h ==> (#[trigger] packed@[i])@ == prows[i],
                forall|i: int| 0 <= i < h ==> (#[trigger] prows[i]).len() == mat[i].len()
                    * ct.channels(),
                forall|i: int| 0 <= i < h ==> (#[trigger] mat[i]).len() == w,
                finalized@ == filtered_rows(prows, bpp as int, y as int),
            decreases h - y,
        {
            let row = &packed[y];
            let row_len = row.len();
            let mut zeros: Vec<u8> = Vec::new();
            if y == 0 {
                while zeros.len() < row_len
                    invariant
                        zeros@.len() <= row_len,
                        forall|i: int| 0 <= i < zeros@.len() ==> zeros@[i] == 0u8,
                    decreases row_len - zeros@.len(),
                {
                    zeros.push(0);
                }
            }
            let prev_slice: &[u8] = if y == 0 {
                zeros.as_slice()
            } else {
                (&packed[y - 1]).as_slice()
            };
            let ghost prev_spec = row_prev(prows, y as int);
            proof {
                if y == 0 {
                    crate::filter::lemma_filter_zero_prev(0u8, row@, prev_slice@, bpp as int);
                }
                assert(prev_slice@.len() == row@.len());
            }
            let ghost x_spec = row@;

            let mut best_type: u8 = 0;
            let mut best_row = self.filter_scanline(0, row.as_slice(), prev_slice, bpp);
            proof {
                if y == 0 {
                    crate::filter::lemma_filter_zero_prev(0u8, x_spec, prev_slice@, bpp as int);
                }
            }
            let mut best_size = self.compressed_data_len(&best_row);
            let mut f: u8 = 1;
            while f <= 4
                invariant
                    1 <= f <= 5,
                    bpp >= 1,
                    row@ == x_spec,
                    prev_slice@.len() == x_spec.len(),
                    filter_spec(best_type, x_spec, prev_slice@, bpp as int) == filter_spec(
                        best_type,
                        x_spec,
                        prev_spec,
                        bpp as int,
                    ),
                    forall|g: u8|
                        g <= 4 ==> filter_spec(g, x_spec, prev_slice@, bpp as int) == filter_spec(
                            g,
                            x_spec,
                            prev_spec,
                            bpp as int,
                        ),
                    best_type == chosen_filter_upto(x_spec, prev_spec, bpp as int, f - 1),
                    best_row@ == filter_spec(best_type, x_spec, prev_spec, bpp as int),
                    best_size == filter_cost(x_spec, prev_spec, bpp as int, best_type),
                decreases 5 - f,
            {
                let cand = self.filter_scanline(f, row.as_slice(), prev_slice, bpp);
                let size = self.compressed_data_len(&cand);
                if size < best_size {
                    best_type = f;
                    best_row = cand;
                    best_size = size;
                }
                f = f + 1;
            }
            proof {
                assert(best_type == chosen_filter(x_spec, prev_spec, bpp as int));
            }
            finalized.push(best_type);
            push_all(&mut finalized, &best_row);
            y = y + 1;
            proof {
                assert(finalized@ =~= filtered_rows(prows, bpp as int, y as int));
            }
        }
        proof {
            assert(finalized@ == encoded_stream(ct, mat));
        }

        // Compress the stream and wrap the three chunks.
        let compressed = zlib_compress(&finalized);
        if compressed.len() > (u32::MAX as usize) {
            return Err(CodecError::Unsupported);
        }

        let mut ihdr_data: Vec<u8> = Vec::new();
        hdr.write(&mut ihdr_data);
        proof {
            assert(Seq::<u8>::empty() + ihdr_bytes(hdr) =~= ihdr_bytes(hdr));
        }
        let mut ihdr_tag_v: Vec<u8> = Vec::new();
        ihdr_tag_v.push(0x49);
        ihdr_tag_v.push(0x48);
        ihdr_tag_v.push(0x44);
        ihdr_tag_v.push(0x52);
        proof {
            assert(ihdr_tag_v@ =~= ihdr_tag());
        }
        let ihdr_crc = self.crc(&ihdr_tag_v, &ihdr_data);
        let ihdr_chunk = Chunk {
            length: 13,
            chunk_type: ChunkType::IHDR,
            data: ihdr_data,
            crc: ihdr_crc,
        };

        let mut idat_tag_v: Vec<u8> = Vec::new();
        idat_tag_v.push(0x49);
        idat_tag_v.push(0x44);
        idat_tag_v.push(0x41);
        idat_tag_v.push(0x54);
        proof {
            assert(idat_tag_v@ =~= idat_tag());
        }
        let idat_crc = self.crc(&idat_tag_v, &compressed);
        let idat_len = compressed.len() as u32;
        let idat_chunk = Chunk {
            length: idat_len,
            chunk_type: ChunkType::IDAT,
            data: compressed,
            crc: idat_crc,
        };

        let mut iend_tag_v: Vec<u8> = Vec::new();
        iend_tag_v.push(0x49);
        iend_tag_v.push(0x45);
        iend_tag_v.push(0x4e);
        iend_tag_v.push(0x44);
        proof {
            assert(iend_tag_v@ =~= iend_tag());
        }
        let iend_data: Vec<u8> = Vec::new();
        let iend_crc = self.crc(&iend_tag_v, &iend_data);
        let iend_chunk = Chunk {
            length: 0,
            chunk_type: ChunkType::IEND,
            data: iend_data,
            crc: iend_crc,
        };

        let mut chunks: Vec<Chunk> = Vec::new();
        chunks.push(ihdr_chunk);
        chunks.push(idat_chunk);
        chunks.push(iend_chunk);
        let png = PNG { chunks };
        let out = png.to_bytes();
        proof {
            let ms = crate::png::chunk_models(png.chunks@);
            assert(ms.len() == 3);
            let m0 = ms.subrange(0, 1);
            let m01 = ms.subrange(0, 2);
            assert(m0.drop_last() =~= Seq::<ChunkModel>::empty());
            assert(m0.last() == ms[0]);
            assert(crate::png::models_bytes(Seq::<ChunkModel>::empty()) == Seq::<u8>::empty());
            assert(crate::png::models_bytes(m0) =~= model_bytes(ms[0]));
            assert(m01.drop_last() =~= m0);
            assert(m01.last() == ms[1]);
            assert(crate::png::models_bytes(m01) =~= model_bytes(ms[0]) + model_bytes(ms[1]));
            assert(ms.drop_last() =~= m01);
            assert(ms.last() == ms[2]);
            assert(crate::png::models_bytes(ms) =~= model_bytes(ms[0]) + model_bytes(ms[1])
                + model_bytes(ms[2]));
            let hp = ihdr_bytes(encode_ihdr(image.width as u32, image.height as u32, self.settings));
            let z = deflate_of(encoded_stream(ct, mat));
            assert(ms[0] =~= ChunkModel {
                length: 13u32,
                tag: ihdr_tag(),
                data: hp,
                crc: crc32_of(ihdr_tag() + hp),
            });
            assert(ms[1] =~= ChunkModel {
                length: z.len() as u32,
                tag: idat_tag(),
                data: z,
                crc: crc32_of(idat_tag() + z),
            });
            assert(ms[2] =~= ChunkModel {
                length: 0u32,
                tag: iend_tag(),
                data: Seq::empty(),
                crc: crc32_of(iend_tag() + Seq::empty()),
            });
            assert(out@ =~= encode_file_bytes(
                mat,
                image.width as u32,
                image.height as u32,
                self.settings,
            ));
        }
        Ok(out)
    }
}

impl Writer for PNGWriter {
    fn extension(&self) -> &'static str {
        "png"
    }

    fn write(&self, image: &Image) -> (r: Result<Vec<u8>, CodecError>) {
        if image.width() > (u32::MAX as usize) || image.height() > (u32::MAX as usize) {
            return Err(CodecError::Unsupported);
        }
        self.encode(image)
    }
}

} // verus!
