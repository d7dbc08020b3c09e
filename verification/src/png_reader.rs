use vstd::prelude::*;

use crate::adam7::{
    pass_col, pass_height, pass_height_exec, pass_of, pass_row, pass_width, pass_width_exec,
};
use crate::chunk::{be32_at, idat_tag, ihdr_tag, lemma_tag_variant, ChunkModel};
use crate::color::Color;
use crate::error::CodecError;
use crate::filter::{paeth, paeth_spec, predictor, unfilter_spec};
use crate::ihdr::{ColorType, IHDR};
use crate::image::Image;
use crate::interface::Reader;
use crate::png::{parse_chunks, png_signature, PNG};
use crate::sample::{color_of, unpack_row};
use crate::zlib::{inflate_of, zlib_decompress};

verus! {

/// The previous scanline handed to the unfilterer, as a byte sequence:
/// nothing yet means the empty sequence.
pub open spec fn opt_seq(prev: Option<&[u8]>) -> Seq<u8> {
    match prev {
        None => Seq::empty(),
        Some(p) => p@,
    }
}

/// The index of the first chunk carrying `tag` at or after `i`, or -1.
pub open spec fn find_tag(ms: Seq<ChunkModel>, tag: Seq<u8>, i: int) -> int
    decreases ms.len() - i,
{
    if i < 0 || i >= ms.len() {
        -1
    } else if ms[i].tag == tag {
        i
    } else {
        find_tag(ms, tag, i + 1)
    }
}

/// Scanning from the start is scanning from `i` when everything before `i`
/// misses.
pub proof fn lemma_find_tag_skip(ms: Seq<ChunkModel>, tag: Seq<u8>, i: int)
    requires
        0 <= i <= ms.len(),
        forall|k: int| 0 <= k < i ==> (#[trigger] ms[k]).tag != tag,
    ensures
        find_tag(ms, tag, 0) == find_tag(ms, tag, i),
    decreases i,
{
    if i > 0 {
        lemma_find_tag_skip(ms, tag, i - 1);
    }
}

/// The chunk stream holds an IHDR chunk.
pub open spec fn has_ihdr(ms: Seq<ChunkModel>) -> bool {
    find_tag(ms, ihdr_tag(), 0) >= 0
}

/// The payload of the first IHDR chunk.
pub open spec fn ihdr_payload(ms: Seq<ChunkModel>) -> Seq<u8> {
    ms[find_tag(ms, ihdr_tag(), 0)].data
}

/// The color type a code stands for; unspecified codes are never consulted.
pub open spec fn color_type_of_code(code: u8) -> ColorType {
    if code == 0 {
        ColorType::Grayscale
    } else if code == 2 {
        ColorType::RGB
    } else if code == 3 {
        ColorType::Palette
    } else if code == 4 {
        ColorType::GrayscaleAlpha
    } else {
        ColorType::RGBA
    }
}

/// The header read from an IHDR payload.
pub open spec fn hdr_of(p: Seq<u8>) -> IHDR {
    IHDR {
        width: be32_at(p, 0),
        height: be32_at(p, 4),
        bit_depth: p[8],
        color_type: color_type_of_code(p[9]),
        compression_method: p[10],
        filter_method: p[11],
        interlace_method: p[12],
    }
}

/// The IHDR payload holds its thirteen bytes and a defined color-type code.
pub open spec fn ihdr_ok(p: Seq<u8>) -> bool {
    &&& p.len() >= 13
    &&& ColorType::code_valid(p[9])
}

/// What the read path supports: 8-bit samples, zlib compression, adaptive
/// filtering, straight or Adam7 layout, and no palette.
pub open spec fn hdr_supported(h: IHDR) -> bool {
    &&& h.bit_depth == 8
    &&& h.compression_method == 0
    &&& h.filter_method == 0
    &&& (h.interlace_method == 0 || h.interlace_method == 1)
    &&& h.color_type != ColorType::Palette
}

/// The payloads of all IDAT chunks, concatenated in file order.
pub open spec fn idat_concat(ms: Seq<ChunkModel>) -> Seq<u8>
    decreases ms.len(),
{
    if ms.len() == 0 {
        Seq::empty()
    } else {
        idat_concat(ms.drop_last()) + (if ms.last().tag == idat_tag() {
            ms.last().data
        } else {
            Seq::empty()
        })
    }
}

/// Bytes of one scanline record: the filter byte plus the filtered samples.
pub open spec fn sl_len(w: int, bpp: int) -> int {
    1 + w * bpp
}

/// A non-interlaced stream is exactly `height` scanline records.
pub open spec fn straight_len_ok(s: Seq<u8>, w: int, h: int, bpp: int) -> bool {
    s.len() == h * sl_len(w, bpp)
}

/// The filter-type byte of scanline `y`.
pub open spec fn filter_byte(s: Seq<u8>, w: int, bpp: int, y: int) -> u8 {
    s[y * sl_len(w, bpp)]
}

/// The filtered sample bytes of scanline `y`.
pub open spec fn scan_bytes(s: Seq<u8>, w: int, bpp: int, y: int) -> Seq<u8> {
    s.subrange(y * sl_len(w, bpp) + 1, (y + 1) * sl_len(w, bpp))
}

/// Every scanline declares a filter type in 0..=4.
pub open spec fn straight_filters_ok(s: Seq<u8>, w: int, h: int, bpp: int) -> bool {
    forall|y: int| 0 <= y < h ==> filter_byte(s, w, bpp, y) <= 4
}

/// The first `n` scanlines unfiltered, each against the one before it.
pub open spec fn raw_rows(s: Seq<u8>, w: int, bpp: int, n: int) -> Seq<Seq<u8>>
    decreases n,
{
    if n <= 0 {
        Seq::empty()
    } else {
        let prior = raw_rows(s, w, bpp, n - 1);
        let prev = if n == 1 {
            Seq::empty()
        } else {
            prior.last()
        };
        prior.push(unfilter_spec(filter_byte(s, w, bpp, n - 1), scan_bytes(s, w, bpp, n - 1), prev, bpp))
    }
}

/// The pixel grid a non-interlaced stream decodes to.
pub open spec fn straight_mat(s: Seq<u8>, w: int, h: int, ct: ColorType) -> Seq<Seq<Color>> {
    Seq::new(h as nat, |y: int| unpack_row(ct, raw_rows(s, w, ct.channels(), h)[y], w))
}

/// Bytes of one scanline record of a pass.
pub open spec fn pass_sl(w: int, bpp: int, p: int) -> int {
    1 + pass_width(p, w) * bpp
}

/// Bytes the whole of pass `p` occupies in the stream. A pass with no
/// pixel columns contributes nothing, not even filter bytes.
pub open spec fn pass_lines_len(w: int, h: int, bpp: int, p: int) -> int {
    if pass_width(p, w) == 0 {
        0
    } else {
        pass_height(p, h) * pass_sl(w, bpp, p)
    }
}

/// Where pass `p` starts in the stream: after every earlier pass.
pub open spec fn pass_offset(w: int, h: int, bpp: int, p: int) -> int
    decreases p,
{
    if p <= 0 {
        0
    } else {
        pass_offset(w, h, bpp, p - 1) + pass_lines_len(w, h, bpp, p - 1)
    }
}

/// An interlaced stream is exactly the seven passes' scanline records.
pub open spec fn interlaced_len_ok(s: Seq<u8>, w: int, h: int, bpp: int) -> bool {
    s.len() == pass_offset(w, h, bpp, 7)
}

/// The filter-type byte of scanline `j` of pass `p`.
pub open spec fn pass_filter_byte(s: Seq<u8>, w: int, h: int, bpp: int, p: int, j: int) -> u8 {
    s[pass_offset(w, h, bpp, p) + j * pass_sl(w, bpp, p)]
}

/// The filtered sample bytes of scanline `j` of pass `p`.
pub open spec fn pass_scan_bytes(s: Seq<u8>, w: int, h: int, bpp: int, p: int, j: int) -> Seq<u8> {
    s.subrange(
        pass_offset(w, h, bpp, p) + j * pass_sl(w, bpp, p) + 1,
        pass_offset(w, h, bpp, p) + (j + 1) * pass_sl(w, bpp, p),
    )
}

/// Every scanline of every nonempty pass declares a filter type in 0..=4.
pub open spec fn interlaced_filters_ok(s: Seq<u8>, w: int, h: int, bpp: int) -> bool {
    forall|p: int, j: int|
        0 <= p < 7 && pass_width(p, w) > 0 && 0 <= j < pass_height(p, h) ==> pass_filter_byte(
            s,
            w,
            h,
            bpp,
            p,
            j,
        ) <= 4
}

/// The first `n` scanlines of pass `p` unfiltered; the previous scanline
/// resets at the pass boundary.
pub open spec fn pass_raw_rows(s: Seq<u8>, w: int, h: int, bpp: int, p: int, n: int) -> Seq<
    Seq<u8>,
>
    decreases n,
{
    if n <= 0 {
        Seq::empty()
    } else {
        let prior = pass_raw_rows(s, w, h, bpp, p, n - 1);
        let prev = if n == 1 {
            Seq::empty()
        } else {
            prior.last()
        };
        prior.push(
            unfilter_spec(
                pass_filter_byte(s, w, h, bpp, p, n - 1),
                pass_scan_bytes(s, w, h, bpp, p, n - 1),
                prev,
                bpp,
            ),
        )
    }
}

/// The color an interlaced stream places at `(x, y)`: read from the one
/// pass that produces that position.
pub open spec fn interlaced_pixel(
    s: Seq<u8>,
    w: int,
    h: int,
    ct: ColorType,
    x: int,
    y: int,
) -> Color {
    let p = pass_of(x, y);
    let i = pass_col(x, y);
    let j = pass_row(x, y);
    let bpp = ct.channels();
    let row = pass_raw_rows(s, w, h, bpp, p, pass_height(p, h))[j];
    color_of(ct, row.subrange(i * bpp, (i + 1) * bpp))
}

/// The pixel grid an interlaced stream decodes to.
pub open spec fn interlaced_mat(s: Seq<u8>, w: int, h: int, ct: ColorType) -> Seq<Seq<Color>> {
    Seq::new(h as nat, |y: int| Seq::new(w as nat, |x: int| interlaced_pixel(s, w, h, ct, x, y)))
}

/// Unfiltering yields one raw row per scanline.
pub proof fn lemma_raw_rows_len(s: Seq<u8>, w: int, bpp: int, n: int)
    ensures
        raw_rows(s, w, bpp, n).len() == if n <= 0 {
            0
        } else {
            n
        },
    decreases n,
{
    if n > 0 {
        lemma_raw_rows_len(s, w, bpp, n - 1);
    }
}

/// Decoding more scanlines does not change the rows already decoded.
pub proof fn lemma_raw_rows_prefix(s: Seq<u8>, w: int, bpp: int, n1: int, n2: int)
    requires
        0 <= n1 <= n2,
    ensures
        forall|k: int|
            0 <= k < n1 ==> #[trigger] raw_rows(s, w, bpp, n2)[k] == raw_rows(s, w, bpp, n1)[k],
    decreases n2 - n1,
{
    if n2 > n1 {
        lemma_raw_rows_prefix(s, w, bpp, n1, n2 - 1);
        lemma_raw_rows_len(s, w, bpp, n2 - 1);
    }
}

/// The file starts with the eight signature bytes.
pub open spec fn sig_ok(data: Seq<u8>) -> bool {
    &&& data.len() >= 8
    &&& data.subrange(0, 8) == png_signature()
}

/// The chunk stream parses up to an IEND chunk.
pub open spec fn chunks_ok(data: Seq<u8>) -> bool {
    &&& sig_ok(data)
    &&& parse_chunks(data, 8) is Some
}

/// The parsed chunk stream.
pub open spec fn file_chunks(data: Seq<u8>) -> Seq<ChunkModel> {
    parse_chunks(data, 8).unwrap()
}

pub open spec fn file_has_ihdr(data: Seq<u8>) -> bool {
    has_ihdr(file_chunks(data))
}

pub open spec fn file_ihdr_payload(data: Seq<u8>) -> Seq<u8> {
    ihdr_payload(file_chunks(data))
}

pub open spec fn file_hdr(data: Seq<u8>) -> IHDR {
    hdr_of(file_ihdr_payload(data))
}

/// The concatenated compressed image data of the file.
pub open spec fn file_z(data: Seq<u8>) -> Seq<u8> {
    idat_concat(file_chunks(data))
}

/// The inflated filtered scanline stream of the file.
pub open spec fn file_stream(data: Seq<u8>) -> Seq<u8> {
    inflate_of(file_z(data)).unwrap()
}

/// The container parses and holds an IHDR chunk.
pub open spec fn stage_hdr_found(data: Seq<u8>) -> bool {
    &&& chunks_ok(data)
    &&& file_has_ihdr(data)
}

/// ... whose payload is complete with a defined color type.
pub open spec fn stage_hdr_ok(data: Seq<u8>) -> bool {
    &&& stage_hdr_found(data)
    &&& ihdr_ok(file_ihdr_payload(data))
}

/// ... and asks only for what the read path supports.
pub open spec fn stage_supported(data: Seq<u8>) -> bool {
    &&& stage_hdr_ok(data)
    &&& hdr_supported(file_hdr(data))
}

/// ... and the image data inflates.
pub open spec fn stage_stream(data: Seq<u8>) -> bool {
    &&& stage_supported(data)
    &&& inflate_of(file_z(data)) is Some
}

/// ... to exactly the scanline records the header announces.
pub open spec fn stage_layout(data: Seq<u8>) -> bool {
    let h = file_hdr(data);
    let ch = h.color_type.channels();
    &&& stage_stream(data)
    &&& if h.interlace_method == 0 {
        straight_len_ok(file_stream(data), h.width as int, h.height as int, ch)
    } else {
        interlaced_len_ok(file_stream(data), h.width as int, h.height as int, ch)
    }
}

/// ... each declaring a defined filter type: the file decodes.
pub open spec fn decode_ok(data: Seq<u8>) -> bool {
    let h = file_hdr(data);
    let ch = h.color_type.channels();
    &&& stage_layout(data)
    &&& if h.interlace_method == 0 {
        straight_filters_ok(file_stream(data), h.width as int, h.height as int, ch)
    } else {
        interlaced_filters_ok(file_stream(data), h.width as int, h.height as int, ch)
    }
}

/// The pixel grid a decodable file holds.
pub open spec fn decoded_mat(data: Seq<u8>) -> Seq<Seq<Color>> {
    let h = file_hdr(data);
    if h.interlace_method == 0 {
        straight_mat(file_stream(data), h.width as int, h.height as int, h.color_type)
    } else {
        interlaced_mat(file_stream(data), h.width as int, h.height as int, h.color_type)
    }
}

/// Every pass occupies a nonnegative span of scanline records.
proof fn lemma_pass_lines_nonneg(w: int, h: int, bpp: int, p: int)
    requires
        bpp >= 0,
    ensures
        pass_width(p, w) >= 0,
        pass_height(p, h) >= 0,
        pass_sl(w, bpp, p) >= 1,
        pass_lines_len(w, h, bpp, p) >= 0,
{
    vstd::arithmetic::mul::lemma_mul_nonnegative(pass_width(p, w), bpp);
    vstd::arithmetic::mul::lemma_mul_nonnegative(pass_height(p, h), pass_sl(w, bpp, p));
}

/// Later passes start no earlier in the stream.
proof fn lemma_pass_offset_le(w: int, h: int, bpp: int, p1: int, p2: int)
    requires
        bpp >= 0,
        0 <= p1 <= p2,
    ensures
        pass_offset(w, h, bpp, p1) <= pass_offset(w, h, bpp, p2),
    decreases p2,
{
    if p2 > p1 {
        lemma_pass_offset_le(w, h, bpp, p1, p2 - 1);
        lemma_pass_lines_nonneg(w, h, bpp, p2 - 1);
    }
}

/// Unfiltering a pass yields one raw row per scanline.
proof fn lemma_pass_raw_rows_len(s: Seq<u8>, w: int, h: int, bpp: int, p: int, n: int)
    ensures
        pass_raw_rows(s, w, h, bpp, p, n).len() == if n <= 0 {
            0
        } else {
            n
        },
    decreases n,
{
    if n > 0 {
        lemma_pass_raw_rows_len(s, w, h, bpp, p, n - 1);
    }
}

/// Decoding more of a pass does not change the rows already decoded.
proof fn lemma_pass_raw_rows_prefix(s: Seq<u8>, w: int, h: int, bpp: int, p: int, n1: int, n2: int)
    requires
        0 <= n1 <= n2,
    ensures
        forall|k: int|
            0 <= k < n1 ==> #[trigger] pass_raw_rows(s, w, h, bpp, p, n2)[k] == pass_raw_rows(
                s,
                w,
                h,
                bpp,
                p,
                n1,
            )[k],
    decreases n2 - n1,
{
    if n2 > n1 {
        lemma_pass_raw_rows_prefix(s, w, h, bpp, p, n1, n2 - 1);
        lemma_pass_raw_rows_len(s, w, h, bpp, p, n2 - 1);
    }
}

/// Each raw row of a pass holds that pass's width of pixels.
proof fn lemma_pass_raw_rows_row_len(s: Seq<u8>, w: int, h: int, bpp: int, p: int, n: int)
    requires
        bpp >= 1,
        0 <= p < 7,
        pass_width(p, w) > 0,
        interlaced_len_ok(s, w, h, bpp),
        n <= pass_height(p, h),
    ensures
        forall|j: int|
            0 <= j < n ==> (#[trigger] pass_raw_rows(s, w, h, bpp, p, n)[j]).len() == pass_width(
                p,
                w,
            ) * bpp,
    decreases n,
{
    if n > 0 {
        lemma_pass_raw_rows_row_len(s, w, h, bpp, p, n - 1);
        lemma_pass_raw_rows_len(s, w, h, bpp, p, n - 1);
        let sl = pass_sl(w, bpp, p);
        let off = pass_offset(w, h, bpp, p);
        lemma_pass_lines_nonneg(w, h, bpp, p);
        lemma_pass_offset_le(w, h, bpp, 0, p);
        lemma_pass_offset_le(w, h, bpp, p + 1, 7);
        vstd::arithmetic::mul::lemma_mul_inequality(n, pass_height(p, h), sl);
        vstd::arithmetic::mul::lemma_mul_nonnegative(n - 1, sl);
        assert(pass_offset(w, h, bpp, p + 1) == off + pass_height(p, h) * sl);
        assert(off + n * sl <= s.len());
        assert(n * sl == (n - 1) * sl + sl) by (nonlinear_arith);
        let prev = if n == 1 {
            Seq::empty()
        } else {
            pass_raw_rows(s, w, h, bpp, p, n - 1).last()
        };
        crate::filter::lemma_unfilter_len(
            pass_filter_byte(s, w, h, bpp, p, n - 1),
            pass_scan_bytes(s, w, h, bpp, p, n - 1),
            prev,
            bpp,
        );
        assert(pass_scan_bytes(s, w, h, bpp, p, n - 1).len() == pass_width(p, w) * bpp);
    }
}

/// Decides `w * bpp <= n` without multiplying, so no machine overflow can
/// occur whatever the operands.
fn row_bytes_fit(n: usize, w: usize, bpp: usize) -> (r: bool)
    requires
        1 <= bpp,
    ensures
        r <==> w * bpp <= n,
{
    if w == 0 {
        proof {
            assert(0 * bpp == 0);
        }
        true
    } else {
        let q = n / bpp;
        proof {
            vstd::arithmetic::div_mod::lemma_fundamental_div_mod(n as int, bpp as int);
            vstd::arithmetic::div_mod::lemma_mod_bound(n as int, bpp as int);
            assert((q as int) * bpp == bpp * (q as int)) by (nonlinear_arith);
            if w <= q {
                vstd::arithmetic::mul::lemma_mul_inequality(w as int, q as int, bpp as int);
            } else {
                vstd::arithmetic::mul::lemma_mul_inequality(q + 1, w as int, bpp as int);
                vstd::arithmetic::mul::lemma_mul_is_distributive_add_other_way(
                    bpp as int,
                    q as int,
                    1,
                );
            }
        }
        w <= q
    }
}

/// The PNG decoder.
pub struct PNGReader {}

impl PNGReader {
    /// The Paeth predictor over three neighbor bytes.
    pub fn paeth_predictor(&self, a: u8, b: u8, c: u8) -> (r: u8)
        ensures
            r == paeth_spec(a, b, c),
    {
        paeth(a, b, c)
    }

    /// Undoes one scanline's filter, reading already-unfiltered bytes of the
    /// same scanline and the raw previous scanline.
    pub fn unfilter_scanline(
        &self,
        filter_type: u8,
        scanline: &[u8],
        prev_scanline: Option<&[u8]>,
        bpp: usize,
    ) -> (r: Vec<u8>)
        requires
            filter_type <= 4,
            bpp >= 1,
            prev_scanline matches Some(p) ==> p@.len() == scanline@.len(),
        ensures
            r@ == unfilter_spec(filter_type, scanline@, opt_seq(prev_scanline), bpp as int),
    {
        let ghost prev = opt_seq(prev_scanline);
        let n = scanline.len();
        let mut unfiltered: Vec<u8> = Vec::new();
        proof {
            assert(unfiltered@ =~= unfilter_spec(
                filter_type,
                scanline@.subrange(0, 0),
                prev,
                bpp as int,
            ));
        }
        let mut i: usize = 0;
        while i < n
            invariant
                i <= n,
                n == scanline@.len(),
                filter_type <= 4,
                bpp >= 1,
                prev == opt_seq(prev_scanline),
                prev_scanline matches Some(p) ==> p@.len() == n,
                unfiltered@ == unfilter_spec(
                    filter_type,
                    scanline@.subrange(0, i as int),
                    prev,
                    bpp as int,
                ),
                unfiltered@.len() == i,
            decreases n - i,
        {
            let x = scanline[i];
            let a = if i < bpp {
                0
            } else {
                unfiltered[i - bpp]
            };
            let b = match prev_scanline {
                Some(p) => p[i],
                None => 0,
            };
            let c = if i < bpp {
                0
            } else {
                match prev_scanline {
                    Some(p) => p[i - bpp],
                    None => 0,
                }
            };
            let pred = if filter_type == 0 {
                0
            } else if filter_type == 1 {
                a
            } else if filter_type == 2 {
                b
            } else if filter_type == 3 {
                ((a as u16 + b as u16) / 2) as u8
            } else {
                paeth(a, b, c)
            };
            unfiltered.push(x.wrapping_add(pred));
            i = i + 1;
            proof {
                let sub = scanline@.subrange(0, i as int);
                assert(sub.drop_last() =~= scanline@.subrange(0, i - 1));
                assert(sub.last() == scanline@[i - 1]);
                assert(pred == predictor(
                    filter_type,
                    unfiltered@.drop_last(),
                    prev,
                    bpp as int,
                    i - 1,
                ));
                assert(unfiltered@ =~= unfilter_spec(filter_type, sub, prev, bpp as int));
            }
        }
        proof {
            assert(scanline@.subrange(0, n as int) =~= scanline@);
        }
        unfiltered
    }

    /// Decodes the inflated scanline stream of a non-interlaced image into
    /// its pixel grid.
    fn decode_straight(&self, s: &Vec<u8>, w: usize, h: usize, bpp: usize, ct: ColorType) -> (r:
        Result<Vec<Vec<Color>>, CodecError>)
        requires
            w <= u32::MAX,
            h <= u32::MAX,
            1 <= bpp <= 4,
            bpp == ct.channels(),
            ct != ColorType::Palette,
        ensures
            match r {
                Ok(px) => {
                    &&& straight_len_ok(s@, w as int, h as int, bpp as int)
                    &&& straight_filters_ok(s@, w as int, h as int, bpp as int)
                    &&& px@.map_values(|row: Vec<Color>| row@) == straight_mat(
                        s@,
                        w as int,
                        h as int,
                        ct,
                    )
                    &&& crate::image::grid_wf(
                        w as int,
                        h as int,
                        px@.map_values(|row: Vec<Color>| row@),
                    )
                },
                Err(e) => {
                    ||| (e == CodecError::TruncatedPixelStream && !straight_len_ok(
                        s@,
                        w as int,
                        h as int,
                        bpp as int,
                    ))
                    ||| (e == CodecError::BadFilterType && straight_len_ok(
                        s@,
                        w as int,
                        h as int,
                        bpp as int,
                    ) && !straight_filters_ok(s@, w as int, h as int, bpp as int))
                },
            },
    {
        let n = s.len();
        if h == 0 {
            if n != 0 {
                proof {
                    assert(0 * sl_len(w as int, bpp as int) == 0);
                }
                return Err(CodecError::TruncatedPixelStream);
            }
            let empty: Vec<Vec<Color>> = Vec::new();
            proof {
                assert(0 * sl_len(w as int, bpp as int) == 0);
                assert(empty@.map_values(|row: Vec<Color>| row@) =~= straight_mat(
                    s@,
                    w as int,
                    h as int,
                    ct,
                ));
            }
            return Ok(empty);
        }
        proof {
            vstd::arithmetic::mul::lemma_mul_nonnegative(w as int, bpp as int);
            vstd::arithmetic::mul::lemma_mul_inequality(
                1,
                h as int,
                sl_len(w as int, bpp as int),
            );
        }
        if n == 0 {
            return Err(CodecError::TruncatedPixelStream);
        }
        if !row_bytes_fit(n - 1, w, bpp) {
            return Err(CodecError::TruncatedPixelStream);
        }
        let sl: usize = 1 + w * bpp;
        if n % sl != 0 || n / sl != h {
            proof {
                if straight_len_ok(s@, w as int, h as int, bpp as int) {
                    assert(h * (sl as int) == (sl as int) * h) by (nonlinear_arith);
                    vstd::arithmetic::div_mod::lemma_fundamental_div_mod_converse(
                        n as int,
                        sl as int,
                        h as int,
                        0,
                    );
                }
            }
            return Err(CodecError::TruncatedPixelStream);
        }
        proof {
            vstd::arithmetic::div_mod::lemma_fundamental_div_mod(n as int, sl as int);
            assert((sl as int) * (h as int) == (h as int) * (sl as int)) by (nonlinear_arith);
        }

        // First pass: every scanline's filter byte must be in 0..=4.
        let mut y: usize = 0;
        let mut off: usize = 0;
        while y < h
            invariant
                y <= h,
                off == y * sl,
                sl == sl_len(w as int, bpp as int),
                n == s@.len(),
                straight_len_ok(s@, w as int, h as int, bpp as int),
                forall|k: int|
                    0 <= k < y ==> filter_byte(s@, w as int, bpp as int, k) <= 4,
            decreases h - y,
        {
            proof {
                vstd::arithmetic::mul::lemma_mul_inequality(y + 1, h as int, sl as int);
                vstd::arithmetic::mul::lemma_mul_is_distributive_add_other_way(
                    sl as int,
                    y as int,
                    1,
                );
            }
            if s[off] > 4 {
                proof {
                    assert(filter_byte(s@, w as int, bpp as int, y as int) > 4);
                }
                return Err(CodecError::BadFilterType);
            }
            y = y + 1;
            off = off + sl;
        }

        // Second pass: unfilter each scanline and read its pixels.
        let mut rows_px: Vec<Vec<Color>> = Vec::new();
        let mut prev_row: Vec<u8> = Vec::new();
        let mut y: usize = 0;
        let mut off: usize = 0;
        while y < h
            invariant
                y <= h,
                off == y * sl,
                sl == sl_len(w as int, bpp as int),
                n == s@.len(),
                w <= u32::MAX,
                h <= u32::MAX,
                1 <= bpp <= 4,
                bpp == ct.channels(),
                ct != ColorType::Palette,
                straight_len_ok(s@, w as int, h as int, bpp as int),
                straight_filters_ok(s@, w as int, h as int, bpp as int),
                y > 0 ==> prev_row@ == raw_rows(s@, w as int, bpp as int, y as int).last()
                    && prev_row@.len() == w * bpp,
                rows_px@.len() == y,
                forall|k: int|
                    0 <= k < y ==> (#[trigger] rows_px@[k])@ == unpack_row(
                        ct,
                        raw_rows(s@, w as int, bpp as int, h as int)[k],
                        w as int,
                    ),
            decreases h - y,
        {
            proof {
                vstd::arithmetic::mul::lemma_mul_inequality(y + 1, h as int, sl as int);
                vstd::arithmetic::mul::lemma_mul_is_distributive_add_other_way(
                    sl as int,
                    y as int,
                    1,
                );
            }
            let ft = s[off];
            let scan = vstd::slice::slice_subrange(s.as_slice(), off + 1, off + sl);
            proof {
                assert(scan@ == scan_bytes(s@, w as int, bpp as int, y as int));
                assert(filter_byte(s@, w as int, bpp as int, y as int) == ft);
            }
            let prev_opt: Option<&[u8]> = if y == 0 {
                None
            } else {
                Some(prev_row.as_slice())
            };
            let raw = self.unfilter_scanline(ft, scan, prev_opt, bpp);
            proof {
                crate::filter::lemma_unfilter_len(ft, scan@, opt_seq(prev_opt), bpp as int);
                lemma_raw_rows_len(s@, w as int, bpp as int, y as int);
                assert(raw_rows(s@, w as int, bpp as int, y + 1) == raw_rows(
                    s@,
                    w as int,
                    bpp as int,
                    y as int,
                ).push(raw@));
                assert(raw@.len() == w * bpp);
            }
            let raw_len = raw.len();
            let mut rowc: Vec<Color> = Vec::new();
            let mut x: usize = 0;
            let mut base: usize = 0;
            while x < w
                invariant
                    x <= w,
                    base == x * bpp,
                    w <= u32::MAX,
                    1 <= bpp <= 4,
                    bpp == ct.channels(),
                    ct != ColorType::Palette,
                    raw@.len() == w * bpp,
                    raw@.len() == raw_len,
                    rowc@.len() == x,
                    forall|k: int|
                        0 <= k < x ==> rowc@[k] == unpack_row(ct, raw@, w as int)[k],
                decreases w - x,
            {
                proof {
                    vstd::arithmetic::mul::lemma_mul_inequality(x + 1, w as int, bpp as int);
                    vstd::arithmetic::mul::lemma_mul_is_distributive_add_other_way(
                        bpp as int,
                        x as int,
                        1,
                    );
                }
                let c = match ct {
                    ColorType::Grayscale => {
                        let v = raw[base];
                        Color::new(v, v, v, 255)
                    },
                    ColorType::RGB => Color::new(raw[base], raw[base + 1], raw[base + 2], 255),
                    ColorType::GrayscaleAlpha => {
                        let v = raw[base];
                        Color::new(v, v, v, raw[base + 1])
                    },
                    ColorType::RGBA => Color::new(
                        raw[base],
                        raw[base + 1],
                        raw[base + 2],
                        raw[base + 3],
                    ),
                    ColorType::Palette => {
                        proof {
                            assert(false);
                        }
                        Color::black()
                    },
                };
                proof {
                    let px = raw@.subrange(base as int, base + bpp);
                    assert(c == color_of(ct, px));
                }
                rowc.push(c);
                x = x + 1;
                base = base + bpp;
            }
            proof {
                assert(rowc@ =~= unpack_row(ct, raw@, w as int));
            }
            rows_px.push(rowc);
            prev_row = raw;
            y = y + 1;
            off = off + sl;
            proof {
                lemma_raw_rows_prefix(s@, w as int, bpp as int, y as int, h as int);
                lemma_raw_rows_len(s@, w as int, bpp as int, y as int);
            }
        }
        proof {
            lemma_raw_rows_len(s@, w as int, bpp as int, h as int);
            assert(rows_px@.map_values(|row: Vec<Color>| row@) =~= straight_mat(
                s@,
                w as int,
                h as int,
                ct,
            ));
        }
        Ok(rows_px)
    }

    /// Decodes the inflated scanline stream of an Adam7-interlaced image
    /// into its pixel grid.
    fn decode_interlaced(&self, s: &Vec<u8>, w: usize, h: usize, bpp: usize, ct: ColorType) -> (r:
        Result<Vec<Vec<Color>>, CodecError>)
        requires
            w <= u32::MAX,
            h <= u32::MAX,
            1 <= bpp <= 4,
            bpp == ct.channels(),
            ct != ColorType::Palette,
        ensures
            match r {
                Ok(px) => {
                    &&& interlaced_len_ok(s@, w as int, h as int, bpp as int)
                    &&& interlaced_filters_ok(s@, w as int, h as int, bpp as int)
                    &&& px@.map_values(|row: Vec<Color>| row@) == interlaced_mat(
                        s@,
                        w as int,
                        h as int,
                        ct,
                    )
                    &&& crate::image::grid_wf(
                        w as int,
                        h as int,
                        px@.map_values(|row: Vec<Color>| row@),
                    )
                },
                Err(e) => {
                    ||| (e == CodecError::TruncatedPixelStream && !interlaced_len_ok(
                        s@,
                        w as int,
                        h as int,
                        bpp as int,
                    ))
                    ||| (e == CodecError::BadFilterType && interlaced_len_ok(
                        s@,
                        w as int,
                        h as int,
                        bpp as int,
                    ) && !interlaced_filters_ok(s@, w as int, h as int, bpp as int))
                },
            },
    {
        let n = s.len();

        // First pass over the layout: the stream must hold exactly the
        // seven passes' scanline records.
        let mut acc: usize = 0;
        let mut p: usize = 0;
        while p < 7
            invariant
                p <= 7,
                acc <= n,
                n == s@.len(),
                1 <= bpp <= 4,
                acc == pass_offset(w as int, h as int, bpp as int, p as int),
            decreases 7 - p,
        {
            let pw = pass_width_exec(p, w);
            let ph = pass_height_exec(p, h);
            let ghost sl = pass_sl(w as int, bpp as int, p as int);
            let ghost off = pass_offset(w as int, h as int, bpp as int, p as int);
            let mut j: usize = 0;
            proof {
                lemma_pass_lines_nonneg(w as int, h as int, bpp as int, p as int);
            }
            if pw > 0 {
                while j < ph
                    invariant
                        j <= ph,
                        acc <= n,
                        n == s@.len(),
                        1 <= bpp <= 4,
                        p < 7,
                        pw == pass_width(p as int, w as int),
                        pw > 0,
                        ph == pass_height(p as int, h as int),
                        sl == pass_sl(w as int, bpp as int, p as int),
                        off == pass_offset(w as int, h as int, bpp as int, p as int),
                        acc == off + j * sl,
                    decreases ph - j,
                {
                    proof {
                        lemma_pass_lines_nonneg(w as int, h as int, bpp as int, p as int);
                        vstd::arithmetic::mul::lemma_mul_inequality(j + 1, ph as int, sl);
                        vstd::arithmetic::mul::lemma_mul_is_distributive_add_other_way(
                            sl,
                            j as int,
                            1,
                        );
                        lemma_pass_offset_le(w as int, h as int, bpp as int, p + 1, 7);
                    }
                    let rem = n - acc;
                    if rem == 0 || !row_bytes_fit(rem - 1, pw, bpp) {
                        proof {
                            assert(pass_offset(w as int, h as int, bpp as int, 7) >= off + (j + 1)
                                * sl);
                            assert(off + (j + 1) * sl > n);
                        }
                        return Err(CodecError::TruncatedPixelStream);
                    }
                    let sl_p = 1 + pw * bpp;
                    acc = acc + sl_p;
                    j = j + 1;
                }
            }
            p = p + 1;
        }
        if acc != n {
            return Err(CodecError::TruncatedPixelStream);
        }

        // Second pass: unfilter every scanline of every pass, resetting the
        // previous scanline at each pass boundary.
        let mut passes: Vec<Vec<Vec<u8>>> = Vec::new();
        let mut acc: usize = 0;
        let mut p: usize = 0;
        while p < 7
            invariant
                p <= 7,
                acc <= n,
                n == s@.len(),
                w <= u32::MAX,
                h <= u32::MAX,
                1 <= bpp <= 4,
                bpp == ct.channels(),
                ct != ColorType::Palette,
                interlaced_len_ok(s@, w as int, h as int, bpp as int),
                acc == pass_offset(w as int, h as int, bpp as int, p as int),
                passes@.len() == p,
                forall|q: int|
                    0 <= q < p && pass_width(q, w as int) > 0 ==> (#[trigger] passes@[q])@.map_values(
                        |r0: Vec<u8>| r0@,
                    ) == pass_raw_rows(
                        s@,
                        w as int,
                        h as int,
                        bpp as int,
                        q,
                        pass_height(q, h as int),
                    ),
                forall|q: int, j2: int|
                    0 <= q < p && pass_width(q, w as int) > 0 && 0 <= j2 < pass_height(
                        q,
                        h as int,
                    ) ==> #[trigger] pass_filter_byte(s@, w as int, h as int, bpp as int, q, j2)
                        <= 4,
            decreases 7 - p,
        {
            let pw = pass_width_exec(p, w);
            let ph = pass_height_exec(p, h);
            let ghost sl = pass_sl(w as int, bpp as int, p as int);
            let ghost off = pass_offset(w as int, h as int, bpp as int, p as int);
            proof {
                lemma_pass_lines_nonneg(w as int, h as int, bpp as int, p as int);
                lemma_pass_offset_le(w as int, h as int, bpp as int, p + 1, 7);
            }
            let mut rows_p: Vec<Vec<u8>> = Vec::new();
            let mut j: usize = 0;
            while pw > 0 && j < ph
                invariant
                    j <= ph,
                    pw == 0 ==> j == 0,
                    acc <= n,
                    n == s@.len(),
                    w <= u32::MAX,
                    h <= u32::MAX,
                    1 <= bpp <= 4,
                    bpp == ct.channels(),
                    ct != ColorType::Palette,
                    p < 7,
                    interlaced_len_ok(s@, w as int, h as int, bpp as int),
                    pw == pass_width(p as int, w as int),
                    ph == pass_height(p as int, h as int),
                    sl == pass_sl(w as int, bpp as int, p as int),
                    off == pass_offset(w as int, h as int, bpp as int, p as int),
                    acc == off + j * sl,
                    rows_p@.len() == j,
                    rows_p@.map_values(|r0: Vec<u8>| r0@) == pass_raw_rows(
                        s@,
                        w as int,
                        h as int,
                        bpp as int,
                        p as int,
                        j as int,
                    ),
                    forall|j2: int|
                        0 <= j2 < j ==> #[trigger] pass_filter_byte(
                            s@,
                            w as int,
                            h as int,
                            bpp as int,
                            p as int,
                            j2,
                        ) <= 4,
                    forall|q: int, j2: int|
                        0 <= q < p && pass_width(q, w as int) > 0 && 0 <= j2 < pass_height(
                            q,
                            h as int,
                        ) ==> #[trigger] pass_filter_byte(s@, w as int, h as int, bpp as int, q, j2)
                            <= 4,
                decreases ph - j,
            {
                proof {
                    lemma_pass_lines_nonneg(w as int, h as int, bpp as int, p as int);
                    lemma_pass_offset_le(w as int, h as int, bpp as int, p + 1, 7);
                    vstd::arithmetic::mul::lemma_mul_inequality(j + 1, ph as int, sl);
                    vstd::arithmetic::mul::lemma_mul_is_distributive_add_other_way(
                        sl,
                        j as int,
                        1,
                    );
                    assert(off + (j + 1) * sl <= n);
                }
                let sl_p = 1 + pw * bpp;
                let ft = s[acc];
                if ft > 4 {
                    proof {
                        assert(pass_filter_byte(
                            s@,
                            w as int,
                            h as int,
                            bpp as int,
                            p as int,
                            j as int,
                        ) > 4);
                    }
                    return Err(CodecError::BadFilterType);
                }
                let scan = vstd::slice::slice_subrange(s.as_slice(), acc + 1, acc + sl_p);
                proof {
                    assert(scan@ == pass_scan_bytes(
                        s@,
                        w as int,
                        h as int,
                        bpp as int,
                        p as int,
                        j as int,
                    ));
                }
                let prev_opt: Option<&[u8]> = if j == 0 {
                    None
                } else {
                    Some((&rows_p[j - 1]).as_slice())
                };
                proof {
                    if j > 0 {
                        lemma_pass_raw_rows_row_len(
                            s@,
                            w as int,
                            h as int,
                            bpp as int,
                            p as int,
                            j as int,
                        );
                        lemma_pass_raw_rows_len(
                            s@,
                            w as int,
                            h as int,
                            bpp as int,
                            p as int,
                            j as int,
                        );
                        assert(rows_p@[j - 1]@ == pass_raw_rows(
                            s@,
                            w as int,
                            h as int,
                            bpp as int,
                            p as int,
                            j as int,
                        )[j - 1]);
                    }
                }
                let raw = self.unfilter_scanline(ft, scan, prev_opt, bpp);
                proof {
                    lemma_pass_raw_rows_len(s@, w as int, h as int, bpp as int, p as int, j as int);
                    if j > 0 {
                        lemma_pass_raw_rows_prefix(
                            s@,
                            w as int,
                            h as int,
                            bpp as int,
                            p as int,
                            j as int,
                            j + 1,
                        );
                        assert(pass_raw_rows(
                            s@,
                            w as int,
                            h as int,
                            bpp as int,
                            p as int,
                            j + 1,
                        ).last() == raw@);
                    }
                    assert(pass_raw_rows(s@, w as int, h as int, bpp as int, p as int, j + 1)
                        == pass_raw_rows(s@, w as int, h as int, bpp as int, p as int, j as int).push(
                        raw@,
                    ));
                }
                let ghost old_rows = rows_p@;
                rows_p.push(raw);
                proof {
                    assert(rows_p@.map_values(|r0: Vec<u8>| r0@) =~= old_rows.map_values(
                        |r0: Vec<u8>| r0@,
                    ).push(rows_p@[j as int]@));
                }
                acc = acc + sl_p;
                j = j + 1;
            }
            let ghost old_passes = passes@;
            passes.push(rows_p);
            p = p + 1;
            proof {
                assert(forall|q: int|
                    0 <= q < old_passes.len() ==> (#[trigger] passes@[q])@ == old_passes[q]@);
            }
        }

        // Third pass: read each output pixel from the one pass that
        // produces its position.
        proof {
            lemma_pass_raw_rows_len(s@, w as int, h as int, bpp as int, 0, 0);
        }
        let mut pxs: Vec<Vec<Color>> = Vec::new();
        let mut y: usize = 0;
        while y < h
            invariant
                y <= h,
                n == s@.len(),
                w <= u32::MAX,
                h <= u32::MAX,
                1 <= bpp <= 4,
                bpp == ct.channels(),
                ct != ColorType::Palette,
                interlaced_len_ok(s@, w as int, h as int, bpp as int),
                interlaced_filters_ok(s@, w as int, h as int, bpp as int),
                passes@.len() == 7,
                forall|q: int|
                    0 <= q < 7 && pass_width(q, w as int) > 0 ==> (
                    #[trigger] passes@[q])@.map_values(|r0: Vec<u8>| r0@) == pass_raw_rows(
                        s@,
                        w as int,
                        h as int,
                        bpp as int,
                        q,
                        pass_height(q, h as int),
                    ),
                pxs@.len() == y,
                forall|k: int|
                    0 <= k < y ==> (#[trigger] pxs@[k])@ == interlaced_mat(
                        s@,
                        w as int,
                        h as int,
                        ct,
                    )[k],
            decreases h - y,
        {
            let mut rowc: Vec<Color> = Vec::new();
            let mut x: usize = 0;
            while x < w
                invariant
                    x <= w,
                    y < h,
                    n == s@.len(),
                    w <= u32::MAX,
                    h <= u32::MAX,
                    1 <= bpp <= 4,
                    bpp == ct.channels(),
                    ct != ColorType::Palette,
                    interlaced_len_ok(s@, w as int, h as int, bpp as int),
                    passes@.len() == 7,
                    forall|q: int|
                        0 <= q < 7 && pass_width(q, w as int) > 0 ==> (
                        #[trigger] passes@[q])@.map_values(|r0: Vec<u8>| r0@) == pass_raw_rows(
                            s@,
                            w as int,
                            h as int,
                            bpp as int,
                            q,
                            pass_height(q, h as int),
                        ),
                    rowc@.len() == x,
                    forall|k: int|
                        0 <= k < x ==> rowc@[k] == interlaced_pixel(
                            s@,
                            w as int,
                            h as int,
                            ct,
                            k,
                            y as int,
                        ),
                decreases w - x,
            {
                proof {
                    crate::adam7::lemma_adam7_cover(w as int, h as int, x as int, y as int);
                }
                let p = crate::adam7::pass_of_exec(x, y);
                let (xs, ys, xt, yt) = crate::adam7::pass_params(p);
                let i = (x - xs) / xt;
                let j = (y - ys) / yt;
                let ghost pw = pass_width(p as int, w as int);
                let ghost ph = pass_height(p as int, h as int);
                proof {
                    assert(i == pass_col(x as int, y as int));
                    assert(j == pass_row(x as int, y as int));
                    assert(0 <= i < pw && 0 <= j < ph);
                    lemma_pass_raw_rows_len(
                        s@,
                        w as int,
                        h as int,
                        bpp as int,
                        p as int,
                        ph,
                    );
                    lemma_pass_raw_rows_row_len(
                        s@,
                        w as int,
                        h as int,
                        bpp as int,
                        p as int,
                        ph,
                    );
                    assert(passes@[p as int]@.len() == ph);
                    assert(passes@[p as int]@[j as int]@ == pass_raw_rows(
                        s@,
                        w as int,
                        h as int,
                        bpp as int,
                        p as int,
                        ph,
                    )[j as int]);
                }
                let pass_rows: &Vec<Vec<u8>> = &passes[p];
                let prow: &Vec<u8> = &pass_rows[j];
                let prow_len = prow.len();
                proof {
                    assert(prow@.len() == pw * bpp);
                    vstd::arithmetic::mul::lemma_mul_inequality(i + 1, pw, bpp as int);
                    vstd::arithmetic::mul::lemma_mul_is_distributive_add_other_way(
                        bpp as int,
                        i as int,
                        1,
                    );
                    vstd::arithmetic::mul::lemma_mul_nonnegative(i as int, bpp as int);
                }
                let base = i * bpp;
                let c = match ct {
                    ColorType::Grayscale => {
                        let v = prow[base];
                        Color::new(v, v, v, 255)
                    },
                    ColorType::RGB => Color::new(prow[base], prow[base + 1], prow[base + 2], 255),
                    ColorType::GrayscaleAlpha => {
                        let v = prow[base];
                        Color::new(v, v, v, prow[base + 1])
                    },
                    ColorType::RGBA => Color::new(
                        prow[base],
                        prow[base + 1],
                        prow[base + 2],
                        prow[base + 3],
                    ),
                    ColorType::Palette => {
                        proof {
                            assert(false);
                        }
                        Color::black()
                    },
                };
                proof {
                    let px = prow@.subrange(base as int, base + bpp);
                    assert(c == color_of(ct, px));
                    assert(c == interlaced_pixel(s@, w as int, h as int, ct, x as int, y as int));
                }
                rowc.push(c);
                x = x + 1;
            }
            proof {
                assert(rowc@ =~= interlaced_mat(s@, w as int, h as int, ct)[y as int]);
            }
            pxs.push(rowc);
            y = y + 1;
        }
        proof {
            assert(pxs@.map_values(|row: Vec<Color>| row@) =~= interlaced_mat(
                s@,
                w as int,
                h as int,
                ct,
            ));
        }
        Ok(pxs)
    }

    /// Decodes a whole PNG file into an image: container parse, header
    /// checks, IDAT concatenation, zlib inflation, de-filtering and, for
    /// interlaced files, Adam7 reassembly.
    pub fn decode(&self, data: &Vec<u8>) -> (r: Result<Image, CodecError>)
        ensures
            match r {
                Ok(im) => {
                    &&& decode_ok(data@)
                    &&& im.wf()
                    &&& im.spec_width() == file_hdr(data@).width
                    &&& im.spec_height() == file_hdr(data@).height
                    &&& im.mat() == decoded_mat(data@)
                },
                Err(e) => {
                    ||| (e == CodecError::BadSignature && !sig_ok(data@))
                    ||| (e == CodecError::ShortChunk && sig_ok(data@) && (parse_chunks(data@, 8)
                        is None || (stage_hdr_found(data@) && file_ihdr_payload(data@).len()
                        < 13)))
                    ||| (e == CodecError::MissingIHDR && chunks_ok(data@) && !file_has_ihdr(
                        data@,
                    ))
                    ||| (e == CodecError::BadColorType && stage_hdr_found(data@)
                        && file_ihdr_payload(data@).len() >= 13 && !ColorType::code_valid(
                        file_ihdr_payload(data@)[9],
                    ))
                    ||| (e == CodecError::Unsupported && stage_hdr_ok(data@) && !hdr_supported(
                        file_hdr(data@),
                    ))
                    ||| (e == CodecError::ZlibFailure && stage_supported(data@) && inflate_of(
                        file_z(data@),
                    ) is None)
                    ||| (e == CodecError::TruncatedPixelStream && stage_stream(data@)
                        && !stage_layout(data@))
                    ||| (e == CodecError::BadFilterType && stage_layout(data@) && !decode_ok(
                        data@,
                    ))
                },
            },
    {
        let png = match PNG::from_bytes(data) {
            Ok(p) => p,
            Err(e) => {
                return Err(e);
            },
        };
        let ghost ms = crate::png::chunk_models(png.chunks@);
        proof {
            assert(file_chunks(data@) == ms);
        }

        // Locate the first IHDR chunk.
        let m = png.chunks.len();
        let mut i: usize = 0;
        let mut found = false;
        while i < m && !found
            invariant
                i <= m,
                m == png.chunks@.len(),
                ms == crate::png::chunk_models(png.chunks@),
                forall|k: int| 0 <= k < png.chunks@.len() ==> (#[trigger] png.chunks@[k]).wf(),
                forall|k: int| 0 <= k < i ==> (#[trigger] ms[k]).tag != ihdr_tag(),
                found ==> i < m && ms[i as int].tag == ihdr_tag(),
                !found ==> forall|k: int| 0 <= k < i ==> (#[trigger] ms[k]).tag != ihdr_tag(),
            decreases m - i + if found {
                0int
            } else {
                1int
            },
        {
            proof {
                lemma_tag_variant(png.chunks@[i as int].chunk_type);
            }
            if png.chunks[i].chunk_type.is_ihdr() {
                found = true;
            } else {
                i = i + 1;
            }
        }
        if !found {
            proof {
                lemma_find_tag_skip(ms, ihdr_tag(), m as int);
            }
            return Err(CodecError::MissingIHDR);
        }
        proof {
            lemma_find_tag_skip(ms, ihdr_tag(), i as int);
            assert(find_tag(ms, ihdr_tag(), 0) == i);
            assert(file_ihdr_payload(data@) == ms[i as int].data);
        }

        // Decode and vet the header.
        let hdr = match IHDR::read(&png.chunks[i].data) {
            Ok(hd) => hd,
            Err(e) => {
                return Err(e);
            },
        };
        proof {
            assert(hdr.color_type == color_type_of_code(file_ihdr_payload(data@)[9]));
            assert(hdr == file_hdr(data@));
        }
        if !(hdr.bit_depth == 8 && hdr.compression_method == 0 && hdr.filter_method == 0 && (
        hdr.interlace_method == 0 || hdr.interlace_method == 1)) {
            return Err(CodecError::Unsupported);
        }
        if let ColorType::Palette = hdr.color_type {
            return Err(CodecError::Unsupported);
        }

        // Concatenate the image data chunks in file order.
        let mut z: Vec<u8> = Vec::new();
        let mut k: usize = 0;
        proof {
            assert(z@ =~= idat_concat(ms.subrange(0, 0)));
        }
        while k < m
            invariant
                k <= m,
                m == png.chunks@.len(),
                ms == crate::png::chunk_models(png.chunks@),
                forall|q: int| 0 <= q < png.chunks@.len() ==> (#[trigger] png.chunks@[q]).wf(),
                z@ == idat_concat(ms.subrange(0, k as int)),
            decreases m - k,
        {
            proof {
                lemma_tag_variant(png.chunks@[k as int].chunk_type);
                assert(ms.subrange(0, k + 1).drop_last() =~= ms.subrange(0, k as int));
                assert(ms.subrange(0, k + 1).last() == ms[k as int]);
            }
            if png.chunks[k].chunk_type.is_idat() {
                crate::bytes::push_all(&mut z, &png.chunks[k].data);
            }
            k = k + 1;
            proof {
                assert(z@ =~= idat_concat(ms.subrange(0, k as int)));
            }
        }
        proof {
            assert(ms.subrange(0, m as int) =~= ms);
            assert(z@ == file_z(data@));
        }

        // Inflate the compressed stream.
        let stream = match zlib_decompress(&z) {
            Some(v) => v,
            None => {
                return Err(CodecError::ZlibFailure);
            },
        };

        let w = hdr.width as usize;
        let h = hdr.height as usize;
        let ct = hdr.color_type;
        let bpp = hdr.bytes_per_pixel();
        proof {
            assert(bpp == ct.channels());
        }
        let px = if hdr.interlace_method == 0 {
            match self.decode_straight(&stream, w, h, bpp, ct) {
                Ok(px) => px,
                Err(e) => {
                    return Err(e);
                },
            }
        } else {
            match self.decode_interlaced(&stream, w, h, bpp, ct) {
                Ok(px) => px,
                Err(e) => {
                    return Err(e);
                },
            }
        };
        Ok(Image::from_mat(w, h, px))
    }
}

impl Reader for PNGReader {
    fn read(&self, data: &Vec<u8>) -> (r: Result<Image, CodecError>) {
        self.decode(data)
    }
}

} // verus!
