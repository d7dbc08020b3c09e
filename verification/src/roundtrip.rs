use vstd::prelude::*;

use crate::chunk::{idat_tag, iend_tag, ihdr_tag, model_bytes, ChunkModel};
use crate::color::Color;
use crate::filter::{filter_spec, lemma_filter_roundtrip};
use crate::ihdr::{ihdr_bytes, lemma_ihdr_roundtrip, ColorType};
use crate::image::grid_wf;
use crate::png::{lemma_parse_chunks_of_bytes, models_bytes, parse_chunks, png_signature};
use crate::png_reader::{
    color_type_of_code, decode_ok, decoded_mat, file_chunks, file_hdr, file_ihdr_payload,
    file_stream, file_z, filter_byte, find_tag, idat_concat, raw_rows, scan_bytes, sig_ok,
    sl_len, stage_hdr_ok, stage_layout, stage_stream, stage_supported, straight_filters_ok,
    straight_len_ok, straight_mat,
};
use crate::ppm_reader::{body_start, lemma_ppm_dims_nonneg, nth_num, ppm_mat, ppm_ok, ppm_pixel};
use crate::png_writer::{
    chosen_filter, chosen_filter_upto, encode_file_bytes, encode_ihdr, encoded_len_fits,
    encoded_stream, filtered_rows, packed_mat, row_prev, settings_supported, Settings,
};
use crate::sample::{
    lemma_pack_row_len, lemma_pack_unpack, normalize_pixel, pack_row, unpack_row,
};
use crate::zlib::{deflate_of, inflate_of};

verus! {

/// The encoder's pick is always one of the five defined filter types.
proof fn lemma_chosen_le4(x: Seq<u8>, prev: Seq<u8>, bpp: int, f: int)
    requires
        0 <= f <= 4,
    ensures
        chosen_filter_upto(x, prev, bpp, f) <= f,
    decreases f,
{
    if f > 0 {
        lemma_chosen_le4(x, prev, bpp, f - 1);
    }
}

/// A filtered stream of `n` uniform rows is `n` whole scanline records.
proof fn lemma_filtered_rows_len(rows: Seq<Seq<u8>>, bpp: int, w: int, n: int)
    requires
        0 <= n <= rows.len(),
        forall|i: int| 0 <= i < rows.len() ==> (#[trigger] rows[i]).len() == w * bpp,
    ensures
        filtered_rows(rows, bpp, n).len() == n * sl_len(w, bpp),
    decreases n,
{
    if n <= 0 {
        assert(0 * sl_len(w, bpp) == 0);
    } else {
        lemma_filtered_rows_len(rows, bpp, w, n - 1);
        assert(n * sl_len(w, bpp) == (n - 1) * sl_len(w, bpp) + sl_len(w, bpp))
            by (nonlinear_arith);
    }
}

/// Within a filtered stream, scanline `y`'s record holds the chosen filter
/// byte and the filtered bytes of packed row `y`.
proof fn lemma_filtered_rows_extract(rows: Seq<Seq<u8>>, bpp: int, w: int, n: int, y: int)
    requires
        0 <= y < n <= rows.len(),
        bpp >= 1,
        forall|i: int| 0 <= i < rows.len() ==> (#[trigger] rows[i]).len() == w * bpp,
    ensures
        filter_byte(filtered_rows(rows, bpp, n), w, bpp, y) == chosen_filter(
            rows[y],
            row_prev(rows, y),
            bpp,
        ),
        scan_bytes(filtered_rows(rows, bpp, n), w, bpp, y) == filter_spec(
            chosen_filter(rows[y], row_prev(rows, y), bpp),
            rows[y],
            row_prev(rows, y),
            bpp,
        ),
    decreases n,
{
    let s = filtered_rows(rows, bpp, n);
    let sp = filtered_rows(rows, bpp, n - 1);
    let bf = chosen_filter(rows[n - 1], row_prev(rows, n - 1), bpp);
    let fs = filter_spec(bf, rows[n - 1], row_prev(rows, n - 1), bpp);
    lemma_filtered_rows_len(rows, bpp, w, n - 1);
    lemma_filtered_rows_len(rows, bpp, w, n);
    if y == n - 1 {
        assert(s == sp + seq![bf] + fs);
        assert(s[y * sl_len(w, bpp)] == bf);
        assert(scan_bytes(s, w, bpp, y) =~= fs) by {
            assert((n - 1) * sl_len(w, bpp) + sl_len(w, bpp) == n * sl_len(w, bpp))
                by (nonlinear_arith);
        }
    } else {
        lemma_filtered_rows_extract(rows, bpp, w, n - 1, y);
        assert((y + 1) * sl_len(w, bpp) <= (n - 1) * sl_len(w, bpp)) by (nonlinear_arith)
            requires
                y + 1 <= n - 1,
                sl_len(w, bpp) >= 1,
        ;
        vstd::arithmetic::mul::lemma_mul_nonnegative(y, sl_len(w, bpp));
        assert((y + 1) * sl_len(w, bpp) == y * sl_len(w, bpp) + sl_len(w, bpp))
            by (nonlinear_arith);
        assert(s == sp + seq![bf] + fs);
        assert(s[y * sl_len(w, bpp)] == sp[y * sl_len(w, bpp)]);
        assert(scan_bytes(s, w, bpp, y) =~= scan_bytes(sp, w, bpp, y));
    }
}

/// Unfiltering a filtered stream restores every packed row: the whole
/// filter stage of the codec is lossless.
proof fn lemma_unfilter_filtered(rows: Seq<Seq<u8>>, bpp: int, w: int, n: int)
    requires
        0 <= n <= rows.len(),
        bpp >= 1,
        forall|i: int| 0 <= i < rows.len() ==> (#[trigger] rows[i]).len() == w * bpp,
    ensures
        raw_rows(filtered_rows(rows, bpp, rows.len() as int), w, bpp, n) == rows.take(n),
    decreases n,
{
    let s = filtered_rows(rows, bpp, rows.len() as int);
    if n <= 0 {
        assert(raw_rows(s, w, bpp, n) =~= rows.take(n));
    } else {
        lemma_unfilter_filtered(rows, bpp, w, n - 1);
        lemma_filtered_rows_extract(rows, bpp, w, rows.len() as int, n - 1);
        let prev = row_prev(rows, n - 1);
        lemma_chosen_le4(rows[n - 1], prev, bpp, 4);
        lemma_filter_roundtrip(
            chosen_filter(rows[n - 1], prev, bpp),
            rows[n - 1],
            prev,
            bpp,
        );
        assert(rows.take(n - 1).len() == n - 1);
        if n >= 2 {
            assert(rows.take(n - 1).last() == rows[n - 2]);
        }
        assert(raw_rows(s, w, bpp, n) =~= rows.take(n));
    }
}

/// Every file the encoder produces begins with the eight PNG signature
/// bytes, whatever the image and settings.
pub proof fn lemma_encode_signature(mat: Seq<Seq<Color>>, w: u32, h: u32, s: Settings)
    ensures
        encode_file_bytes(mat, w, h, s).len() >= 8,
        encode_file_bytes(mat, w, h, s).subrange(0, 8) == png_signature(),
{
    assert(encode_file_bytes(mat, w, h, s).subrange(0, 8) =~= png_signature());
}

/// Every chunk the encoder lays down carries a length equal to its
/// payload's length and a CRC equal to the CRC-32/ISO-HDLC checksum of its
/// tag followed by its payload.
pub proof fn lemma_encode_chunk_integrity(mat: Seq<Seq<Color>>, w: u32, h: u32, s: Settings)
    requires
        encoded_len_fits(s.color_type, mat),
    ensures
        parse_chunks(encode_file_bytes(mat, w, h, s), 8) is Some,
        forall|i: int|
            0 <= i < parse_chunks(encode_file_bytes(mat, w, h, s), 8).unwrap().len() ==> {
                let m = #[trigger] parse_chunks(encode_file_bytes(mat, w, h, s), 8).unwrap()[i];
                m.crc == crate::checksum::crc32_of(m.tag + m.data) && m.length == m.data.len()
            },
{
    let hdr = encode_ihdr(w, h, s);
    let hp = ihdr_bytes(hdr);
    let z = deflate_of(encoded_stream(s.color_type, mat));
    let m1 = ChunkModel {
        length: 13u32,
        tag: ihdr_tag(),
        data: hp,
        crc: crate::checksum::crc32_of(ihdr_tag() + hp),
    };
    let m2 = ChunkModel {
        length: z.len() as u32,
        tag: idat_tag(),
        data: z,
        crc: crate::checksum::crc32_of(idat_tag() + z),
    };
    let m3 = ChunkModel {
        length: 0u32,
        tag: iend_tag(),
        data: Seq::empty(),
        crc: crate::checksum::crc32_of(iend_tag() + Seq::empty()),
    };
    let ms = seq![m1, m2, m3];
    let data = encode_file_bytes(mat, w, h, s);
    lemma_ihdr_roundtrip(hdr);
    assert(models_bytes(ms) =~= model_bytes(m1) + model_bytes(m2) + model_bytes(m3)) by {
        assert(ms.drop_last() =~= seq![m1, m2]);
        assert(seq![m1, m2].drop_last() =~= seq![m1]);
        assert(seq![m1].drop_last() =~= Seq::<ChunkModel>::empty());
        assert(models_bytes(Seq::<ChunkModel>::empty()) == Seq::<u8>::empty());
        assert(models_bytes(seq![m1]) =~= model_bytes(m1));
        assert(models_bytes(seq![m1, m2]) =~= model_bytes(m1) + model_bytes(m2));
    }
    assert(data =~= png_signature() + models_bytes(ms));
    assert(ihdr_tag()[1] == 0x48u8 && idat_tag()[1] == 0x44u8 && iend_tag()[1] == 0x45u8
        && iend_tag()[0] == 0x49u8);
    lemma_parse_chunks_of_bytes(png_signature(), ms, 8);
    assert(parse_chunks(data, 8) == Some(ms));
}

/// Encoding an image and decoding the result succeeds and restores the
/// pixel grid, every pixel normalized for the chosen color type: the
/// channels the file format carries come back exactly; a missing alpha
/// comes back opaque, a single luminance sample fills all three color
/// channels. The zlib round trip is the one fact taken from the
/// compression library, as the encoder's contract states it.
#[verifier::rlimit(100)]
#[verifier::spinoff_prover]
pub proof fn lemma_png_roundtrip(mat: Seq<Seq<Color>>, w: u32, h: u32, s: Settings)
    requires
        grid_wf(w as int, h as int, mat),
        settings_supported(s),
        encoded_len_fits(s.color_type, mat),
        inflate_of(deflate_of(encoded_stream(s.color_type, mat))) == Some(
            encoded_stream(s.color_type, mat),
        ),
    ensures
        decode_ok(encode_file_bytes(mat, w, h, s)),
        file_hdr(encode_file_bytes(mat, w, h, s)) == encode_ihdr(w, h, s),
        decoded_mat(encode_file_bytes(mat, w, h, s)) == mat.map_values(
            |row: Seq<Color>| row.map_values(|c: Color| normalize_pixel(s.color_type, c)),
        ),
{
    let ct = s.color_type;
    let hdr = encode_ihdr(w, h, s);
    let hp = ihdr_bytes(hdr);
    let es = encoded_stream(ct, mat);
    let z = deflate_of(es);
    let m1 = ChunkModel { length: 13u32, tag: ihdr_tag(), data: hp, crc: crate::checksum::crc32_of(ihdr_tag() + hp) };
    let m2 = ChunkModel {
        length: z.len() as u32,
        tag: idat_tag(),
        data: z,
        crc: crate::checksum::crc32_of(idat_tag() + z),
    };
    let m3 = ChunkModel {
        length: 0u32,
        tag: iend_tag(),
        data: Seq::empty(),
        crc: crate::checksum::crc32_of(iend_tag() + Seq::empty()),
    };
    let ms = seq![m1, m2, m3];
    let data = encode_file_bytes(mat, w, h, s);
    lemma_ihdr_roundtrip(hdr);

    // The container parses back to the three chunks.
    assert(models_bytes(ms) =~= model_bytes(m1) + model_bytes(m2) + model_bytes(m3)) by {
        assert(ms.drop_last() =~= seq![m1, m2]);
        assert(seq![m1, m2].drop_last() =~= seq![m1]);
        assert(seq![m1].drop_last() =~= Seq::<ChunkModel>::empty());
        assert(models_bytes(Seq::<ChunkModel>::empty()) == Seq::<u8>::empty());
        assert(models_bytes(seq![m1]) =~= model_bytes(m1));
        assert(models_bytes(seq![m1, m2]) =~= model_bytes(m1) + model_bytes(m2));
    }
    assert(data =~= png_signature() + models_bytes(ms));
    assert(data.subrange(0, 8) =~= png_signature());
    assert(sig_ok(data));
    assert(ihdr_tag()[1] == 0x48u8 && idat_tag()[1] == 0x44u8 && iend_tag()[1] == 0x45u8
        && iend_tag()[0] == 0x49u8);
    lemma_parse_chunks_of_bytes(png_signature(), ms, 8);
    assert(parse_chunks(data, 8) == Some(ms));
    assert(file_chunks(data) == ms);

    // The header chunk is found first and reads back field for field.
    assert(find_tag(ms, ihdr_tag(), 0) == 0);
    assert(file_ihdr_payload(data) == hp);
    assert(stage_hdr_ok(data));
    assert(color_type_of_code(ct.code()) == ct);
    assert(file_hdr(data) == hdr);
    assert(stage_supported(data));

    // The image data is the one IDAT chunk's payload, which inflates back
    // to the filtered stream.
    assert(idat_concat(ms) =~= z) by {
        assert(ms.drop_last() =~= seq![m1, m2]);
        assert(seq![m1, m2].drop_last() =~= seq![m1]);
        assert(seq![m1].drop_last() =~= Seq::<ChunkModel>::empty());
        assert(idat_concat(Seq::<ChunkModel>::empty()) == Seq::<u8>::empty());
        assert(idat_concat(seq![m1]) =~= Seq::<u8>::empty());
        assert(idat_concat(seq![m1, m2]) =~= z);
    }
    assert(file_z(data) == z);
    assert(inflate_of(file_z(data)) == Some(es));
    assert(stage_stream(data));
    assert(file_stream(data) == es);

    // The stream lays out as `height` scanlines of width `width`.
    let prows = packed_mat(ct, mat);
    let ch = ct.channels();
    assert(prows.len() == h);
    assert forall|i: int| 0 <= i < prows.len() implies (#[trigger] prows[i]).len() == (w as int)
        * ch by {
        lemma_pack_row_len(ct, mat[i]);
    }
    assert(es == filtered_rows(prows, ch, h as int));
    lemma_filtered_rows_len(prows, ch, w as int, h as int);
    assert(straight_len_ok(es, w as int, h as int, ch));
    assert(stage_layout(data));
    assert forall|y: int| 0 <= y < h implies filter_byte(es, w as int, ch, y) <= 4 by {
        lemma_filtered_rows_extract(prows, ch, w as int, h as int, y);
        lemma_chosen_le4(prows[y], row_prev(prows, y), ch, 4);
    }
    assert(straight_filters_ok(es, w as int, h as int, ch));
    assert(decode_ok(data));

    // Unfiltering restores the packed rows, and unpacking those restores
    // the normalized pixels.
    lemma_unfilter_filtered(prows, ch, w as int, h as int);
    assert(prows.take(h as int) =~= prows);
    let want = mat.map_values(
        |row: Seq<Color>| row.map_values(|c: Color| normalize_pixel(s.color_type, c)),
    );
    assert forall|y: int| 0 <= y < h implies straight_mat(es, w as int, h as int, ct)[y]
        == want[y] by {
        lemma_pack_unpack(ct, mat[y]);
        assert(raw_rows(es, w as int, ch, h as int)[y] == prows[y]);
        assert(prows[y] == pack_row(ct, mat[y]));
        assert(unpack_row(ct, pack_row(ct, mat[y]), mat[y].len() as int) == mat[y].map_values(
            |c: Color| normalize_pixel(ct, c),
        ));
    }
    assert(straight_mat(es, w as int, h as int, ct) =~= want);
    assert(decoded_mat(data) == want);
}

/// Encoding with the RGBA color type and decoding restores the image
/// exactly, alpha included.
pub proof fn lemma_png_roundtrip_rgba(mat: Seq<Seq<Color>>, w: u32, h: u32, s: Settings)
    requires
        grid_wf(w as int, h as int, mat),
        s.color_type == ColorType::RGBA,
        settings_supported(s),
        encoded_len_fits(s.color_type, mat),
        inflate_of(deflate_of(encoded_stream(s.color_type, mat))) == Some(
            encoded_stream(s.color_type, mat),
        ),
    ensures
        decode_ok(encode_file_bytes(mat, w, h, s)),
        decoded_mat(encode_file_bytes(mat, w, h, s)) == mat,
{
    lemma_png_roundtrip(mat, w, h, s);
    let want = mat.map_values(
        |row: Seq<Color>| row.map_values(|c: Color| normalize_pixel(s.color_type, c)),
    );
    assert forall|y: int| 0 <= y < mat.len() implies want[y] == mat[y] by {
        assert(mat[y].map_values(|c: Color| normalize_pixel(s.color_type, c)) =~= mat[y]);
    }
    assert(want =~= mat);
}

/// Encoding with the RGB color type and decoding restores every pixel's
/// color channels exactly, with alpha forced to opaque.
pub proof fn lemma_png_roundtrip_rgb(mat: Seq<Seq<Color>>, w: u32, h: u32, s: Settings)
    requires
        grid_wf(w as int, h as int, mat),
        s.color_type == ColorType::RGB,
        settings_supported(s),
        encoded_len_fits(s.color_type, mat),
        inflate_of(deflate_of(encoded_stream(s.color_type, mat))) == Some(
            encoded_stream(s.color_type, mat),
        ),
    ensures
        decode_ok(encode_file_bytes(mat, w, h, s)),
        decoded_mat(encode_file_bytes(mat, w, h, s)).len() == mat.len(),
        forall|y: int, x: int|
            0 <= y < mat.len() && 0 <= x < mat[y].len()
                ==> #[trigger] decoded_mat(encode_file_bytes(mat, w, h, s))[y][x] == (Color {
                r: mat[y][x].r,
                g: mat[y][x].g,
                b: mat[y][x].b,
                a: 255u8,
            }),
{
    lemma_png_roundtrip(mat, w, h, s);
}

/// A pixel grid read from a plain-text pixmap survives a PNG round trip
/// exactly. The plain format carries no alpha, so every pixel read from it
/// is already opaque, and encoding with the RGB color type then decoding
/// hands back the very same grid: the color depth is preserved at 8 bits.
pub proof fn lemma_ppm_to_png_roundtrip(data: Seq<u8>, s: Settings)
    requires
        ppm_ok(data),
        s.color_type == ColorType::RGB,
        settings_supported(s),
        encoded_len_fits(ColorType::RGB, ppm_mat(data)),
        inflate_of(deflate_of(encoded_stream(ColorType::RGB, ppm_mat(data)))) == Some(
            encoded_stream(ColorType::RGB, ppm_mat(data)),
        ),
    ensures
        decode_ok(
            encode_file_bytes(
                ppm_mat(data),
                nth_num(data, body_start(data), 0) as u32,
                nth_num(data, body_start(data), 1) as u32,
                s,
            ),
        ),
        decoded_mat(
            encode_file_bytes(
                ppm_mat(data),
                nth_num(data, body_start(data), 0) as u32,
                nth_num(data, body_start(data), 1) as u32,
                s,
            ),
        ) == ppm_mat(data),
{
    let mat = ppm_mat(data);
    let w = nth_num(data, body_start(data), 0);
    let h = nth_num(data, body_start(data), 1);
    lemma_ppm_dims_nonneg(data);
    assert(grid_wf(w, h, mat));
    lemma_png_roundtrip(mat, w as u32, h as u32, s);
    let want = mat.map_values(
        |row: Seq<Color>| row.map_values(|c: Color| normalize_pixel(s.color_type, c)),
    );
    assert forall|y: int| 0 <= y < mat.len() implies want[y] == mat[y] by {
        assert forall|x: int| 0 <= x < mat[y].len() implies mat[y].map_values(
            |c: Color| normalize_pixel(s.color_type, c),
        )[x] == mat[y][x] by {
            assert(mat[y][x] == ppm_pixel(data, x, y));
            assert(mat[y][x].a == 255);
        }
        assert(mat[y].map_values(|c: Color| normalize_pixel(s.color_type, c)) =~= mat[y]);
    }
    assert(want =~= mat);
}

} // verus!
