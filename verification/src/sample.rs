use vstd::prelude::*;

use crate::color::Color;
use crate::ihdr::ColorType;

verus! {

/// The sample bytes one pixel contributes to a packed scanline.
pub open spec fn pack_pixel(ct: ColorType, c: Color) -> Seq<u8> {
    match ct {
        ColorType::Grayscale => seq![c.r],
        ColorType::RGB => seq![c.r, c.g, c.b],
        ColorType::Palette => seq![c.r],
        ColorType::GrayscaleAlpha => seq![c.r, c.a],
        ColorType::RGBA => seq![c.r, c.g, c.b, c.a],
    }
}

/// The packed sample bytes of a whole row of pixels.
pub open spec fn pack_row(ct: ColorType, row: Seq<Color>) -> Seq<u8>
    decreases row.len(),
{
    if row.len() == 0 {
        Seq::empty()
    } else {
        pack_row(ct, row.drop_last()) + pack_pixel(ct, row.last())
    }
}

/// The color read back from one pixel's sample bytes: a missing alpha
/// sample means opaque, and a single luminance sample fills all three
/// color channels.
pub open spec fn color_of(ct: ColorType, px: Seq<u8>) -> Color {
    match ct {
        ColorType::Grayscale => Color { r: px[0], g: px[0], b: px[0], a: 255u8 },
        ColorType::RGB => Color { r: px[0], g: px[1], b: px[2], a: 255u8 },
        ColorType::Palette => Color { r: 0u8, g: 0u8, b: 0u8, a: 255u8 },
        ColorType::GrayscaleAlpha => Color { r: px[0], g: px[0], b: px[0], a: px[1] },
        ColorType::RGBA => Color { r: px[0], g: px[1], b: px[2], a: px[3] },
    }
}

/// The row of colors read back from an unfiltered scanline.
pub open spec fn unpack_row(ct: ColorType, raw: Seq<u8>, w: int) -> Seq<Color> {
    Seq::new(w as nat, |x: int| color_of(ct, raw.subrange(x * ct.channels(), (x + 1) * ct.channels())))
}

/// What one encode-then-decode cycle makes of a pixel: the channels the
/// color type does not carry are lost, alpha defaulting to opaque and the
/// color channels to the luminance source (the red channel).
pub open spec fn normalize_pixel(ct: ColorType, c: Color) -> Color {
    match ct {
        ColorType::Grayscale => Color { r: c.r, g: c.r, b: c.r, a: 255u8 },
        ColorType::RGB => Color { r: c.r, g: c.g, b: c.b, a: 255u8 },
        ColorType::Palette => Color { r: 0u8, g: 0u8, b: 0u8, a: 255u8 },
        ColorType::GrayscaleAlpha => Color { r: c.r, g: c.r, b: c.r, a: c.a },
        ColorType::RGBA => c,
    }
}

/// A packed row is `channels` bytes per pixel.
pub proof fn lemma_pack_row_len(ct: ColorType, row: Seq<Color>)
    ensures
        pack_row(ct, row).len() == row.len() * ct.channels(),
    decreases row.len(),
{
    if row.len() > 0 {
        lemma_pack_row_len(ct, row.drop_last());
        assert((row.len() - 1) * ct.channels() + ct.channels() == row.len() * ct.channels())
            by (nonlinear_arith);
    }
}

/// The sample bytes of pixel `x` sit at `x * channels` in the packed row.
pub proof fn lemma_pack_row_index(ct: ColorType, row: Seq<Color>, x: int)
    requires
        0 <= x < row.len(),
    ensures
        pack_row(ct, row).subrange(x * ct.channels(), (x + 1) * ct.channels()) == pack_pixel(
            ct,
            row[x],
        ),
    decreases row.len(),
{
    lemma_pack_row_len(ct, row);
    let ch = ct.channels();
    if x == row.len() - 1 {
        lemma_pack_row_len(ct, row.drop_last());
        assert(x * ch == pack_row(ct, row.drop_last()).len());
        assert((x + 1) * ch == x * ch + ch) by (nonlinear_arith);
        assert(pack_row(ct, row).subrange(x * ch, (x + 1) * ch) =~= pack_pixel(ct, row.last()));
    } else {
        lemma_pack_row_index(ct, row.drop_last(), x);
        lemma_pack_row_len(ct, row.drop_last());
        assert(0 <= x * ch && (x + 1) * ch <= (row.len() - 1) * ch) by (nonlinear_arith)
            requires
                0 <= x < row.len() - 1,
                ch >= 1,
        ;
        assert(pack_row(ct, row).subrange(x * ch, (x + 1) * ch) =~= pack_row(
            ct,
            row.drop_last(),
        ).subrange(x * ch, (x + 1) * ch));
    }
}

/// Reading a packed row back yields the row with every pixel normalized:
/// for RGBA every pixel is returned exactly; for RGB exactly up to an alpha
/// forced to opaque.
pub proof fn lemma_pack_unpack(ct: ColorType, row: Seq<Color>)
    requires
        ct != ColorType::Palette,
    ensures
        unpack_row(ct, pack_row(ct, row), row.len() as int) == row.map_values(
            |c: Color| normalize_pixel(ct, c),
        ),
{
    let packed = pack_row(ct, row);
    let got = unpack_row(ct, packed, row.len() as int);
    let want = row.map_values(|c: Color| normalize_pixel(ct, c));
    assert forall|x: int| 0 <= x < row.len() implies got[x] == want[x] by {
        lemma_pack_row_index(ct, row, x);
    }
    assert(got =~= want);
}

} // verus!
