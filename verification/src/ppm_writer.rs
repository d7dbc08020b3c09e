use vstd::prelude::*;

use crate::color::Color;
use crate::error::CodecError;
use crate::image::Image;
use crate::interface::Writer;

verus! {

/// The ASCII decimal digits of a nonnegative number, most significant
/// first.
pub open spec fn dec_bytes(n: int) -> Seq<u8>
    decreases n,
{
    if n < 10 {
        seq![(0x30 + n) as u8]
    } else {
        dec_bytes(n / 10) + seq![(0x30 + n % 10) as u8]
    }
}

/// One pixel as plain text: the three color channels in decimal, each
/// followed by a space.
pub open spec fn ppm_pixel_bytes(c: Color) -> Seq<u8> {
    dec_bytes(c.r as int) + seq![32u8] + dec_bytes(c.g as int) + seq![32u8] + dec_bytes(
        c.b as int,
    ) + seq![32u8]
}

/// One row of pixels, closed by a newline.
pub open spec fn ppm_row_bytes(row: Seq<Color>) -> Seq<u8>
    decreases row.len(),
{
    if row.len() == 0 {
        seq![10u8]
    } else {
        ppm_row_bytes(row.drop_last()).drop_last() + ppm_pixel_bytes(row.last()) + seq![10u8]
    }
}

/// All pixel rows of an image.
pub open spec fn ppm_rows_bytes(mat: Seq<Seq<Color>>) -> Seq<u8>
    decreases mat.len(),
{
    if mat.len() == 0 {
        Seq::empty()
    } else {
        ppm_rows_bytes(mat.drop_last()) + ppm_row_bytes(mat.last())
    }
}

/// A whole plain-text pixmap file: the `P3` magic, the dimensions, the
/// maximum sample value 255, then the pixel rows.
pub open spec fn ppm_file_bytes(mat: Seq<Seq<Color>>, w: int, h: int) -> Seq<u8> {
    seq![0x50u8, 0x33u8, 0x0au8] + dec_bytes(w) + seq![32u8] + dec_bytes(h) + seq![0x0au8] + seq![
        0x32u8,
        0x35u8,
        0x35u8,
        0x0au8,
    ] + ppm_rows_bytes(mat)
}

/// Appends the decimal digits of `n`.
pub fn push_dec(out: &mut Vec<u8>, n: usize)
    ensures
        final(out)@ == old(out)@ + dec_bytes(n as int),
    decreases n,
{
    let ghost out0 = out@;
    if n >= 10 {
        push_dec(out, n / 10);
    }
    out.push(0x30 + ((n % 10) as u8));
    proof {
        assert(out@ =~= out0 + dec_bytes(n as int));
    }
}

/// The plain-text pixmap encoder.
pub struct PPMWriter {}

impl PPMWriter {
    /// Encodes an image as a complete plain-text pixmap file, dropping the
    /// alpha channel the format cannot carry.
    pub fn encode(&self, image: &Image) -> (r: Vec<u8>)
        requires
            image.wf(),
        ensures
            r@ == ppm_file_bytes(image.mat(), image.spec_width(), image.spec_height()),
    {
        let mut out: Vec<u8> = Vec::new();
        out.push(0x50);
        out.push(0x33);
        out.push(0x0a);
        push_dec(&mut out, image.width());
        out.push(32);
        push_dec(&mut out, image.height());
        out.push(0x0a);
        out.push(0x32);
        out.push(0x35);
        out.push(0x35);
        out.push(0x0a);
        let ghost head = out@;
        let h = image.height();
        let w = image.width();
        let mut y: usize = 0;
        proof {
            assert(out@ =~= head + ppm_rows_bytes(image.mat().subrange(0, 0)));
        }
        while y < h
            invariant
                y <= h,
                image.wf(),
                h == image.spec_height(),
                w == image.spec_width(),
                out@ == head + ppm_rows_bytes(image.mat().subrange(0, y as int)),
            decreases h - y,
        {
            let row = &image.pixels[y];
            let ghost rowseq = image.mat()[y as int];
            let ghost row_start = out@;
            let mut x: usize = 0;
            proof {
                assert(ppm_row_bytes(rowseq.subrange(0, 0)) =~= seq![10u8]);
                assert(out@ =~= row_start + ppm_row_bytes(rowseq.subrange(0, 0)).drop_last());
            }
            while x < w
                invariant
                    x <= w,
                    image.wf(),
                    w == image.spec_width(),
                    y < image.spec_height(),
                    rowseq == image.mat()[y as int],
                    row@ == rowseq,
                    out@ == row_start + ppm_row_bytes(rowseq.subrange(0, x as int)).drop_last(),
                decreases w - x,
            {
                let c = row[x];
                push_dec(&mut out, c.r as usize);
                out.push(32);
                push_dec(&mut out, c.g as usize);
                out.push(32);
                push_dec(&mut out, c.b as usize);
                out.push(32);
                x = x + 1;
                proof {
                    let sub = rowseq.subrange(0, x as int);
                    assert(sub.drop_last() =~= rowseq.subrange(0, x - 1));
                    assert(sub.last() == rowseq[x - 1]);
                    assert(ppm_row_bytes(sub).drop_last() =~= ppm_row_bytes(
                        sub.drop_last(),
                    ).drop_last() + ppm_pixel_bytes(rowseq[x - 1]));
                    assert(out@ =~= row_start + ppm_row_bytes(sub).drop_last());
                }
            }
            out.push(0x0a);
            y = y + 1;
            proof {
                assert(rowseq.subrange(0, rowseq.len() as int) =~= rowseq);
                let msub = image.mat().subrange(0, y as int);
                assert(msub.drop_last() =~= image.mat().subrange(0, y - 1));
                assert(msub.last() == rowseq);
                assert(ppm_row_bytes(rowseq).drop_last().push(10u8) =~= ppm_row_bytes(rowseq));
                assert(out@ =~= head + ppm_rows_bytes(msub));
            }
        }
        proof {
            assert(image.mat().subrange(0, image.mat().len() as int) =~= image.mat());
            assert(out@ =~= ppm_file_bytes(
                image.mat(),
                image.spec_width(),
                image.spec_height(),
            ));
        }
        out
    }
}

impl Writer for PPMWriter {
    fn extension(&self) -> &'static str {
        "ppm"
    }

    fn write(&self, image: &Image) -> (r: Result<Vec<u8>, CodecError>) {
        Ok(self.encode(image))
    }
}

} // verus!
