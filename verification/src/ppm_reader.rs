use vstd::prelude::*;

use crate::color::Color;
use crate::error::CodecError;
use crate::image::Image;
use crate::interface::Reader;

verus! {

/// The index of the first line feed at or after `i`, or the end of the
/// data.
pub open spec fn line_end(s: Seq<u8>, i: int) -> int
    decreases s.len() - i,
{
    if i < 0 || i >= s.len() || s[i] == 10 {
        i
    } else {
        line_end(s, i + 1)
    }
}

/// Scanning for the line end from the start is scanning from `i` when no
/// line feed comes before `i`.
proof fn lemma_line_end_skip(s: Seq<u8>, i: int)
    requires
        0 <= i <= s.len(),
        forall|k: int| 0 <= k < i ==> s[k] != 10,
    ensures
        line_end(s, 0) == line_end(s, i),
    decreases i,
{
    if i > 0 {
        lemma_line_end_skip(s, i - 1);
    }
}

/// The first line of the file is exactly `P3`, with an optional carriage
/// return before the line feed.
pub open spec fn ppm_magic_ok(s: Seq<u8>) -> bool {
    let e0 = line_end(s, 0);
    let e = if e0 > 0 && s[e0 - 1] == 13 {
        e0 - 1
    } else {
        e0
    };
    &&& e == 2
    &&& s[0] == 0x50
    &&& s[1] == 0x33
}

/// Where the numbers of the file begin: just past the magic line.
pub open spec fn body_start(s: Seq<u8>) -> int {
    if line_end(s, 0) < s.len() {
        line_end(s, 0) + 1
    } else {
        line_end(s, 0)
    }
}

/// A whitespace byte of the plain-text format.
pub open spec fn is_ws(b: u8) -> bool {
    b == 32 || b == 9 || b == 10 || b == 13
}

pub open spec fn is_digit(b: u8) -> bool {
    0x30 <= b <= 0x39
}

/// The first non-whitespace position at or after `i`.
pub open spec fn skip_ws(s: Seq<u8>, i: int) -> int
    decreases s.len() - i,
{
    if i < 0 || i >= s.len() || !is_ws(s[i]) {
        i
    } else {
        skip_ws(s, i + 1)
    }
}

/// The first whitespace position at or after `i`.
pub open spec fn token_end(s: Seq<u8>, i: int) -> int
    decreases s.len() - i,
{
    if i < 0 || i >= s.len() || is_ws(s[i]) {
        i
    } else {
        token_end(s, i + 1)
    }
}

/// The token scan never moves backwards.
proof fn lemma_token_end_ge(s: Seq<u8>, i: int)
    requires
        0 <= i,
    ensures
        token_end(s, i) >= i,
    decreases s.len() - i,
{
    if i < s.len() && !is_ws(s[i]) {
        lemma_token_end_ge(s, i + 1);
    }
}

/// The token scan never leaves the data.
proof fn lemma_token_end_le(s: Seq<u8>, i: int)
    requires
        i <= s.len(),
    ensures
        token_end(s, i) <= s.len(),
    decreases s.len() - i,
{
    if 0 <= i < s.len() && !is_ws(s[i]) {
        lemma_token_end_le(s, i + 1);
    }
}

/// A nonempty run of decimal digits.
pub open spec fn all_digits(t: Seq<u8>) -> bool {
    &&& t.len() > 0
    &&& forall|k: int| 0 <= k < t.len() ==> is_digit(#[trigger] t[k])
}

/// The value of a run of decimal digits, most significant first.
pub open spec fn digits_val(t: Seq<u8>) -> int
    decreases t.len(),
{
    if t.len() == 0 {
        0
    } else {
        digits_val(t.drop_last()) * 10 + (t.last() - 0x30)
    }
}

/// A whole decimal token stands at or after `i`.
pub open spec fn num_ok(s: Seq<u8>, i: int) -> bool {
    all_digits(s.subrange(skip_ws(s, i), token_end(s, skip_ws(s, i))))
}

/// Where the token at or after `i` ends.
pub open spec fn num_end(s: Seq<u8>, i: int) -> int {
    token_end(s, skip_ws(s, i))
}

/// The value of the token at or after `i`.
pub open spec fn num_val(s: Seq<u8>, i: int) -> int {
    digits_val(s.subrange(skip_ws(s, i), token_end(s, skip_ws(s, i))))
}

/// The position after reading `k` tokens from `i`.
pub open spec fn pos_after(s: Seq<u8>, i: int, k: nat) -> int
    decreases k,
{
    if k == 0 {
        i
    } else {
        pos_after(s, num_end(s, i), (k - 1) as nat)
    }
}

/// Whole decimal tokens stand at each of the `k` reads from `i`.
pub open spec fn nums_ok(s: Seq<u8>, i: int, k: nat) -> bool
    decreases k,
{
    k == 0 || (num_ok(s, i) && nums_ok(s, num_end(s, i), (k - 1) as nat))
}

/// The value of the `k`th token read from `i`, counting from zero.
pub open spec fn nth_num(s: Seq<u8>, i: int, k: nat) -> int {
    num_val(s, pos_after(s, i, k))
}

/// Reading one more token reads it where the previous read stopped.
proof fn lemma_pos_after_snoc(s: Seq<u8>, i: int, k: nat)
    ensures
        pos_after(s, i, (k + 1) as nat) == num_end(s, pos_after(s, i, k)),
        nums_ok(s, i, (k + 1) as nat) == (nums_ok(s, i, k) && num_ok(s, pos_after(s, i, k))),
    decreases k,
{
    if k == 0 {
        assert(pos_after(s, i, 1) == pos_after(s, num_end(s, i), 0));
        assert(nums_ok(s, i, 1) == (num_ok(s, i) && nums_ok(s, num_end(s, i), 0)));
    } else {
        lemma_pos_after_snoc(s, num_end(s, i), (k - 1) as nat);
        assert(pos_after(s, i, (k + 1) as nat) == pos_after(s, num_end(s, i), k));
        assert(pos_after(s, i, k) == pos_after(s, num_end(s, i), (k - 1) as nat));
        assert(nums_ok(s, i, (k + 1) as nat) == (num_ok(s, i) && nums_ok(s, num_end(s, i), k)));
        assert(nums_ok(s, i, k) == (num_ok(s, i) && nums_ok(s, num_end(s, i), (k - 1) as nat)));
    }
}

/// Each of `k` successful reads finds a whole token.
proof fn lemma_nums_ok_at(s: Seq<u8>, i: int, k: nat, j: nat)
    requires
        nums_ok(s, i, k),
        j < k,
    ensures
        num_ok(s, pos_after(s, i, j)),
    decreases j,
{
    if j > 0 {
        lemma_nums_ok_at(s, num_end(s, i), (k - 1) as nat, (j - 1) as nat);
    }
}

/// A run of digits has a nonnegative value.
proof fn lemma_digits_val_nonneg(t: Seq<u8>)
    requires
        forall|k: int| 0 <= k < t.len() ==> is_digit(#[trigger] t[k]),
    ensures
        digits_val(t) >= 0,
    decreases t.len(),
{
    if t.len() > 0 {
        lemma_digits_val_nonneg(t.drop_last());
    }
}

/// A whole plain-text pixmap decodes: the magic line, three header
/// numbers with the dimensions in 32-bit range, and one in-range decimal
/// per sample of every pixel.
pub open spec fn ppm_ok(s: Seq<u8>) -> bool {
    let p0 = body_start(s);
    let w = nth_num(s, p0, 0);
    let h = nth_num(s, p0, 1);
    let pb = pos_after(s, p0, 3);
    &&& ppm_magic_ok(s)
    &&& nums_ok(s, p0, 3)
    &&& nth_num(s, p0, 0) <= u32::MAX
    &&& nth_num(s, p0, 1) <= u32::MAX
    &&& nth_num(s, p0, 2) <= u32::MAX
    &&& nums_ok(s, pb, (3 * w * h) as nat)
    &&& forall|k: nat| k < 3 * w * h ==> #[trigger] nth_num(s, pb, k) <= 255
}

/// The whole pixel grid a decodable file holds.
pub open spec fn ppm_mat(s: Seq<u8>) -> Seq<Seq<Color>> {
    Seq::new(
        nth_num(s, body_start(s), 1) as nat,
        |y: int| Seq::new(nth_num(s, body_start(s), 0) as nat, |x: int| ppm_pixel(s, x, y)),
    )
}

/// A decodable file's token values are digit runs, so never negative.
pub proof fn lemma_ppm_dims_nonneg(s: Seq<u8>)
    requires
        ppm_ok(s),
    ensures
        0 <= nth_num(s, body_start(s), 0),
        0 <= nth_num(s, body_start(s), 1),
{
    let p0 = body_start(s);
    lemma_nums_ok_at(s, p0, 3, 0);
    lemma_nums_ok_at(s, p0, 3, 1);
    lemma_digits_val_nonneg(
        s.subrange(
            skip_ws(s, pos_after(s, p0, 0)),
            token_end(s, skip_ws(s, pos_after(s, p0, 0))),
        ),
    );
    lemma_digits_val_nonneg(
        s.subrange(
            skip_ws(s, pos_after(s, p0, 1)),
            token_end(s, skip_ws(s, pos_after(s, p0, 1))),
        ),
    );
}

/// The color of pixel `(x, y)` of a decodable file: its three decimal
/// samples, fully opaque.
pub open spec fn ppm_pixel(s: Seq<u8>, x: int, y: int) -> Color {
    let p0 = body_start(s);
    let w = nth_num(s, p0, 0);
    let pb = pos_after(s, p0, 3);
    let k = 3 * (y * w + x);
    Color {
        r: nth_num(s, pb, k as nat) as u8,
        g: nth_num(s, pb, (k + 1) as nat) as u8,
        b: nth_num(s, pb, (k + 2) as nat) as u8,
        a: 255u8,
    }
}

/// A whitespace byte of the plain-text format.
fn is_space(b: u8) -> (r: bool)
    ensures
        r == is_ws(b),
{
    b == 32 || b == 9 || b == 10 || b == 13
}

/// Reads the next whitespace-separated decimal token at or after `pos`.
/// `TruncatedPixelStream` when none is left or the token is not all
/// digits; `Unsupported` when its value overflows 32 bits.
fn next_number(data: &Vec<u8>, pos: usize) -> (r: Result<(u32, usize), CodecError>)
    requires
        pos <= data@.len(),
    ensures
        match r {
            Ok(p) => {
                &&& num_ok(data@, pos as int)
                &&& num_val(data@, pos as int) <= u32::MAX
                &&& p.0 == num_val(data@, pos as int)
                &&& p.1 == num_end(data@, pos as int)
                &&& pos <= p.1 <= data@.len()
            },
            Err(e) => {
                ||| (e == CodecError::TruncatedPixelStream && !num_ok(data@, pos as int))
                ||| (e == CodecError::Unsupported && num_ok(data@, pos as int) && num_val(
                    data@,
                    pos as int,
                ) > u32::MAX)
            },
        },
{
    let n = data.len();
    let mut i = pos;
    while i < n && is_space(data[i])
        invariant
            pos <= i <= n,
            n == data@.len(),
            skip_ws(data@, pos as int) == skip_ws(data@, i as int),
        decreases n - i,
    {
        i = i + 1;
    }
    let start = i;
    proof {
        assert(skip_ws(data@, pos as int) == start);
    }
    if i == n {
        proof {
            assert(data@.subrange(start as int, token_end(data@, start as int)).len() == 0);
        }
        return Err(CodecError::TruncatedPixelStream);
    }

    let mut v: u64 = 0;
    let mut over = false;
    while i < n && !is_space(data[i])
        invariant
            start <= i <= n,
            n == data@.len(),
            start == skip_ws(data@, pos as int),
            start < n,
            !is_ws(data@[start as int]),
            token_end(data@, start as int) == token_end(data@, i as int),
            forall|k: int|
                start <= k < i ==> is_digit(#[trigger] data@[k]) && !is_ws(data@[k]),
            !over ==> v == digits_val(data@.subrange(start as int, i as int)) && v
                <= 0xffff_ffff,
            over ==> digits_val(data@.subrange(start as int, i as int)) > 0xffff_ffff,
        decreases n - i,
    {
        let b = data[i];
        if !(b >= 0x30 && b <= 0x39) {
            proof {
                lemma_token_end_ge(data@, i + 1);
                lemma_token_end_le(data@, start as int);
                assert(token_end(data@, i as int) == token_end(data@, i + 1));
                assert(token_end(data@, start as int) >= i + 1);
                let te = token_end(data@, start as int);
                let tok = data@.subrange(start as int, te);
                assert(tok.len() == te - start);
                assert(tok[i - start] == data@[i as int]);
                assert(!is_digit(tok[i - start]));
                assert(!all_digits(tok));
            }
            return Err(CodecError::TruncatedPixelStream);
        }
        proof {
            let a = data@.subrange(start as int, i as int);
            let c = data@.subrange(start as int, i + 1);
            assert(c.drop_last() =~= a);
            assert(c.last() == data@[i as int]);
            if over {
                lemma_digits_val_nonneg(a);
                assert(digits_val(c) == digits_val(a) * 10 + (b - 0x30));
                assert(digits_val(a) * 10 >= digits_val(a)) by (nonlinear_arith)
                    requires
                        digits_val(a) >= 0,
                ;
            }
        }
        if !over {
            let d = (b - 0x30) as u64;
            let next = v * 10 + d;
            if next > 0xffff_ffff {
                over = true;
            } else {
                v = next;
            }
        }
        i = i + 1;
    }
    let ghost tok = data@.subrange(start as int, token_end(data@, start as int));
    proof {
        assert(token_end(data@, start as int) == i);
        assert(tok =~= data@.subrange(start as int, i as int));
        assert(all_digits(tok)) by {
            assert(tok.len() == i - start);
            assert(i > start) by {
                if i == start {
                    assert(is_ws(data@[start as int]) || i == n);
                }
            }
        }
    }
    if over {
        return Err(CodecError::Unsupported);
    }
    Ok((v as u32, i))
}

/// The plain-text pixmap decoder.
pub struct PPMReader {}

impl PPMReader {
    /// Decodes a plain-text pixmap: the `P3` line, then width, height and
    /// the maximum sample value (read and ignored), then `width * height`
    /// whitespace-separated RGB triplets in row-major order. A file whose
    /// first line is not `P3` is `BadSignature`; a missing or malformed
    /// number is `TruncatedPixelStream`; a sample over 255 or a dimension
    /// over 32 bits is `Unsupported`.
    pub fn decode(&self, data: &Vec<u8>) -> (r: Result<Image, CodecError>)
        ensures
            r is Ok <==> ppm_ok(data@),
            match r {
                Ok(im) => {
                    &&& im.wf()
                    &&& im.spec_width() == nth_num(data@, body_start(data@), 0)
                    &&& im.spec_height() == nth_num(data@, body_start(data@), 1)
                    &&& im.mat() == ppm_mat(data@)
                    &&& forall|y: int, x: int|
                        0 <= y < im.spec_height() && 0 <= x < im.spec_width()
                            ==> #[trigger] im.mat()[y][x] == ppm_pixel(data@, x, y)
                },
                Err(e) => {
                    ||| (e == CodecError::BadSignature && !ppm_magic_ok(data@))
                    ||| ((e == CodecError::TruncatedPixelStream || e == CodecError::Unsupported)
                        && ppm_magic_ok(data@))
                },
            },
    {
        let ghost sq = data@;
        let n = data.len();
        let mut i: usize = 0;
        while i < n && data[i] != 10
            invariant
                i <= n,
                n == sq.len(),
                sq == data@,
                forall|k: int| 0 <= k < i ==> sq[k] != 10,
            decreases n - i,
        {
            i = i + 1;
        }
        proof {
            lemma_line_end_skip(sq, i as int);
            assert(line_end(sq, 0) == i);
        }
        let e = if i > 0 && data[i - 1] == 13 {
            i - 1
        } else {
            i
        };
        if !(e == 2 && data[0] == 0x50 && data[1] == 0x33) {
            return Err(CodecError::BadSignature);
        }
        let p0 = if i < n {
            i + 1
        } else {
            i
        };
        proof {
            assert(p0 == body_start(sq));
            assert(pos_after(sq, p0 as int, 0) == p0);
        }

        let (w32, p1) = match next_number(data, p0) {
            Ok(p) => p,
            Err(e2) => {
                proof {
                    if ppm_ok(sq) {
                        lemma_nums_ok_at(sq, p0 as int, 3, 0);
                    }
                }
                return Err(e2);
            },
        };
        proof {
            lemma_pos_after_snoc(sq, p0 as int, 0);
        }
        let (h32, p2) = match next_number(data, p1) {
            Ok(p) => p,
            Err(e2) => {
                proof {
                    if ppm_ok(sq) {
                        lemma_nums_ok_at(sq, p0 as int, 3, 1);
                    }
                }
                return Err(e2);
            },
        };
        proof {
            lemma_pos_after_snoc(sq, p0 as int, 1);
        }
        let (_max, p3) = match next_number(data, p2) {
            Ok(p) => p,
            Err(e2) => {
                proof {
                    if ppm_ok(sq) {
                        lemma_nums_ok_at(sq, p0 as int, 3, 2);
                    }
                }
                return Err(e2);
            },
        };
        proof {
            lemma_pos_after_snoc(sq, p0 as int, 2);
            assert(nums_ok(sq, p0 as int, 3));
            assert(pos_after(sq, p0 as int, 3) == p3);
        }
        let w = w32 as usize;
        let h = h32 as usize;
        let ghost pb = p3 as int;
        let ghost total = 3 * nth_num(sq, p0 as int, 0) * nth_num(sq, p0 as int, 1);
        proof {
            assert(nth_num(sq, p0 as int, 0) == w32);
            assert(nth_num(sq, p0 as int, 1) == h32);
            assert(total == 3 * (w as int) * (h as int));
        }

        let mut pixels: Vec<Vec<Color>> = Vec::new();
        let mut pos = p3;
        let mut y: usize = 0;
        proof {
            assert(3 * ((0 as int) * (w as int)) == 0);
        }
        while y < h
            invariant
                y <= h,
                pos <= n,
                n == sq.len(),
                sq == data@,
                ppm_magic_ok(sq),
                p0 == body_start(sq),
                pb == pos_after(sq, p0 as int, 3),
                nth_num(sq, p0 as int, 0) == w as int,
                nth_num(sq, p0 as int, 1) == h as int,
                total == 3 * (w as int) * (h as int),
                pos == pos_after(sq, pb, (3 * (y as int) * (w as int)) as nat),
                nums_ok(sq, pb, (3 * (y as int) * (w as int)) as nat),
                forall|k: nat|
                    k < 3 * (y as int) * (w as int) ==> #[trigger] nth_num(sq, pb, k) <= 255,
                pixels@.len() == y,
                forall|k: int| 0 <= k < y ==> (#[trigger] pixels@[k])@.len() == w,
                forall|yy: int, xx: int|
                    0 <= yy < y && 0 <= xx < w ==> (#[trigger] pixels@[yy]@[xx]) == ppm_pixel(
                        sq,
                        xx,
                        yy,
                    ),
            decreases h - y,
        {
            let mut row: Vec<Color> = Vec::new();
            let mut x: usize = 0;
            proof {
                assert(3 * (y as int) * (w as int) + 3 * (0 as int) == 3 * (y as int) * (
                w as int));
            }
            while x < w
                invariant
                    x <= w,
                    y < h,
                    pos <= n,
                    n == sq.len(),
                    sq == data@,
                    ppm_magic_ok(sq),
                    p0 == body_start(sq),
                    pb == pos_after(sq, p0 as int, 3),
                    nth_num(sq, p0 as int, 0) == w as int,
                    nth_num(sq, p0 as int, 1) == h as int,
                    total == 3 * (w as int) * (h as int),
                    pos == pos_after(sq, pb, (3 * (y as int) * (w as int) + 3 * (x as int)) as nat),
                    nums_ok(sq, pb, (3 * (y as int) * (w as int) + 3 * (x as int)) as nat),
                    forall|k: nat|
                        k < 3 * (y as int) * (w as int) + 3 * (x as int)
                            ==> #[trigger] nth_num(sq, pb, k) <= 255,
                    row@.len() == x,
                    forall|xx: int|
                        0 <= xx < x ==> (#[trigger] row@[xx]) == ppm_pixel(sq, xx, y as int),
                decreases w - x,
            {
                let ghost k0 = (3 * (y as int) * (w as int) + 3 * (x as int)) as nat;
                let (rv, q1) = match next_number(data, pos) {
                    Ok(p) => p,
                    Err(e2) => {
                        proof {
                            if ppm_ok(sq) {
                                assert(k0 + 2 < total) by (nonlinear_arith)
                                    requires
                                        k0 == 3 * (y as int) * (w as int) + 3 * (x as int),
                                        total == 3 * (w as int) * (h as int),
                                        0 <= y < h,
                                        0 <= x < w,
                                ;
                                lemma_nums_ok_at(sq, pb, total as nat, k0);
                                lemma_nums_ok_at(sq, pb, total as nat, (k0 + 1) as nat);
                                lemma_nums_ok_at(sq, pb, total as nat, (k0 + 2) as nat);
                                assert(nth_num(sq, pb, k0) <= 255);
                                assert(nth_num(sq, pb, (k0 + 1) as nat) <= 255);
                                assert(nth_num(sq, pb, (k0 + 2) as nat) <= 255);
                            }
                        }
                        return Err(e2);
                    },
                };
                proof {
                    lemma_pos_after_snoc(sq, pb, k0);
                }
                let (gv, q2) = match next_number(data, q1) {
                    Ok(p) => p,
                    Err(e2) => {
                        proof {
                            if ppm_ok(sq) {
                                assert(k0 + 2 < total) by (nonlinear_arith)
                                    requires
                                        k0 == 3 * (y as int) * (w as int) + 3 * (x as int),
                                        total == 3 * (w as int) * (h as int),
                                        0 <= y < h,
                                        0 <= x < w,
                                ;
                                lemma_nums_ok_at(sq, pb, total as nat, k0);
                                lemma_nums_ok_at(sq, pb, total as nat, (k0 + 1) as nat);
                                lemma_nums_ok_at(sq, pb, total as nat, (k0 + 2) as nat);
                                assert(nth_num(sq, pb, k0) <= 255);
                                assert(nth_num(sq, pb, (k0 + 1) as nat) <= 255);
                                assert(nth_num(sq, pb, (k0 + 2) as nat) <= 255);
                            }
                        }
                        return Err(e2);
                    },
                };
                proof {
                    lemma_pos_after_snoc(sq, pb, (k0 + 1) as nat);
                }
                let (bv, q3) = match next_number(data, q2) {
                    Ok(p) => p,
                    Err(e2) => {
                        proof {
                            if ppm_ok(sq) {
                                assert(k0 + 2 < total) by (nonlinear_arith)
                                    requires
                                        k0 == 3 * (y as int) * (w as int) + 3 * (x as int),
                                        total == 3 * (w as int) * (h as int),
                                        0 <= y < h,
                                        0 <= x < w,
                                ;
                                lemma_nums_ok_at(sq, pb, total as nat, k0);
                                lemma_nums_ok_at(sq, pb, total as nat, (k0 + 1) as nat);
                                lemma_nums_ok_at(sq, pb, total as nat, (k0 + 2) as nat);
                                assert(nth_num(sq, pb, k0) <= 255);
                                assert(nth_num(sq, pb, (k0 + 1) as nat) <= 255);
                                assert(nth_num(sq, pb, (k0 + 2) as nat) <= 255);
                            }
                        }
                        return Err(e2);
                    },
                };
                proof {
                    lemma_pos_after_snoc(sq, pb, (k0 + 2) as nat);
                }
                if rv > 255 || gv > 255 || bv > 255 {
                    proof {
                        if ppm_ok(sq) {
                            assert(k0 + 2 < total) by (nonlinear_arith)
                                requires
                                    k0 == 3 * (y as int) * (w as int) + 3 * (x as int),
                                    total == 3 * (w as int) * (h as int),
                                    0 <= y < h,
                                    0 <= x < w,
                            ;
                            assert(nth_num(sq, pb, k0) <= 255);
                            assert(nth_num(sq, pb, (k0 + 1) as nat) <= 255);
                            assert(nth_num(sq, pb, (k0 + 2) as nat) <= 255);
                        }
                    }
                    return Err(CodecError::Unsupported);
                }
                row.push(Color::from_rgb(rv as u8, gv as u8, bv as u8));
                pos = q3;
                x = x + 1;
                proof {
                    assert(3 * ((y as int) * (w as int) + (x - 1)) == 3 * (y as int) * (w as int)
                        + 3 * (x - 1)) by (nonlinear_arith);
                    assert(row@[x - 1] == ppm_pixel(sq, x - 1, y as int));
                }
            }
            pixels.push(row);
            y = y + 1;
            proof {
                assert(3 * ((y - 1) as int) * (w as int) + 3 * (w as int) == 3 * (y as int) * (
                w as int)) by (nonlinear_arith);
            }
        }
        proof {
            assert(3 * (h as int) * (w as int) == 3 * (w as int) * (h as int))
                by (nonlinear_arith);
            assert(ppm_ok(sq));
        }
        let im = Image::from_mat(w, h, pixels);
        proof {
            assert forall|yy: int| 0 <= yy < h implies im.mat()[yy] == ppm_mat(sq)[yy] by {
                assert(im.mat()[yy] =~= ppm_mat(sq)[yy]);
            }
            assert(im.mat() =~= ppm_mat(sq));
        }
        Ok(im)
    }
}

impl Reader for PPMReader {
    fn read(&self, data: &Vec<u8>) -> (r: Result<Image, CodecError>) {
        self.decode(data)
    }
}

} // verus!
