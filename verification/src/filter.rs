use vstd::prelude::*;

verus! {

/// Addition of two sample bytes, modulo 256.
pub open spec fn wadd(x: u8, y: u8) -> u8 {
    if x + y > 255 {
        (x + y - 256) as u8
    } else {
        (x + y) as u8
    }
}

/// Subtraction of two sample bytes, modulo 256.
pub open spec fn wsub(x: u8, y: u8) -> u8 {
    if x - y < 0 {
        (x + 256 - y) as u8
    } else {
        (x - y) as u8
    }
}

/// The Paeth predictor: of the three neighbors `a` (left), `b` (above) and
/// `c` (upper left), the one closest to `a + b - c`, preferring `a`, then `b`.
pub open spec fn paeth_spec(a: u8, b: u8, c: u8) -> u8 {
    let p = a + b - c;
    let pa = if p - a >= 0 {
        p - a
    } else {
        a - p
    };
    let pb = if p - b >= 0 {
        p - b
    } else {
        b - p
    };
    let pc = if p - c >= 0 {
        p - c
    } else {
        c - p
    };
    if pa <= pb && pa <= pc {
        a
    } else if pb <= pc {
        b
    } else {
        c
    }
}

/// The byte `bpp` positions to the left in the same scanline, 0 at the left edge.
pub open spec fn left_of(cur: Seq<u8>, bpp: int, i: int) -> u8 {
    if i < bpp {
        0u8
    } else {
        cur[i - bpp]
    }
}

/// The byte directly above, 0 when there is no previous scanline.
pub open spec fn above_of(prev: Seq<u8>, i: int) -> u8 {
    if 0 <= i < prev.len() {
        prev[i]
    } else {
        0u8
    }
}

/// The byte above and `bpp` positions to the left, 0 at either edge.
pub open spec fn upper_left_of(prev: Seq<u8>, bpp: int, i: int) -> u8 {
    if i < bpp {
        0u8
    } else {
        above_of(prev, i - bpp)
    }
}

/// What filter type `ft` predicts for position `i`, given the raw bytes of
/// the current scanline so far (`cur`) and the raw previous scanline (`prev`,
/// empty when the scanline is the first of its pass).
pub open spec fn predictor(ft: u8, cur: Seq<u8>, prev: Seq<u8>, bpp: int, i: int) -> u8 {
    let a = left_of(cur, bpp, i);
    let b = above_of(prev, i);
    let c = upper_left_of(prev, bpp, i);
    if ft == 0 {
        0u8
    } else if ft == 1 {
        a
    } else if ft == 2 {
        b
    } else if ft == 3 {
        ((a + b) / 2) as u8
    } else {
        paeth_spec(a, b, c)
    }
}

/// Filtering a raw scanline `x`: each byte minus its prediction, modulo 256.
/// The prediction reads raw bytes of `x` itself.
pub open spec fn filter_spec(ft: u8, x: Seq<u8>, prev: Seq<u8>, bpp: int) -> Seq<u8> {
    Seq::new(x.len(), |i: int| wsub(x[i], predictor(ft, x, prev, bpp, i)))
}

/// Unfiltering a filtered scanline `s`: each byte plus its prediction, modulo
/// 256. The prediction reads the bytes already unfiltered.
pub open spec fn unfilter_spec(ft: u8, s: Seq<u8>, prev: Seq<u8>, bpp: int) -> Seq<u8>
    decreases s.len(),
{
    if s.len() == 0 {
        Seq::empty()
    } else {
        let r = unfilter_spec(ft, s.drop_last(), prev, bpp);
        r.push(wadd(s.last(), predictor(ft, r, prev, bpp, s.len() - 1)))
    }
}

/// Unfiltering keeps the length of the scanline.
pub proof fn lemma_unfilter_len(ft: u8, s: Seq<u8>, prev: Seq<u8>, bpp: int)
    ensures
        unfilter_spec(ft, s, prev, bpp).len() == s.len(),
    decreases s.len(),
{
    if s.len() > 0 {
        lemma_unfilter_len(ft, s.drop_last(), prev, bpp);
    }
}

/// The predictor only reads positions left of `i`, so it cannot tell a
/// scanline from its prefix.
proof fn lemma_predictor_prefix(ft: u8, cur1: Seq<u8>, cur2: Seq<u8>, prev: Seq<u8>, bpp: int, i: int)
    requires
        bpp >= 1,
        0 <= i,
        forall|j: int| 0 <= j < i && j < cur1.len() && j < cur2.len() ==> cur1[j] == cur2[j],
        i <= cur1.len(),
        i <= cur2.len(),
    ensures
        predictor(ft, cur1, prev, bpp, i) == predictor(ft, cur2, prev, bpp, i),
{
}

/// Undoing a filter restores the raw scanline: for every filter type and
/// pixel width, `unfilter` after `filter` over the same previous scanline is
/// the identity.
pub proof fn lemma_filter_roundtrip(ft: u8, x: Seq<u8>, prev: Seq<u8>, bpp: int)
    requires
        ft <= 4,
        bpp >= 1,
    ensures
        unfilter_spec(ft, filter_spec(ft, x, prev, bpp), prev, bpp) == x,
    decreases x.len(),
{
    let f = filter_spec(ft, x, prev, bpp);
    if x.len() == 0 {
        assert(unfilter_spec(ft, f, prev, bpp) =~= x);
    } else {
        let i = x.len() - 1;
        let x0 = x.drop_last();
        assert(f.drop_last() =~= filter_spec(ft, x0, prev, bpp));
        lemma_filter_roundtrip(ft, x0, prev, bpp);
        let r = unfilter_spec(ft, f.drop_last(), prev, bpp);
        assert(r == x0);
        lemma_predictor_prefix(ft, r, x, prev, bpp, i);
        assert(wadd(wsub(x[i], predictor(ft, x, prev, bpp, i)), predictor(ft, x, prev, bpp, i))
            == x[i]);
        assert(unfilter_spec(ft, f, prev, bpp) =~= x);
    }
}

/// Computes the Paeth predictor over machine integers.
pub fn paeth(a: u8, b: u8, c: u8) -> (r: u8)
    ensures
        r == paeth_spec(a, b, c),
{
    let p = a as i16 + b as i16 - c as i16;
    let pa = if p - (a as i16) >= 0 {
        p - (a as i16)
    } else {
        (a as i16) - p
    };
    let pb = if p - (b as i16) >= 0 {
        p - (b as i16)
    } else {
        (b as i16) - p
    };
    let pc = if p - (c as i16) >= 0 {
        p - (c as i16)
    } else {
        (c as i16) - p
    };
    if pa <= pb && pa <= pc {
        a
    } else if pb <= pc {
        b
    } else {
        c
    }
}

/// A previous scanline of zeroes predicts exactly as no previous scanline:
/// the first scanline of a pass may be filtered against either.
pub proof fn lemma_filter_zero_prev(ft: u8, x: Seq<u8>, zs: Seq<u8>, bpp: int)
    requires
        zs.len() == x.len(),
        forall|i: int| 0 <= i < zs.len() ==> zs[i] == 0u8,
    ensures
        filter_spec(ft, x, zs, bpp) == filter_spec(ft, x, Seq::empty(), bpp),
{
    assert forall|i: int| 0 <= i < x.len() implies filter_spec(ft, x, zs, bpp)[i] == filter_spec(
        ft,
        x,
        Seq::empty(),
        bpp,
    )[i] by {
        assert(above_of(zs, i) == above_of(Seq::empty(), i));
        assert(upper_left_of(zs, bpp, i) == upper_left_of(Seq::empty(), bpp, i));
    }
    assert(filter_spec(ft, x, zs, bpp) =~= filter_spec(ft, x, Seq::empty(), bpp));
}

/// On three equal neighbors the Paeth predictor returns that value.
pub proof fn lemma_paeth_equal(x: u8)
    ensures
        paeth_spec(x, x, x) == x,
{
}

} // verus!
