use vstd::prelude::*;

verus! {

use vstd::arithmetic::div_mod::lemma_fundamental_div_mod;
use vstd::arithmetic::div_mod::lemma_fundamental_div_mod_converse;
use vstd::arithmetic::div_mod::lemma_mod_bound;

/// First column a pass touches.
pub open spec fn pass_x_start(p: int) -> int {
    if p == 0 {
        0
    } else if p == 1 {
        4
    } else if p == 2 {
        0
    } else if p == 3 {
        2
    } else if p == 4 {
        0
    } else if p == 5 {
        1
    } else {
        0
    }
}

/// First row a pass touches.
pub open spec fn pass_y_start(p: int) -> int {
    if p == 0 {
        0
    } else if p == 1 {
        0
    } else if p == 2 {
        4
    } else if p == 3 {
        0
    } else if p == 4 {
        2
    } else if p == 5 {
        0
    } else {
        1
    }
}

/// Column step of a pass.
pub open spec fn pass_x_step(p: int) -> int {
    if p == 0 {
        8
    } else if p == 1 {
        8
    } else if p == 2 {
        4
    } else if p == 3 {
        4
    } else if p == 4 {
        2
    } else if p == 5 {
        2
    } else {
        1
    }
}

/// Row step of a pass.
pub open spec fn pass_y_step(p: int) -> int {
    if p == 0 {
        8
    } else if p == 1 {
        8
    } else if p == 2 {
        8
    } else if p == 3 {
        4
    } else if p == 4 {
        4
    } else if p == 5 {
        2
    } else {
        2
    }
}

/// How many pixel columns a pass contributes to an image `w` wide.
pub open spec fn pass_width(p: int, w: int) -> int {
    if w > pass_x_start(p) {
        (w - pass_x_start(p) + pass_x_step(p) - 1) / pass_x_step(p)
    } else {
        0
    }
}

/// How many scanlines a pass contributes to an image `h` high.
pub open spec fn pass_height(p: int, h: int) -> int {
    if h > pass_y_start(p) {
        (h - pass_y_start(p) + pass_y_step(p) - 1) / pass_y_step(p)
    } else {
        0
    }
}

/// Pass `p` writes its sub-image pixel `(i, j)` to this output position.
pub open spec fn pass_produces(p: int, i: int, j: int, w: int, h: int, x: int, y: int) -> bool {
    &&& 0 <= p < 7
    &&& 0 <= i < pass_width(p, w)
    &&& 0 <= j < pass_height(p, h)
    &&& x == pass_x_start(p) + i * pass_x_step(p)
    &&& y == pass_y_start(p) + j * pass_y_step(p)
}

/// The pass that owns an output position, decided by the parities of its
/// coordinates.
pub open spec fn pass_of(x: int, y: int) -> int {
    if y % 2 == 1 {
        6
    } else if x % 2 == 1 {
        5
    } else if y % 4 == 2 {
        4
    } else if x % 4 == 2 {
        3
    } else if y % 8 == 4 {
        2
    } else if x % 8 == 4 {
        1
    } else {
        0
    }
}

/// The sub-image column of an output position within its pass.
pub open spec fn pass_col(x: int, y: int) -> int {
    (x - pass_x_start(pass_of(x, y))) / pass_x_step(pass_of(x, y))
}

/// The sub-image row of an output position within its pass.
pub open spec fn pass_row(x: int, y: int) -> int {
    (y - pass_y_start(pass_of(x, y))) / pass_y_step(pass_of(x, y))
}

/// Every position inside the image is produced by the seven passes: the one
/// named by `pass_of`, at sub-image coordinates `(pass_col, pass_row)`.
pub proof fn lemma_adam7_cover(w: int, h: int, x: int, y: int)
    requires
        0 <= x < w,
        0 <= y < h,
    ensures
        pass_produces(pass_of(x, y), pass_col(x, y), pass_row(x, y), w, h, x, y),
{
    let p = pass_of(x, y);
    let xs = pass_x_start(p);
    let xt = pass_x_step(p);
    let ys = pass_y_start(p);
    let yt = pass_y_step(p);
    assert(x % xt == xs % xt && y % yt == ys % yt);
    let i = (x - xs) / xt;
    let j = (y - ys) / yt;
    assert((x - xs) % xt == 0 && x - xs >= 0);
    assert((y - ys) % yt == 0 && y - ys >= 0);
    assert(x == xs + i * xt);
    assert(y == ys + j * yt);
    assert(i < pass_width(p, w));
    assert(j < pass_height(p, h));
}

/// A placement betrays its pass: the parities of the output position decide
/// which pass and which sub-image coordinates produced it.
pub proof fn lemma_pass_identify(p: int, i: int, j: int, w: int, h: int, x: int, y: int)
    requires
        pass_produces(p, i, j, w, h, x, y),
    ensures
        p == pass_of(x, y),
        i == pass_col(x, y),
        j == pass_row(x, y),
{
    if p == 0 {
        lemma_fundamental_div_mod_converse(x, 8, i, 0);
        lemma_fundamental_div_mod_converse(x, 4, 2 * i, 0);
        lemma_fundamental_div_mod_converse(x, 2, 4 * i, 0);
        lemma_fundamental_div_mod_converse(y, 8, j, 0);
        lemma_fundamental_div_mod_converse(y, 4, 2 * j, 0);
        lemma_fundamental_div_mod_converse(y, 2, 4 * j, 0);
    } else if p == 1 {
        lemma_fundamental_div_mod_converse(x, 8, i, 4);
        lemma_fundamental_div_mod_converse(x, 4, 2 * i + 1, 0);
        lemma_fundamental_div_mod_converse(x, 2, 4 * i + 2, 0);
        lemma_fundamental_div_mod_converse(y, 8, j, 0);
        lemma_fundamental_div_mod_converse(y, 4, 2 * j, 0);
        lemma_fundamental_div_mod_converse(y, 2, 4 * j, 0);
        lemma_fundamental_div_mod_converse(x - 4, 8, i, 0);
    } else if p == 2 {
        lemma_fundamental_div_mod_converse(x, 4, i, 0);
        lemma_fundamental_div_mod_converse(x, 2, 2 * i, 0);
        lemma_fundamental_div_mod_converse(y, 8, j, 4);
        lemma_fundamental_div_mod_converse(y, 4, 2 * j + 1, 0);
        lemma_fundamental_div_mod_converse(y, 2, 4 * j + 2, 0);
        lemma_fundamental_div_mod_converse(y - 4, 8, j, 0);
    } else if p == 3 {
        lemma_fundamental_div_mod_converse(x, 4, i, 2);
        lemma_fundamental_div_mod_converse(x, 2, 2 * i + 1, 0);
        lemma_fundamental_div_mod_converse(y, 4, j, 0);
        lemma_fundamental_div_mod_converse(y, 2, 2 * j, 0);
        lemma_fundamental_div_mod_converse(x - 2, 4, i, 0);
    } else if p == 4 {
        lemma_fundamental_div_mod_converse(x, 2, i, 0);
        lemma_fundamental_div_mod_converse(y, 4, j, 2);
        lemma_fundamental_div_mod_converse(y, 2, 2 * j + 1, 0);
        lemma_fundamental_div_mod_converse(y - 2, 4, j, 0);
    } else if p == 5 {
        lemma_fundamental_div_mod_converse(x, 2, i, 1);
        lemma_fundamental_div_mod_converse(y, 2, j, 0);
        lemma_fundamental_div_mod_converse(x - 1, 2, i, 0);
    } else {
        lemma_fundamental_div_mod_converse(y, 2, j, 1);
        lemma_fundamental_div_mod_converse(x, 1, i, 0);
        lemma_fundamental_div_mod_converse(y - 1, 2, j, 0);
    }
}

/// No position is produced twice: two pass placements that land on the same
/// output position are the same placement.
pub proof fn lemma_adam7_unique(
    w: int,
    h: int,
    x: int,
    y: int,
    p1: int,
    i1: int,
    j1: int,
    p2: int,
    i2: int,
    j2: int,
)
    requires
        pass_produces(p1, i1, j1, w, h, x, y),
        pass_produces(p2, i2, j2, w, h, x, y),
    ensures
        p1 == p2,
        i1 == i2,
        j1 == j2,
{
    lemma_pass_identify(p1, i1, j1, w, h, x, y);
    lemma_pass_identify(p2, i2, j2, w, h, x, y);
}

/// Rounding up a division can round down a shifted one instead:
/// `ceil(n / t)` computed without overflowing the numerator.
proof fn lemma_ceil_div(n: int, t: int)
    requires
        n >= 1,
        t >= 1,
    ensures
        (n + t - 1) / t == (n - 1) / t + 1,
{
    let q = (n - 1) / t;
    let r = (n - 1) % t;
    lemma_fundamental_div_mod(n - 1, t);
    lemma_mod_bound(n - 1, t);
    assert((q + 1) * t + r == t * q + t + r) by (nonlinear_arith);
    lemma_fundamental_div_mod_converse(n + t - 1, t, q + 1, r);
}

/// Executable table of the seven passes: start and step for each axis.
pub fn pass_params(p: usize) -> (r: (usize, usize, usize, usize))
    requires
        p < 7,
    ensures
        r.0 == pass_x_start(p as int),
        r.1 == pass_y_start(p as int),
        r.2 == pass_x_step(p as int),
        r.3 == pass_y_step(p as int),
{
    if p == 0 {
        (0, 0, 8, 8)
    } else if p == 1 {
        (4, 0, 8, 8)
    } else if p == 2 {
        (0, 4, 4, 8)
    } else if p == 3 {
        (2, 0, 4, 4)
    } else if p == 4 {
        (0, 2, 2, 4)
    } else if p == 5 {
        (1, 0, 2, 2)
    } else {
        (0, 1, 1, 2)
    }
}

/// The pass that owns an output position, computed from its parities.
pub fn pass_of_exec(x: usize, y: usize) -> (r: usize)
    ensures
        r == pass_of(x as int, y as int),
        r < 7,
{
    if y % 2 == 1 {
        6
    } else if x % 2 == 1 {
        5
    } else if y % 4 == 2 {
        4
    } else if x % 4 == 2 {
        3
    } else if y % 8 == 4 {
        2
    } else if x % 8 == 4 {
        1
    } else {
        0
    }
}

/// Sub-image width of a pass, computed without underflow.
pub fn pass_width_exec(p: usize, w: usize) -> (r: usize)
    requires
        p < 7,
    ensures
        r == pass_width(p as int, w as int),
{
    let (xs, _, xt, _) = pass_params(p);
    if w > xs {
        proof {
            lemma_ceil_div(w - xs, xt as int);
        }
        (w - xs - 1) / xt + 1
    } else {
        0
    }
}

/// Sub-image height of a pass, computed without underflow.
pub fn pass_height_exec(p: usize, h: usize) -> (r: usize)
    requires
        p < 7,
    ensures
        r == pass_height(p as int, h as int),
{
    let (_, ys, _, yt) = pass_params(p);
    if h > ys {
        proof {
            lemma_ceil_div(h - ys, yt as int);
        }
        (h - ys - 1) / yt + 1
    } else {
        0
    }
}

} // verus!
