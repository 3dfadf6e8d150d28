//! Detection: the sides of the detector's input, and its planes.

use crate::float::bounds;
use crate::float::model;
use crate::float::model::{Format, Val};
use crate::float::{F32, F64};
use crate::levels;
use crate::levels::{fill_image, Levels, Network};
use crate::resize;
use crate::resize::ImageRgb;
use vstd::prelude::*;

verus! {

/// Shortest side of the detector's input, unless another is asked for.
pub const LIMIT_SIDE_LEN: i64 = 736;

/// Longest side of the detector's input where none is asked for.
pub const MAX_SIDE_LIMIT: i64 = 4000;

/// Longest side of the detector's input by default.
pub const DEFAULT_DET_MAX_SIDE: i64 = 1600;

/// An integer as a double.
pub open spec fn num(n: int) -> Val {
    model::nearest(Format::Double, n as real)
}

/// A double as a 64-bit integer.
pub open spec fn whole(v: Val) -> int {
    model::to_int(v, i64::MIN as int, i64::MAX as int)
}

pub open spec fn least(a: int, b: int) -> int {
    if a < b {
        a
    } else {
        b
    }
}

pub open spec fn most(a: int, b: int) -> int {
    if a > b {
        a
    } else {
        b
    }
}

pub open spec fn clamped(n: int, lo: int, hi: int) -> int {
    if n < lo {
        lo
    } else if n > hi {
        hi
    } else {
        n
    }
}

/// A length scaled by a ratio, in doubles, without its fraction.
pub open spec fn scaled_len(n: int, ratio: Val) -> int {
    whole(num(n).times(ratio, Format::Double))
}

/// The ratio that brings the shorter side up to `min_side`.
pub open spec fn growth(w: int, h: int, min_side: int) -> Val {
    if least(w, h) < min_side {
        num(min_side).over(num(least(w, h)), Format::Double)
    } else {
        Val::Fin(1real)
    }
}

/// The ratio that brings the longer side down to `max_side`.
pub open spec fn shrinkage(w: int, h: int, max_side: int) -> Val {
    num(max_side).over(num(most(w, h)), Format::Double)
}

/// A length brought to the nearest multiple of 32, at least 32 and at most the
/// greatest that `max_side` admits.
pub open spec fn on_grid(n: int, max_side: int) -> int {
    let steps = whole(num(n).over(Val::Fin(32real), Format::Double).rounded());
    clamped(steps * 32, 32, most(max_side / 32, 1) * 32)
}

/// The sides of the detector's input for an image of `w` by `h` pixels.
pub open spec fn det_dims(w: int, h: int, max_side: int, min_side: int) -> (int, int) {
    let grown_w = scaled_len(w, growth(w, h, min_side));
    let grown_h = scaled_len(h, growth(w, h, min_side));
    if most(grown_w, grown_h) > max_side {
        let ratio = shrinkage(grown_w, grown_h, max_side);
        (
            on_grid(scaled_len(grown_w, ratio), max_side),
            on_grid(scaled_len(grown_h, ratio), max_side),
        )
    } else {
        (on_grid(grown_w, max_side), on_grid(grown_h, max_side))
    }
}

fn scale(n: i64, ratio: F64) -> (r: i64)
    ensures
        r == scaled_len(n as int, ratio@),
{
    F64::from_i64(n).times(ratio).to_i64()
}

fn to_grid(n: i64, max_side: i64) -> (r: usize)
    ensures
        r == on_grid(n as int, max_side as int) as usize,
{
    let steps: i64 = F64::from_i64(n).over(F64::from_u16(32)).rounded().to_i64();
    let len: i128 = (steps as i128) * 32;
    let blocks: i64 = if max_side >= 64 {
        max_side / 32
    } else {
        1
    };
    let cap: i128 = (blocks as i128) * 32;
    if len < 32 {
        32
    } else if len > cap {
        cap as usize
    } else {
        len as usize
    }
}

/// The sides of the detector's input for an image of `w` by `h` pixels: the
/// shorter side at least `min_side`, unless that is zero, the longer one at
/// most `max_side`, both multiples of 32.
pub fn det_resize_dims_with_min(w: usize, h: usize, max_side: i64, min_side: i64) -> (r: (
    usize,
    usize,
))
    ensures
        ({
            let dims = det_dims(
                (w as i64) as int,
                (h as i64) as int,
                max_side as int,
                min_side as int,
            );
            r == (dims.0 as usize, dims.1 as usize)
        }),
{
    let w: i64 = #[verifier::truncate] (w as i64);
    let h: i64 = #[verifier::truncate] (h as i64);
    let short: i64 = if w < h {
        w
    } else {
        h
    };
    let ratio: F64 = if short < min_side {
        F64::from_i64(min_side).over(F64::from_i64(short))
    } else {
        F64::from_u16(1)
    };
    let rh: i64 = scale(h, ratio);
    let rw: i64 = scale(w, ratio);
    let long: i64 = if rw > rh {
        rw
    } else {
        rh
    };
    if long > max_side {
        let ratio: F64 = F64::from_i64(max_side).over(F64::from_i64(long));
        (to_grid(scale(rw, ratio), max_side), to_grid(scale(rh, ratio), max_side))
    } else {
        (to_grid(rw, max_side), to_grid(rh, max_side))
    }
}

/// The sides of the detector's input with the usual least side.
pub fn det_resize_dims(w: usize, h: usize, max_side: i64) -> (r: (usize, usize))
    ensures
        ({
            let dims = det_dims(
                (w as i64) as int,
                (h as i64) as int,
                max_side as int,
                LIMIT_SIDE_LEN as int,
            );
            r == (dims.0 as usize, dims.1 as usize)
        }),
{
    det_resize_dims_with_min(w, h, max_side, LIMIT_SIDE_LEN)
}

/// Fills `input` with the detector's planes of an image resized to `rw` by `rh`.
/// What `input` held before does not matter.
pub fn det_input(img: &ImageRgb, rw: usize, rh: usize, levels: &Levels, input: &mut Vec<F32>)
    requires
        img.wf(),
        img.w > 0,
        img.h > 0,
        rw > 0,
        levels.wf(),
        levels.net == Network::Detector,
        3 * rh * rw <= usize::MAX,
    ensures
        final(input)@.len() == 3 * rh * rw,
        levels::holds_image(
            final(input)@,
            0,
            img,
            rw as int,
            rh as int,
            rw as int,
            Network::Detector,
        ),
{
    proof {
        assert(3 * rh <= 3 * rh * rw) by (nonlinear_arith)
            requires
                rw > 0,
                rh >= 0,
        ;
    }
    input.resize(3 * rh * rw, F32::from_u16(0));
    fill_image(img, rw, rh, rw, input, 0, levels);
}

// ---- laws ----

/// The sides of the detector's input are multiples of 32, at least 32, and at most
/// `max_side` where that is 32 or more.
pub proof fn law_sides_are_on_the_grid(w: int, h: int, max_side: int, min_side: int)
    requires
        max_side >= 32,
    ensures
        ({
            let dims = det_dims(w, h, max_side, min_side);
            &&& dims.0 % 32 == 0 && 32 <= dims.0 <= max_side
            &&& dims.1 % 32 == 0 && 32 <= dims.1 <= max_side
        }),
{
    assert forall|n: int| #[trigger]
        on_grid(n, max_side) % 32 == 0 && 32 <= on_grid(n, max_side) <= max_side by {
        lemma_on_grid(n, max_side);
    }
}

proof fn lemma_on_grid(n: int, max_side: int)
    requires
        max_side >= 32,
    ensures
        on_grid(n, max_side) % 32 == 0,
        32 <= on_grid(n, max_side) <= max_side,
{
}

proof fn lemma_scaled_by_one(n: int)
    requires
        0 <= n < 0x20_0000_0000_0000,
    ensures
        scaled_len(n, Val::Fin(1real)) == n,
{
    let x = n as real;
    bounds::lemma_whole(Format::Double, n);
    assert(x * 1real == x);
    bounds::lemma_product(Format::Double, x, 1real, x);
    assert(x.floor() == n);
}

proof fn lemma_steps(n: int)
    requires
        0 <= n < 0x20_0000_0000_0000,
    ensures
        whole(num(n).over(Val::Fin(32real), Format::Double).rounded()) == (n + 16) / 32,
{
    let f = Format::Double;
    let x = n as real / 32real;
    bounds::lemma_whole(f, n);
    bounds::lemma_exact(f, n, -5);
    assert(model::two_pow(0) == 1real);
    assert(model::two_pow(-1) == 1real / 2real);
    assert(model::two_pow(-2) == 1real / 4real);
    assert(model::two_pow(-3) == 1real / 8real);
    assert(model::two_pow(-4) == 1real / 16real);
    assert(model::two_pow(-5) == 1real / 32real);
    assert(n as real * model::two_pow(-5) == x);
    bounds::lemma_quotient(f, n as real, 32real, x);
    let q = (n + 16) / 32;
    let y = x + 1real / 2real;
    assert(y == (n + 16) as real / 32real);
    assert(32 * q <= n + 16 < 32 * q + 32);
    assert((32 * q) as real <= (n + 16) as real && ((n + 16) as real) < (32 * q + 32) as real);
    assert(y.floor() == q);
    let z = q as real;
    assert(z.floor() == q);
}

/// An image whose sides are within the limits is not scaled: each side goes to the
/// nearest multiple of 32. A least side of zero is always kept.
pub proof fn law_fitting_image_is_not_scaled(w: int, h: int, max_side: int, min_side: int)
    requires
        0 <= w <= max_side,
        0 <= h <= max_side,
        max_side < 0x20_0000_0000_0000,
        min_side <= least(w, h),
    ensures
        det_dims(w, h, max_side, min_side) == (
            clamped((w + 16) / 32 * 32, 32, most(max_side / 32, 1) * 32),
            clamped((h + 16) / 32 * 32, 32, most(max_side / 32, 1) * 32),
        ),
{
    lemma_scaled_by_one(w);
    lemma_scaled_by_one(h);
    lemma_steps(w);
    lemma_steps(h);
}

/// Growing a side to `m` brings it to `m`, or one short of it.
proof fn lemma_grown(n: int, m: int)
    requires
        0 < n < m < 0x100_0000_0000,
    ensures
        ({
            let g = scaled_len(n, num(m).over(num(n), Format::Double));
            g == m || g == m - 1
        }),
{
    let f = Format::Double;
    let (nr, mr) = (n as real, m as real);
    let big = 0x20_0000_0000_0000int as real;
    let huge = 0x1_0000_0000_0000_0000_0000_0000_0000_0000int as real;
    bounds::lemma_whole(f, n);
    bounds::lemma_whole(f, m);
    let x = mr / nr;
    assert(0real <= x <= mr && nr * x == mr) by (nonlinear_arith)
        requires
            x == mr / nr,
            nr >= 1real,
            mr >= 0real,
    ;
    let r = bounds::lemma_double_error(x);
    let e = x / big + 1real / huge;
    let y = nr * r;
    assert(mr - 1real / 8real <= y <= mr + 1real / 8real && nr * e <= 1real / 8real)
        by (nonlinear_arith)
        requires
            y == nr * r,
            nr * x == mr,
            x - e <= r <= x + e,
            e == x / big + 1real / huge,
            big == 0x20_0000_0000_0000int as real,
            huge == 0x1_0000_0000_0000_0000_0000_0000_0000_0000int as real,
            0real <= nr <= 0x100_0000_0000int as real,
            0real <= mr <= 0x100_0000_0000int as real,
    ;
    let z = bounds::lemma_double_error(y);
    assert(y / big <= 1real / 8real) by (nonlinear_arith)
        requires
            y <= 0x100_0000_0000int as real + 1real,
            big == 0x20_0000_0000_0000int as real,
    ;
    assert(mr - 1real / 2real <= z <= mr + 1real / 2real);
    assert(z.floor() == m || z.floor() == m - 1);
    assert(num(m).over(num(n), f) == Val::Fin(r));
    assert(num(n).times(Val::Fin(r), f) == Val::Fin(z));
}

/// Growing a side by the ratio of `m` to `n` keeps it within `top` where the exact
/// product does.
proof fn lemma_grown_within(len: int, n: int, m: int, top: int)
    requires
        0 < n <= len < 0x100_0000_0000,
        0 < m < 0x100_0000_0000,
        0 <= top < 0x100_0000_0000,
        len * m <= top * n,
    ensures
        scaled_len(len, num(m).over(num(n), Format::Double)) <= top,
{
    let f = Format::Double;
    let (nr, mr, lr, tr) = (n as real, m as real, len as real, top as real);
    let big = 0x20_0000_0000_0000int as real;
    let huge = 0x1_0000_0000_0000_0000_0000_0000_0000_0000int as real;
    let cap = 0x100_0000_0000int as real;
    bounds::lemma_whole(f, n);
    bounds::lemma_whole(f, m);
    bounds::lemma_whole(f, len);
    let x = mr / nr;
    assert(0real <= x <= mr && nr * x == mr) by (nonlinear_arith)
        requires
            x == mr / nr,
            nr >= 1real,
            mr >= 0real,
    ;
    model::lemma_real_mul(len, m);
    model::lemma_real_mul(top, n);
    let g = lr * x;
    assert(0real <= g <= tr) by (nonlinear_arith)
        requires
            g == lr * x,
            nr * x == mr,
            lr * mr <= tr * nr,
            nr > 0real,
            lr >= 0real,
            x >= 0real,
    ;
    let r = bounds::lemma_double_error(x);
    let d = r - x;
    let y = lr * r;
    assert(y == g + lr * d) by (nonlinear_arith)
        requires
            y == lr * r,
            g == lr * x,
            d == r - x,
    ;
    assert(lr * d <= g / big + lr / huge) by (nonlinear_arith)
        requires
            d <= x / big + 1real / huge,
            g == lr * x,
            lr >= 0real,
            big == 0x20_0000_0000_0000int as real,
            huge == 0x1_0000_0000_0000_0000_0000_0000_0000_0000int as real,
    ;
    assert(y >= 0real) by (nonlinear_arith)
        requires
            y == lr * r,
            lr >= 0real,
            r >= 0real,
    ;
    assert(g / big <= 1real / 8real && lr / huge <= 1real / 8real);
    assert(y <= tr + 1real / 4real);
    let z = bounds::lemma_double_error(y);
    assert(z <= tr + 1real / 2real);
    assert(z.floor() <= top);
    assert(num(m).over(num(n), f) == Val::Fin(r));
    assert(num(len).times(Val::Fin(r), f) == Val::Fin(z));
}

/// A shorter side below the least side is brought up to it, where that is a
/// multiple of 32 and the longer side, grown by the same ratio, keeps to the limit.
/// Sides and limit are below 2^40, so that rounding does not reach a pixel.
pub proof fn law_short_side_is_brought_up(w: int, h: int, max_side: int, min_side: int)
    requires
        0 < least(w, h) < min_side,
        min_side % 32 == 0,
        most(w, h) * min_side <= max_side * least(w, h),
        most(w, h) < 0x100_0000_0000,
        max_side < 0x100_0000_0000,
    ensures
        w <= h ==> det_dims(w, h, max_side, min_side).0 == min_side,
        h <= w ==> det_dims(w, h, max_side, min_side).1 == min_side,
{
    let (n, len) = (least(w, h), most(w, h));
    assert(min_side <= max_side) by (nonlinear_arith)
        requires
            0 < n <= len,
            0 < min_side,
            len * min_side <= max_side * n,
    ;
    lemma_grown(n, min_side);
    lemma_grown_within(len, n, min_side, max_side);
    let g = scaled_len(n, growth(w, h, min_side));
    lemma_steps(g);
    assert((g + 16) / 32 * 32 == min_side);
    assert(on_grid(g, max_side) == min_side);
}

/// `r` is `n * a / b` without its fraction, but for what is lost in rounding.
pub open spec fn is_scaled_by(r: int, n: int, a: int, b: int) -> bool {
    n as real * a as real / b as real - 1real - 1real / 1000real < r as real && r as real <= n as real
        * a as real / b as real + 1real / 1000real
}

proof fn lemma_scaled_len(n: int, a: int, b: int)
    requires
        0 <= n < 0x100_0000_0000,
        0 <= a < 0x100_0000_0000,
        0 < b < 0x100_0000_0000,
        n * a <= 0x100_0000_0000 * b,
    ensures
        is_scaled_by(scaled_len(n, num(a).over(num(b), Format::Double)), n, a, b),
        scaled_len(n, num(a).over(num(b), Format::Double)) >= 0,
{
    let f = Format::Double;
    let (nr, ar, br) = (n as real, a as real, b as real);
    let big = 0x20_0000_0000_0000int as real;
    let huge = 0x1_0000_0000_0000_0000_0000_0000_0000_0000int as real;
    let cap = 0x100_0000_0000int as real;
    bounds::lemma_whole(f, n);
    bounds::lemma_whole(f, a);
    bounds::lemma_whole(f, b);
    let x = ar / br;
    assert(0real <= x <= ar && br * x == ar) by (nonlinear_arith)
        requires
            x == ar / br,
            br >= 1real,
            ar >= 0real,
    ;
    model::lemma_real_mul(n, a);
    model::lemma_real_mul(0x100_0000_0000, b);
    let g = nr * x;
    assert(0real <= g <= cap) by (nonlinear_arith)
        requires
            g == nr * x,
            br * x == ar,
            nr * ar <= cap * br,
            br > 0real,
            nr >= 0real,
            x >= 0real,
    ;
    assert(g == nr * ar / br) by (nonlinear_arith)
        requires
            g == nr * x,
            x == ar / br,
            br > 0real,
    ;
    let r = bounds::lemma_double_error(x);
    let d = r - x;
    let y = nr * r;
    let e = x / big + 1real / huge;
    assert(y == g + nr * d && nr * e == g / big + nr / huge) by (nonlinear_arith)
        requires
            y == nr * r,
            g == nr * x,
            d == r - x,
            e == x / big + 1real / huge,
            big == 0x20_0000_0000_0000int as real,
            huge == 0x1_0000_0000_0000_0000_0000_0000_0000_0000int as real,
    ;
    assert(-(nr * e) <= nr * d <= nr * e && y >= 0real) by (nonlinear_arith)
        requires
            -e <= d <= e,
            nr >= 0real,
            y == nr * r,
            r >= 0real,
    ;
    let z = bounds::lemma_double_error(y);
    assert(g - 1real / 1000real <= z <= g + 1real / 1000real);
    assert(num(a).over(num(b), f) == Val::Fin(r));
    assert(num(n).times(Val::Fin(r), f) == Val::Fin(z));
    assert(0 <= z.floor() <= 0x100_0000_0001);
}

/// `r` is the multiple of 32 nearest to `n`, but at least 32 and at most the greatest
/// one that `max_side` admits.
pub open spec fn is_on_grid(r: int, n: int, max_side: int) -> bool {
    let cap = if max_side >= 64 {
        max_side - max_side % 32
    } else {
        32
    };
    &&& r % 32 == 0
    &&& 32 <= r <= cap
    &&& r > 32 ==> r - 16 <= n
    &&& r < cap ==> n < r + 16
}

proof fn lemma_is_on_grid(n: int, max_side: int)
    requires
        0 <= n < 0x20_0000_0000_0000,
        0 <= max_side,
    ensures
        is_on_grid(on_grid(n, max_side), n, max_side),
{
    lemma_steps(n);
}

/// The sides of an image after each of the steps that lead to the detector's input.
pub ghost struct Sides {
    /// Grown, the shorter one to the least side.
    pub grown: (int, int),
    /// Shrunk, the longer one to the greatest side.
    pub shrunk: (int, int),
}

/// The sides `r` come of an image of `w` by `h` pixels by these steps.
pub open spec fn are_steps(
    s: Sides,
    w: int,
    h: int,
    max_side: int,
    min_side: int,
    r: (int, int),
) -> bool {
    &&& w >= min_side && h >= min_side ==> s.grown == (w, h)
    &&& w < min_side && w <= h ==> is_scaled_by(s.grown.0, w, min_side, w) && is_scaled_by(
        s.grown.1,
        h,
        min_side,
        w,
    )
    &&& h < min_side && h <= w ==> is_scaled_by(s.grown.0, w, min_side, h) && is_scaled_by(
        s.grown.1,
        h,
        min_side,
        h,
    )
    &&& s.grown.0 <= max_side && s.grown.1 <= max_side ==> s.shrunk == s.grown
    &&& s.grown.0 > max_side && s.grown.0 >= s.grown.1 ==> is_scaled_by(
        s.shrunk.0,
        s.grown.0,
        max_side,
        s.grown.0,
    ) && is_scaled_by(s.shrunk.1, s.grown.1, max_side, s.grown.0)
    &&& s.grown.1 > max_side && s.grown.1 >= s.grown.0 ==> is_scaled_by(
        s.shrunk.0,
        s.grown.0,
        max_side,
        s.grown.1,
    ) && is_scaled_by(s.shrunk.1, s.grown.1, max_side, s.grown.1)
    &&& is_on_grid(r.0, s.shrunk.0, max_side)
    &&& is_on_grid(r.1, s.shrunk.1, max_side)
}

proof fn lemma_steps_of(w: int, h: int, max_side: int, min_side: int) -> (s: Sides)
    requires
        0 < w < 0x10_0000,
        0 < h < 0x10_0000,
        0 < max_side < 0x10_0000,
        0 <= min_side < 0x10_0000,
    ensures
        are_steps(s, w, h, max_side, min_side, det_dims(w, h, max_side, min_side)),
{
    let ratio = growth(w, h, min_side);
    let grown = (scaled_len(w, ratio), scaled_len(h, ratio));
    if least(w, h) < min_side {
        lemma_grown_side(w, least(w, h), min_side);
        lemma_grown_side(h, least(w, h), min_side);
    } else {
        lemma_scaled_by_one(w);
        lemma_scaled_by_one(h);
    }
    let long = most(grown.0, grown.1);
    let shrunk = if long > max_side {
        let less = shrinkage(grown.0, grown.1, max_side);
        (scaled_len(grown.0, less), scaled_len(grown.1, less))
    } else {
        grown
    };
    if long > max_side {
        lemma_shrunk_side(grown.0, long, max_side);
        lemma_shrunk_side(grown.1, long, max_side);
    }
    lemma_is_on_grid(shrunk.0, max_side);
    lemma_is_on_grid(shrunk.1, max_side);
    Sides { grown, shrunk }
}

/// The detector's input has the proportions of the image: both sides are grown by one
/// ratio, where the shorter one is below `min_side` the one that brings it there;
/// then both are shrunk by one ratio, where the longer one is above `max_side` the
/// one that brings it there; then each goes to the nearest multiple of 32 that
/// `max_side` admits.
pub proof fn law_sides_keep_their_proportions(
    w: usize,
    h: usize,
    max_side: i64,
    min_side: i64,
    r: (usize, usize),
) -> (s: Sides)
    requires
        call_ensures(det_resize_dims_with_min, (w, h, max_side, min_side), r),
        0 < w < 0x10_0000,
        0 < h < 0x10_0000,
        0 < max_side < 0x10_0000,
        0 <= min_side < 0x10_0000,
    ensures
        are_steps(
            s,
            w as int,
            h as int,
            max_side as int,
            min_side as int,
            (r.0 as int, r.1 as int),
        ),
{
    assert((w as i64) as int == w && (h as i64) as int == h);
    lemma_steps_of(w as int, h as int, max_side as int, min_side as int)
}

/// Where no least side is asked for, it is 736.
pub proof fn law_usual_least_side(w: usize, h: usize, max_side: i64, r: (usize, usize)) -> (s:
    Sides)
    requires
        call_ensures(det_resize_dims, (w, h, max_side), r),
        0 < w < 0x10_0000,
        0 < h < 0x10_0000,
        0 < max_side < 0x10_0000,
    ensures
        are_steps(s, w as int, h as int, max_side as int, 736, (r.0 as int, r.1 as int)),
{
    assert((w as i64) as int == w && (h as i64) as int == h);
    lemma_steps_of(w as int, h as int, max_side as int, 736)
}

proof fn lemma_grown_side(n: int, short: int, low: int)
    requires
        0 < n < 0x10_0000,
        0 < short <= n,
        0 <= low < 0x10_0000,
    ensures
        is_scaled_by(scaled_len(n, num(low).over(num(short), Format::Double)), n, low, short),
        0 <= scaled_len(n, num(low).over(num(short), Format::Double)) < 0x100_0000_0000,
{
    assert(n * low <= 0xff_ffe0_0001 && 0xff_ffe0_0001 <= 0x100_0000_0000 * short) by (nonlinear_arith)
        requires
            0 < n <= 0xf_ffff,
            0 <= low <= 0xf_ffff,
            short >= 1,
    ;
    lemma_scaled_len(n, low, short);
    let (nr, lr, sr) = (n as real, low as real, short as real);
    let exact = nr * lr / sr;
    model::lemma_real_mul(n, low);
    assert(exact <= nr * lr) by (nonlinear_arith)
        requires
            exact == nr * lr / sr,
            sr >= 1real,
            nr >= 0real,
            lr >= 0real,
    ;
}

proof fn lemma_shrunk_side(n: int, long: int, top: int)
    requires
        0 <= n <= long < 0x100_0000_0000,
        0 < top < 0x10_0000,
        top < long,
    ensures
        is_scaled_by(scaled_len(n, num(top).over(num(long), Format::Double)), n, top, long),
        0 <= scaled_len(n, num(top).over(num(long), Format::Double)) < 0x20_0000_0000_0000,
{
    assert(n * top <= 0x100_0000_0000 * long) by (nonlinear_arith)
        requires
            0 <= n <= long,
            0 < top < 0x10_0000,
    ;
    lemma_scaled_len(n, top, long);
    let (nr, tr, lr) = (n as real, top as real, long as real);
    let exact = nr * tr / lr;
    assert(exact <= tr) by (nonlinear_arith)
        requires
            exact == nr * tr / lr,
            lr >= 1real,
            0real <= nr <= lr,
            tr >= 0real,
    ;
}

/// Number `(c * rh + y) * rw + x` of the detector's input is column `x` of row `y` of
/// plane `c`: channel `2 - c` of the image, read bilinearly at the new sides, in the
/// detector's numbers.
pub proof fn law_detector_input_is_the_image(
    input: Seq<F32>,
    img: &ImageRgb,
    rw: int,
    rh: int,
    c: int,
    y: int,
    x: int,
)
    requires
        levels::holds_image(input, 0, img, rw, rh, rw, Network::Detector),
        0 < img.w <= 0x1_0000,
        0 < img.h <= 0x1_0000,
        0 <= x < rw <= 0x1_0000,
        0 <= y < rh <= 0x1_0000,
        0 <= c < 3,
    ensures
        levels::is_sample(
            Network::Detector,
            input[(c * rh + y) * rw + x]@,
            resize::bilinear(
                img.data@,
                img.w as int,
                img.h as int,
                rw,
                rh,
                x,
                y,
                2 - c,
            ),
            resize::slack(img.w as int, img.h as int),
            c,
        ),
{
    let (w, h) = (img.w as int, img.h as int);
    let byte = resize::resampled(img.data@, w, h, rw, rh, x, y, 2 - c);
    assert(input[0 + levels::at_cell(c, y, x, rh, rw)]@ == Network::Detector.level(byte, c));
    resize::law_resampled_is_bilinear(img.data@, w, h, rw, rh, x, y, 2 - c);
    levels::lemma_is_sample(
        Network::Detector,
        byte,
        resize::bilinear(img.data@, w, h, rw, rh, x, y, 2 - c),
        resize::slack(w, h),
        c,
    );
}

} // verus!
