//! Bilinear resizing of images, to bytes and to the planes of a tensor.

use crate::float::bounds;
use crate::float::model;
use crate::float::model::{Format, Val};
use crate::float::F32;
use vstd::prelude::*;
use vstd::slice::*;

verus! {

/// An image of interleaved red, green and blue bytes, row by row. The networks
/// take blue, green and red planes: plane `c` of a tensor holds channel `2 - c`.
pub struct ImageRgb {
    pub w: usize,
    pub h: usize,
    pub data: Vec<u8>,
}

impl ImageRgb {
    /// The bytes are those of `w` by `h` pixels.
    pub open spec fn wf(&self) -> bool {
        self.data@.len() == self.w * self.h * 3
    }
}

/// An integer as a single.
pub open spec fn single(n: int) -> Val {
    model::nearest(Format::Single, n as real)
}

/// One half.
pub open spec fn half() -> Val {
    Val::Fin(1real / 2real)
}

/// Where the centre of cell `i` of `m` falls among `n` cells, from the centre
/// of the first cell on.
#[verifier::opaque]
pub open spec fn position(n: int, m: int, i: int) -> Val {
    let scale = single(n).over(single(m), Format::Single);
    single(i).plus(half(), Format::Single).times(scale, Format::Single).minus(
        half(),
        Format::Single,
    ).larger(Val::Fin(0real))
}

/// The cell at or before that position.
pub open spec fn tap(n: int, m: int, i: int) -> int {
    let at = model::to_int(position(n, m, i).floored(), 0, usize::MAX as int);
    if at < n - 1 {
        at
    } else {
        n - 1
    }
}

/// The cell after `at`, which is itself at the end.
pub open spec fn next_tap(n: int, at: int) -> int {
    if at + 1 < n - 1 {
        at + 1
    } else {
        n - 1
    }
}

/// How far that position is past a cell's centre.
pub open spec fn share(n: int, m: int, i: int) -> Val {
    let at = position(n, m, i);
    at.minus(at.floored(), Format::Single)
}

/// `a` and `b` mixed, `t` parts of `b`.
pub open spec fn mixed(a: Val, b: Val, t: Val) -> Val {
    let one = Val::Fin(1real);
    a.times(one.minus(t, Format::Single), Format::Single).plus(
        b.times(t, Format::Single),
        Format::Single,
    )
}

pub open spec fn byte_val(b: u8) -> Val {
    Val::Fin(b as real)
}

/// Four bytes mixed sideways, then downwards, and rounded to a byte.
pub open spec fn blended(a: u8, b: u8, c: u8, d: u8, tx: Val, ty: Val) -> u8 {
    let top = mixed(byte_val(a), byte_val(b), tx);
    let bottom = mixed(byte_val(c), byte_val(d), tx);
    model::to_int(mixed(top, bottom, ty).plus(half(), Format::Single), 0, 255) as u8
}

/// Channel `c` of the pixel in column `x` and row `y`.
pub open spec fn channel(data: Seq<u8>, w: int, x: int, y: int, c: int) -> u8 {
    data[(y * w + x) * 3 + c]
}

/// Channel `c` of the pixel in column `x` and row `y` of the image resized from
/// `sw` by `sh` to `dw` by `dh`.
#[verifier::opaque]
pub open spec fn resampled(
    data: Seq<u8>,
    sw: int,
    sh: int,
    dw: int,
    dh: int,
    x: int,
    y: int,
    c: int,
) -> u8 {
    let (x0, y0) = (tap(sw, dw, x), tap(sh, dh, y));
    let (x1, y1) = (next_tap(sw, x0), next_tap(sh, y0));
    blended(
        channel(data, sw, x0, y0, c),
        channel(data, sw, x1, y0, c),
        channel(data, sw, x0, y1, c),
        channel(data, sw, x1, y1, c),
        share(sw, dw, x),
        share(sh, dh, y),
    )
}

/// A cell, the one after it, and the share of the latter.
pub struct Tap {
    pub lo: usize,
    pub hi: usize,
    pub part: F32,
}

impl Tap {
    /// The taps of cell `i` of `m` among `n` cells.
    #[verifier::opaque]
    pub open spec fn is_at(&self, n: int, m: int, i: int) -> bool {
        &&& self.lo == tap(n, m, i)
        &&& self.hi == next_tap(n, tap(n, m, i))
        &&& self.part@ == share(n, m, i)
    }
}

/// The taps of every cell, resized from `n` cells.
pub open spec fn are_taps(taps: Seq<Tap>, n: int) -> bool {
    forall|i: int|
        0 <= i < taps.len() ==> (#[trigger] taps[i]).is_at(n, taps.len() as int, i) && taps[i].lo
            < n && taps[i].hi < n
}

pub(crate) fn one_half() -> (r: F32)
    ensures
        r@ == half(),
{
    proof {
        bounds::lemma_half(Format::Single, 1);
    }
    F32::from_u16(1).over(F32::from_u16(2))
}

pub(crate) fn tap_at(n: usize, m: usize, i: usize) -> (r: Tap)
    requires
        n > 0,
    ensures
        r.is_at(n as int, m as int, i as int),
        r.lo < n,
        r.hi < n,
{
    let scale: F32 = F32::from_u64(n as u64).over(F32::from_u64(m as u64));
    let half: F32 = one_half();
    let at: F32 = F32::from_u64(i as u64).plus(half).times(scale).minus(half).larger(
        F32::from_u16(0),
    );
    let floor: F32 = at.floored();
    let cell: usize = floor.to_usize();
    let lo: usize = if cell < n - 1 {
        cell
    } else {
        n - 1
    };
    let hi: usize = if lo < n - 1 {
        lo + 1
    } else {
        n - 1
    };
    proof {
        reveal(Tap::is_at);
        reveal(position);
    }
    Tap { lo, hi, part: at.minus(floor) }
}

fn mix(a: F32, b: F32, t: F32) -> (r: F32)
    ensures
        r@ == mixed(a@, b@, t@),
{
    a.times(F32::from_u16(1).minus(t)).plus(b.times(t))
}

fn blend(a: u8, b: u8, c: u8, d: u8, tx: F32, ty: F32) -> (r: u8)
    ensures
        r == blended(a, b, c, d, tx@, ty@),
{
    let top: F32 = mix(F32::from_u16(a as u16), F32::from_u16(b as u16), tx);
    let bottom: F32 = mix(F32::from_u16(c as u16), F32::from_u16(d as u16), tx);
    mix(top, bottom, ty).plus(one_half()).to_u8()
}

/// The taps of every column: `m` cells resized from `n`.
pub fn column_taps(n: usize, m: usize) -> (r: Vec<Tap>)
    requires
        m == 0 || n > 0,
    ensures
        r@.len() == m,
        are_taps(r@, n as int),
{
    let mut out: Vec<Tap> = Vec::new();
    let mut i: usize = 0;
    while i < m
        invariant
            i <= m,
            m == 0 || n > 0,
            out@.len() == i,
            forall|k: int| 0 <= k < i ==> (#[trigger] out@[k]).is_at(n as int, m as int, k),
            forall|k: int| 0 <= k < i ==> (#[trigger] out@[k]).lo < n && out@[k].hi < n,
        decreases m - i,
    {
        out.push(tap_at(n, m, i));
        i = i + 1;
    }
    out
}

proof fn lemma_inside(w: int, h: int, x: int, y: int, c: int)
    requires
        0 <= x < w,
        0 <= y < h,
        0 <= c < 3,
    ensures
        0 <= y * w <= w * h,
        0 <= y * w + x < w * h,
        0 <= (y * w + x) * 3 + c < w * h * 3,
{
    assert(0 <= y * w && (y + 1) * w <= w * h && (y + 1) * w == y * w + w) by (nonlinear_arith)
        requires
            0 <= x < w,
            0 <= y < h,
    ;
}

fn read(data: &[u8], w: usize, h: usize, x: usize, y: usize, c: usize) -> (r: u8)
    requires
        x < w,
        y < h,
        c < 3,
        w * h * 3 <= data@.len(),
    ensures
        r == channel(data@, w as int, x as int, y as int, c as int),
{
    let size: usize = data.len();
    proof {
        lemma_inside(w as int, h as int, x as int, y as int, c as int);
    }
    data[(y * w + x) * 3 + c]
}

/// Channel `c` of a resized pixel, from the taps of its column and its row.
pub(crate) fn sample(
    data: &[u8],
    w: usize,
    h: usize,
    col: &Tap,
    row: &Tap,
    c: usize,
    Ghost(to): Ghost<(int, int)>,
    Ghost(at): Ghost<(int, int)>,
) -> (r: u8)
    requires
        col.is_at(w as int, to.0, at.0),
        row.is_at(h as int, to.1, at.1),
        col.lo < w,
        col.hi < w,
        row.lo < h,
        row.hi < h,
        c < 3,
        w * h * 3 <= data@.len(),
    ensures
        r == resampled(data@, w as int, h as int, to.0, to.1, at.0, at.1, c as int),
{
    proof {
        reveal(resampled);
        reveal(Tap::is_at);
    }
    blend(
        read(data, w, h, col.lo, row.lo, c),
        read(data, w, h, col.hi, row.lo, c),
        read(data, w, h, col.lo, row.hi, c),
        read(data, w, h, col.hi, row.hi, c),
        col.part,
        row.part,
    )
}

/// The row `y` of a resized image, as bytes.
pub open spec fn is_row(
    r: Seq<u8>,
    data: Seq<u8>,
    sw: int,
    sh: int,
    dw: int,
    dh: int,
    y: int,
) -> bool {
    &&& r.len() == dw * 3
    &&& forall|k: int|
        0 <= k < r.len() ==> #[trigger] r[k] == resampled(
            data,
            sw,
            sh,
            dw,
            dh,
            k / 3,
            y,
            k % 3,
        )
}

/// The bytes of an image resized from `sw` by `sh` to `dw` by `dh`: those of the
/// image itself where the size does not change.
pub open spec fn is_resized(
    r: Seq<u8>,
    data: Seq<u8>,
    sw: int,
    sh: int,
    dw: int,
    dh: int,
) -> bool {
    if sw == dw && sh == dh {
        r == data
    } else {
        &&& r.len() == dw * dh * 3
        &&& forall|x: int, y: int, c: int|
            0 <= x < dw && 0 <= y < dh && 0 <= c < 3 ==> #[trigger] channel(r, dw, x, y, c)
                == resampled(data, sw, sh, dw, dh, x, y, c)
    }
}

/// One row of a resized image.
pub fn resize_row(
    src: &[u8],
    sw: usize,
    sh: usize,
    taps: &Vec<Tap>,
    dh: usize,
    y: usize,
) -> (r: Vec<u8>)
    requires
        sh > 0,
        sw * sh * 3 <= src@.len(),
        taps@.len() * 3 <= usize::MAX,
        are_taps(taps@, sw as int),
    ensures
        is_row(r@, src@, sw as int, sh as int, taps@.len() as int, dh as int, y as int),
{
    let row: Tap = tap_at(sh, dh, y);
    let dw: usize = taps.len();
    let mut out: Vec<u8> = Vec::new();
    let mut x: usize = 0;
    while x < dw
        invariant
            x <= dw,
            dw == taps@.len(),
            out@.len() == x * 3,
            sw * sh * 3 <= src@.len(),
            row.is_at(sh as int, dh as int, y as int),
            row.lo < sh,
            row.hi < sh,
            are_taps(taps@, sw as int),
            forall|k: int|
                0 <= k < out@.len() ==> #[trigger] out@[k] == resampled(
                    src@,
                    sw as int,
                    sh as int,
                    dw as int,
                    dh as int,
                    k / 3,
                    y as int,
                    k % 3,
                ),
        decreases dw - x,
    {
        let col: &Tap = &taps[x];
        let ghost done = out@;
        let ghost to = (dw as int, dh as int);
        let ghost at = (x as int, y as int);
        out.push(sample(src, sw, sh, col, &row, 0, Ghost(to), Ghost(at)));
        out.push(sample(src, sw, sh, col, &row, 1, Ghost(to), Ghost(at)));
        out.push(sample(src, sw, sh, col, &row, 2, Ghost(to), Ghost(at)));
        proof {
            assert forall|k: int| 0 <= k < out@.len() implies #[trigger] out@[k] == resampled(
                src@,
                sw as int,
                sh as int,
                dw as int,
                dh as int,
                k / 3,
                y as int,
                k % 3,
            ) by {
                if k < done.len() {
                    assert(out@[k] == done[k]);
                } else {
                    assert(k / 3 == x && k % 3 == k - x * 3);
                }
            }
        }
        x = x + 1;
    }
    out
}

/// The image of `w` by `h` pixels in `data`, resized to `dw` by `dh`: bilinear,
/// in singles, cell centres on cell centres.
pub fn resize_bilinear_rgb(src: &[u8], sw: usize, sh: usize, dw: usize, dh: usize) -> (r: Vec<u8>)
    requires
        (sw == dw && sh == dh) || {
            &&& sw > 0
            &&& dw > 0
            &&& dh == 0 || (sh > 0 && sw * sh * 3 <= src@.len())
            &&& dw * 3 <= usize::MAX
            &&& dw * dh * 3 <= usize::MAX
        },
    ensures
        is_resized(r@, src@, sw as int, sh as int, dw as int, dh as int),
{
    if sw == dw && sh == dh {
        return slice_to_vec(src);
    }
    let taps: Vec<Tap> = column_taps(sw, dw);
    let mut out: Vec<u8> = Vec::new();
    let mut y: usize = 0;
    let ghost wide = dw * 3;
    while y < dh
        invariant
            y <= dh,
            dw > 0,
            wide == dw * 3,
            wide <= usize::MAX,
            dh == 0 || (sh > 0 && sw * sh * 3 <= src@.len()),
            taps@.len() == dw,
            are_taps(taps@, sw as int),
            out@.len() == y * wide,
            forall|j: int|
                0 <= j < y ==> is_row(
                    #[trigger] out@.subrange(j * wide, (j + 1) * wide),
                    src@,
                    sw as int,
                    sh as int,
                    dw as int,
                    dh as int,
                    j,
                ),
        decreases dh - y,
    {
        let mut row: Vec<u8> = resize_row(src, sw, sh, &taps, dh, y);
        let ghost done = out@;
        let ghost added = row@;
        out.append(&mut row);
        proof {
            assert((y + 1) * wide == y * wide + wide) by (nonlinear_arith);
            assert forall|j: int| 0 <= j < y + 1 implies is_row(
                #[trigger] out@.subrange(j * wide, (j + 1) * wide),
                src@,
                sw as int,
                sh as int,
                dw as int,
                dh as int,
                j,
            ) by {
                if j < y {
                    assert(0 <= j * wide <= (j + 1) * wide <= y * wide) by (nonlinear_arith)
                        requires
                            0 <= j < y,
                            wide >= 0,
                    ;
                    assert(out@.subrange(j * wide, (j + 1) * wide) =~= done.subrange(
                        j * wide,
                        (j + 1) * wide,
                    ));
                } else {
                    assert(out@.subrange(j * wide, (j + 1) * wide) =~= added);
                }
            }
        }
        y = y + 1;
    }
    proof {
        assert(dh * wide == dw * dh * 3) by (nonlinear_arith)
            requires
                wide == dw * 3,
        ;
        assert forall|x: int, y: int, c: int| 0 <= x < dw && 0 <= y < dh && 0 <= c < 3 implies
            #[trigger] channel(out@, dw as int, x, y, c) == resampled(
            src@,
            sw as int,
            sh as int,
            dw as int,
            dh as int,
            x,
            y,
            c,
        ) by {
            let row = out@.subrange(y * wide, (y + 1) * wide);
            assert((y + 1) * wide == y * wide + wide && 0 <= y * wide && (y + 1) * wide <= dh * wide
                && (y * dw + x) * 3 + c == y * wide + (x * 3 + c)) by (nonlinear_arith)
                requires
                    0 <= y < dh,
                    wide == dw * 3,
            ;
            assert(row[x * 3 + c] == out@[(y * dw + x) * 3 + c]);
            assert((x * 3 + c) / 3 == x && (x * 3 + c) % 3 == c);
        }
    }
    out
}

// ---- laws ----

/// Resizing to the same size meets every cell at its centre.
proof fn lemma_same_place(n: int, i: int)
    requires
        0 <= i < n <= 0x80_0000,
    ensures
        position(n, n, i) == Val::Fin(i as real),
{
    let f = Format::Single;
    let mid = i as real + 1real / 2real;
    reveal(position);
    bounds::lemma_whole(f, n);
    bounds::lemma_whole(f, 1);
    bounds::lemma_whole(f, i);
    bounds::lemma_half(f, 2 * i + 1);
    assert(n as real / n as real == 1real) by (nonlinear_arith)
        requires
            n > 0,
    ;
    assert((2 * i + 1) as real / 2real == mid);
    assert(mid * 1real == mid);
    bounds::lemma_quotient(f, n as real, n as real, 1real);
    bounds::lemma_sum(f, i as real, 1real / 2real, mid);
    bounds::lemma_product(f, mid, 1real, mid);
    bounds::lemma_difference(f, mid, 1real / 2real, i as real);
}

proof fn lemma_at_cell(x: real, i: int)
    requires
        x.floor() == i,
        x == i as real,
        0 <= i <= usize::MAX,
    ensures
        Val::Fin(x).floored() == Val::Fin(x),
        model::to_int(Val::Fin(x), 0, usize::MAX as int) == i,
{
}

proof fn lemma_same_tap(n: int, i: int)
    requires
        0 <= i < n <= 0x80_0000,
        n <= usize::MAX,
    ensures
        tap(n, n, i) == i,
        share(n, n, i) == Val::Fin(0real),
{
    lemma_same_place(n, i);
    let x = i as real;
    assert(x.floor() == i);
    lemma_at_cell(x, i);
    bounds::lemma_whole(Format::Single, 0);
    bounds::lemma_difference(Format::Single, x, x, 0real);
}

proof fn lemma_unmixed(a: real, b: real)
    requires
        model::nearest(Format::Single, a) == Val::Fin(a),
    ensures
        mixed(Val::Fin(a), Val::Fin(b), Val::Fin(0real)) == Val::Fin(a),
{
    bounds::lemma_whole(Format::Single, 1);
    bounds::lemma_whole(Format::Single, 0);
    assert(a * 1real == a);
    assert(b * 0real == 0real) by (nonlinear_arith);
    assert(1real + -0real == 1real);
    assert(a + 0real == a);
}

/// An image resampled at its own size keeps every byte. Past 2^23 cells the
/// centres of the cells are no singles any more.
pub proof fn law_resampling_in_place(data: Seq<u8>, w: int, h: int, x: int, y: int, c: int)
    requires
        0 <= x < w <= 0x80_0000,
        0 <= y < h <= 0x80_0000,
        w <= usize::MAX,
        h <= usize::MAX,
    ensures
        resampled(data, w, h, w, h, x, y, c) == channel(data, w, x, y, c),
{
    reveal(resampled);
    lemma_same_tap(w, x);
    lemma_same_tap(h, y);
    let f = Format::Single;
    let v = channel(data, w, x, y, c);
    let x1 = next_tap(w, x);
    let y1 = next_tap(h, y);
    let (b, d, e) = (
        channel(data, w, x1, y, c),
        channel(data, w, x, y1, c),
        channel(data, w, x1, y1, c),
    );
    bounds::lemma_whole(f, v as int);
    bounds::lemma_whole(f, d as int);
    lemma_unmixed(v as real, b as real);
    lemma_unmixed(d as real, e as real);
    lemma_unmixed(v as real, d as real);
    bounds::lemma_half(f, 2 * v + 1);
    let mid = v as real + 1real / 2real;
    assert((2 * v + 1) as real / 2real == mid);
    assert(mid.floor() == v);
}

/// However an image is resized, a byte of the result is the one that sampling
/// the image gives, also where it was copied.
pub proof fn law_resized_is_resampled(
    r: Seq<u8>,
    data: Seq<u8>,
    sw: int,
    sh: int,
    dw: int,
    dh: int,
    x: int,
    y: int,
    c: int,
)
    requires
        is_resized(r, data, sw, sh, dw, dh),
        sw == dw && sh == dh ==> dw <= 0x80_0000 && dh <= 0x80_0000 && dw <= usize::MAX && dh
            <= usize::MAX,
        0 <= x < dw,
        0 <= y < dh,
        0 <= c < 3,
    ensures
        channel(r, dw, x, y, c) == resampled(data, sw, sh, dw, dh, x, y, c),
{
    if sw == dw && sh == dh {
        law_resampling_in_place(data, dw, dh, x, y, c);
    }
}

/// The rounding of a number is near it, in terms of a bound on the number.
proof fn lemma_near(x: real, top: real) -> (y: real)
    requires
        bounds::abs(x) <= top,
        top <= 0x1_0000_0000_0000_0000_0000_0000int as real,
    ensures
        model::nearest(Format::Single, x) == Val::Fin(y),
        bounds::abs(y - x) <= top / 0x100_0000int as real + 1real / 0x100_0000_0000int as real,
        x >= 0real ==> y >= 0real,
        x <= 0real ==> y <= 0real,
{
    bounds::lemma_single_error(x)
}

/// The exact mixture of two numbers between `lo` and `hi`, in a share `t` that is at
/// most a little above one, stays between them but for a little.
proof fn lemma_convex(a: real, b: real, t: real, lo: real, hi: real)
    requires
        lo <= a <= hi,
        lo <= b <= hi,
        hi - lo <= 258real,
        0real <= t <= 1real + 1real / 1000000real,
    ensures
        lo - 1real / 3000real <= (1real - t) * a + t * b <= hi + 1real / 3000real,
{
    let (p, q) = ((1real - t) * (a - lo), t * (b - lo));
    let (v, w) = ((1real - t) * (hi - a), t * (hi - b));
    assert((1real - t) * a + t * b - lo == p + q) by (nonlinear_arith)
        requires
            p == (1real - t) * (a - lo),
            q == t * (b - lo),
    ;
    assert(hi - ((1real - t) * a + t * b) == v + w) by (nonlinear_arith)
        requires
            v == (1real - t) * (hi - a),
            w == t * (hi - b),
    ;
    lemma_nonnegative(t, b - lo);
    lemma_nonnegative(t, hi - b);
    if t <= 1real {
        lemma_nonnegative(1real - t, a - lo);
        lemma_nonnegative(1real - t, hi - a);
    } else {
        lemma_small(t - 1real, a - lo);
        lemma_small(t - 1real, hi - a);
        assert(p == -((t - 1real) * (a - lo))) by (nonlinear_arith)
            requires
                p == (1real - t) * (a - lo),
        ;
        assert(v == -((t - 1real) * (hi - a))) by (nonlinear_arith)
            requires
                v == (1real - t) * (hi - a),
        ;
    }
}

proof fn lemma_nonnegative(x: real, y: real)
    requires
        x >= 0real,
        y >= 0real,
    ensures
        x * y >= 0real,
{
    assert(x * y >= 0real) by (nonlinear_arith)
        requires
            x >= 0real,
            y >= 0real,
    ;
}

proof fn lemma_small(d: real, y: real)
    requires
        0real <= d <= 1real / 1000000real,
        0real <= y <= 258real,
    ensures
        d * y <= 1real / 3000real,
{
    assert(d * y <= d * 258real) by (nonlinear_arith)
        requires
            d >= 0real,
            y <= 258real,
    ;
}

/// Products of numbers within bounds are within the product of the bounds.
pub proof fn lemma_product_bound(x: real, y: real, p: real, q: real)
    requires
        -p <= x <= p,
        -q <= y <= q,
    ensures
        -(p * q) <= x * y <= p * q,
{
    lemma_nonnegative(p - x, q + y);
    lemma_nonnegative(p + x, q - y);
    lemma_nonnegative(p - x, q - y);
    lemma_nonnegative(p + x, q + y);
    assert((p - x) * (q + y) == p * q + p * y - x * q - x * y) by (nonlinear_arith);
    assert((p + x) * (q - y) == p * q - p * y + x * q - x * y) by (nonlinear_arith);
    assert((p - x) * (q - y) == p * q - p * y - x * q + x * y) by (nonlinear_arith);
    assert((p + x) * (q + y) == p * q + p * y + x * q + x * y) by (nonlinear_arith);
}

/// A mixture of two numbers, in a share of at most one but for rounding, stays
/// between them but for rounding.
proof fn lemma_mixed_between(a: real, b: real, t: real, lo: real, hi: real) -> (m: real)
    requires
        -1real / 2real <= lo <= a <= hi <= 256real,
        lo <= b <= hi,
        0real <= t <= 1real + 1real / 1000000real,
    ensures
        mixed(Val::Fin(a), Val::Fin(b), Val::Fin(t)) == Val::Fin(m),
        lo - 1real / 1000real <= m <= hi + 1real / 1000real,
{
    let u = lemma_near(1real - t, 1real);
    assert(1real + -t == 1real - t);
    let gap = u - (1real - t);
    assert(-1real / 8000000real <= gap <= 1real / 8000000real);
    lemma_product_bound(a, u, 256real, 2real);
    lemma_product_bound(b, t, 256real, 2real);
    lemma_product_bound(a, gap, 256real, 1real / 8000000real);
    lemma_convex(a, b, t, lo, hi);
    assert(a * u == (1real - t) * a + a * gap) by (nonlinear_arith)
        requires
            gap == u - (1real - t),
    ;
    assert(b * t == t * b) by (nonlinear_arith);
    let p = lemma_near(a * u, 600real);
    let q = lemma_near(b * t, 600real);
    let m = lemma_near(p + q, 1300real);
    m
}

proof fn lemma_count_near(n: int) -> (r: real)
    requires
        0 <= n <= 0x1_0000_0000_0000_0000,
    ensures
        single(n) == Val::Fin(r),
        n as real / 2real <= r <= 2real * n as real,
{
    bounds::lemma_whole(Format::Single, 0);
    bounds::lemma_single_error(n as real)
}

/// In a resizing every position is a number.
proof fn lemma_position_finite(n: int, m: int, i: int) -> (p: real)
    requires
        0 <= i < m <= 0x1_0000_0000_0000_0000,
        0 < n <= 0x1_0000_0000_0000_0000,
    ensures
        position(n, m, i) == Val::Fin(p),
        0real <= p,
{
    reveal(position);
    let big = 0x1_0000_0000_0000_0000int as real;
    let a = lemma_count_near(n);
    let b = lemma_count_near(m);
    let c = lemma_count_near(i);
    let d = bounds::lemma_single_error(c + 1real / 2real);
    assert(d <= 2real * c + 2real);
    assert(d <= 8real * b);
    let ratio = a / b;
    assert(0real <= ratio <= 4real * big && b * ratio == a) by (nonlinear_arith)
        requires
            ratio == a / b,
            0real <= a <= 2real * big,
            b >= 1real / 2real,
    ;
    let s = bounds::lemma_single_error(ratio);
    assert(s <= 2real * ratio + 1real);
    assert(0real <= d * s <= 48real * big) by (nonlinear_arith)
        requires
            0real <= d <= 8real * b,
            0real <= s <= 2real * ratio + 1real,
            0real <= ratio,
            b * ratio == a,
            a <= 2real * big,
            0real <= b <= 2real * big,
    ;
    let e = lemma_near(d * s, 48real * big);
    let g = lemma_near(e - 1real / 2real, 50real * big);
    assert(e + -(1real / 2real) == e - 1real / 2real);
    if g < 0real {
        0real
    } else {
        g
    }
}

proof fn lemma_share_bound(n: int, m: int, i: int) -> (t: real)
    requires
        0 <= i < m <= 0x1_0000_0000_0000_0000,
        0 < n <= 0x1_0000_0000_0000_0000,
    ensures
        share(n, m, i) == Val::Fin(t),
        0real <= t <= 1real + 1real / 1000000real,
{
    let p = lemma_position_finite(n, m, i);
    let q = p.floor() as real;
    assert(p + -q == p - q);
    lemma_near(p - q, 1real)
}

/// A byte of a resized picture lies between any bounds of its channel in the
/// picture.
pub proof fn law_resampled_stays_between(
    data: Seq<u8>,
    sw: int,
    sh: int,
    dw: int,
    dh: int,
    x: int,
    y: int,
    c: int,
    lo: u8,
    hi: u8,
)
    requires
        0 <= x < dw <= usize::MAX,
        0 <= y < dh <= usize::MAX,
        0 < sw <= usize::MAX,
        0 < sh <= usize::MAX,
        forall|i: int, j: int|
            0 <= i < sw && 0 <= j < sh ==> lo <= #[trigger] channel(data, sw, i, j, c) <= hi,
    ensures
        lo <= resampled(data, sw, sh, dw, dh, x, y, c) <= hi,
{
    reveal(resampled);
    let (x0, y0) = (tap(sw, dw, x), tap(sh, dh, y));
    let (x1, y1) = (next_tap(sw, x0), next_tap(sh, y0));
    let tx = lemma_share_bound(sw, dw, x);
    let ty = lemma_share_bound(sh, dh, y);
    assert(0 <= x0 < sw && 0 <= y0 < sh) by {
        lemma_position_finite(sw, dw, x);
        lemma_position_finite(sh, dh, y);
    }
    let a = channel(data, sw, x0, y0, c);
    let b = channel(data, sw, x1, y0, c);
    let d = channel(data, sw, x0, y1, c);
    let e = channel(data, sw, x1, y1, c);
    let (low, high) = (lo as real, hi as real);
    let top = lemma_mixed_between(a as real, b as real, tx, low, high);
    let bottom = lemma_mixed_between(d as real, e as real, tx, low, high);
    let m = lemma_mixed_between(
        top,
        bottom,
        ty,
        low - 1real / 1000real,
        high + 1real / 1000real,
    );
    let r = lemma_near(m + 1real / 2real, 258real);
    assert(low <= r && r < high + 1real);
    assert(lo <= r.floor() <= hi);
}

/// A byte of a resized picture lies between any bounds of its channel in the
/// picture, also where the picture was copied.
pub proof fn law_resized_stays_between(
    r: Seq<u8>,
    data: Seq<u8>,
    sw: int,
    sh: int,
    dw: int,
    dh: int,
    x: int,
    y: int,
    c: int,
    lo: u8,
    hi: u8,
)
    requires
        is_resized(r, data, sw, sh, dw, dh),
        0 <= x < dw <= usize::MAX,
        0 <= y < dh <= usize::MAX,
        0 < sw <= usize::MAX,
        0 < sh <= usize::MAX,
        0 <= c < 3,
        forall|i: int, j: int|
            0 <= i < sw && 0 <= j < sh ==> lo <= #[trigger] channel(data, sw, i, j, c) <= hi,
    ensures
        lo <= channel(r, dw, x, y, c) <= hi,
{
    if !(sw == dw && sh == dh) {
        law_resampled_stays_between(data, sw, sh, dw, dh, x, y, c, lo, hi);
    }
}

/// A picture of one colour keeps that colour at any size.
pub proof fn law_solid_colour_is_kept(
    data: Seq<u8>,
    sw: int,
    sh: int,
    dw: int,
    dh: int,
    x: int,
    y: int,
    c: int,
    v: u8,
)
    requires
        0 <= x < dw <= usize::MAX,
        0 <= y < dh <= usize::MAX,
        0 < sw <= usize::MAX,
        0 < sh <= usize::MAX,
        forall|i: int, j: int|
            0 <= i < sw && 0 <= j < sh ==> #[trigger] channel(data, sw, i, j, c) == v,
    ensures
        resampled(data, sw, sh, dw, dh, x, y, c) == v,
{
    law_resampled_stays_between(data, sw, sh, dw, dh, x, y, c, v, v);
}

/// `a` and `b` mixed exactly, `t` parts of `b`.
pub open spec fn part(a: real, b: real, t: real) -> real {
    (1real - t) * a + t * b
}

pub open spec fn at_most(a: int, b: int) -> int {
    if a < b {
        a
    } else {
        b
    }
}

/// The values `f` of `n` cells, read at `p` cells from the centre of the first one:
/// on a straight line from each centre to the next, and level behind the last.
pub open spec fn between(f: spec_fn(int) -> real, n: int, p: real) -> real {
    let k = p.floor();
    part(f(at_most(k, n - 1)), f(at_most(k + 1, n - 1)), p - k as real)
}

/// Where the centre of cell `i` of `m` falls among `n` cells, exactly.
pub open spec fn centre(n: int, m: int, i: int) -> real {
    let p = (i as real + 1real / 2real) * n as real / m as real - 1real / 2real;
    if p < 0real {
        0real
    } else {
        p
    }
}

/// Row `j` of a channel.
pub open spec fn line(data: Seq<u8>, w: int, c: int, j: int) -> spec_fn(int) -> real {
    |i: int| channel(data, w, i, j, c) as real
}

/// A channel read at `px` in each row.
pub open spec fn lines(data: Seq<u8>, w: int, c: int, px: real) -> spec_fn(int) -> real {
    |j: int| between(line(data, w, c, j), w, px)
}

/// The image read at the centre of pixel (`x`, `y`) of a grid of `dw` by `dh`: on
/// straight lines between the centres of its own pixels, sideways and downwards.
pub open spec fn bilinear(
    data: Seq<u8>,
    sw: int,
    sh: int,
    dw: int,
    dh: int,
    x: int,
    y: int,
    c: int,
) -> real {
    between(lines(data, sw, c, centre(sw, dw, x)), sh, centre(sh, dh, y))
}

/// Changing the share changes the mixture by no more than the values differ.
proof fn lemma_part_moves(a: real, b: real, t: real, s: real, d: real)
    requires
        0real <= a <= 256real,
        0real <= b <= 256real,
        -d <= t - s <= d,
    ensures
        -(d * 256real) <= part(a, b, t) - part(a, b, s) <= d * 256real,
{
    lemma_product_bound(t - s, b - a, d, 256real);
    assert(part(a, b, t) - part(a, b, s) == (t - s) * (b - a)) by (nonlinear_arith)
        requires
            part(a, b, t) == (1real - t) * a + t * b,
            part(a, b, s) == (1real - s) * a + s * b,
    ;
}

proof fn lemma_part_range(a: real, b: real, t: real, lo: real, hi: real)
    requires
        lo <= a <= hi,
        lo <= b <= hi,
        0real <= t <= 1real,
    ensures
        lo <= part(a, b, t) <= hi,
{
    lemma_nonnegative(1real - t, a - lo);
    lemma_nonnegative(t, b - lo);
    lemma_nonnegative(1real - t, hi - a);
    lemma_nonnegative(t, hi - b);
    assert(part(a, b, t) - lo == (1real - t) * (a - lo) + t * (b - lo)) by (nonlinear_arith)
        requires
            part(a, b, t) == (1real - t) * a + t * b,
    ;
    assert(hi - part(a, b, t) == (1real - t) * (hi - a) + t * (hi - b)) by (nonlinear_arith)
        requires
            part(a, b, t) == (1real - t) * a + t * b,
    ;
}

/// Values that hardly differ have mixtures that hardly differ.
proof fn lemma_part_close(a: real, b: real, v: real, w: real, t: real, d: real)
    requires
        -d <= a - v <= d,
        -d <= b - w <= d,
        0real <= t <= 1real,
    ensures
        -d <= part(a, b, t) - part(v, w, t) <= d,
{
    lemma_part_range(a - v, b - w, t, -d, d);
    assert(part(a, b, t) - part(v, w, t) == part(a - v, b - w, t)) by (nonlinear_arith)
        requires
            part(a, b, t) == (1real - t) * a + t * b,
            part(v, w, t) == (1real - t) * v + t * w,
            part(a - v, b - w, t) == (1real - t) * (a - v) + t * (b - w),
    ;
}

/// The values of the cells are those of bytes.
spec fn is_bytes(f: spec_fn(int) -> real, n: int) -> bool {
    forall|i: int| 0 <= i < n ==> 0real <= #[trigger] f(i) <= 255real
}

proof fn lemma_between_range(f: spec_fn(int) -> real, n: int, p: real)
    requires
        n > 0,
        p >= 0real,
        is_bytes(f, n),
    ensures
        0real <= between(f, n, p) <= 255real,
{
    let k = p.floor();
    let t = p - k as real;
    assert(0 <= k && 0real <= t <= 1real);
    let (i, j) = (at_most(k, n - 1), at_most(k + 1, n - 1));
    assert(0real <= f(i) <= 255real && 0real <= f(j) <= 255real);
    lemma_part_range(f(i), f(j), t, 0real, 255real);
}

/// A step of `d` cells, less than one, changes what is read by `256 * d` at most.
proof fn lemma_between_moves(f: spec_fn(int) -> real, n: int, p: real, q: real, d: real)
    requires
        n > 0,
        0real <= p <= q <= p + d,
        0real <= d < 1real,
        is_bytes(f, n),
    ensures
        -(d * 256real) <= between(f, n, p) - between(f, n, q) <= d * 256real,
{
    let (k, m) = (p.floor(), q.floor());
    let (t, s) = (p - k as real, q - m as real);
    assert(0 <= k && (m == k || m == k + 1));
    let (a, b) = (f(at_most(k, n - 1)), f(at_most(k + 1, n - 1)));
    assert(0real <= a <= 255real && 0real <= b <= 255real);
    if m == k {
        lemma_part_moves(a, b, t, s, d);
    } else {
        let c = f(at_most(m + 1, n - 1));
        assert(0real <= c <= 255real);
        let (g, h) = (1real - t, s);
        assert(0real <= g && 0real <= h && g + h <= d);
        lemma_part_moves(a, b, t, 1real, g);
        lemma_part_moves(b, c, s, 0real, h);
        assert(part(a, b, 1real) == b && part(b, c, 0real) == b) by (nonlinear_arith)
            requires
                part(a, b, 1real) == (1real - 1real) * a + 1real * b,
                part(b, c, 0real) == (1real - 0real) * b + 0real * c,
        ;
    }
}

proof fn lemma_between_near(f: spec_fn(int) -> real, n: int, p: real, q: real, d: real)
    requires
        n > 0,
        0real <= p,
        0real <= q,
        -d <= p - q <= d,
        d < 1real,
        is_bytes(f, n),
    ensures
        -(d * 256real) <= between(f, n, p) - between(f, n, q) <= d * 256real,
{
    if p <= q {
        lemma_between_moves(f, n, p, q, d);
    } else {
        lemma_between_moves(f, n, q, p, d);
    }
}

/// Mixing in singles is mixing exactly, to within a thousandth.
proof fn lemma_mixed_near(a: real, b: real, t: real) -> (m: real)
    requires
        -1real / 2real <= a <= 256real,
        -1real / 2real <= b <= 256real,
        0real <= t <= 1real + 1real / 1000000real,
    ensures
        mixed(Val::Fin(a), Val::Fin(b), Val::Fin(t)) == Val::Fin(m),
        -1real / 1000real <= m - part(a, b, t) <= 1real / 1000real,
{
    let u = lemma_near(1real - t, 1real);
    assert(1real + -t == 1real - t);
    let gap = u - (1real - t);
    assert(-1real / 8000000real <= gap <= 1real / 8000000real);
    lemma_product_bound(a, u, 256real, 2real);
    lemma_product_bound(b, t, 256real, 2real);
    lemma_product_bound(a, gap, 256real, 1real / 8000000real);
    assert(a * u == (1real - t) * a + a * gap) by (nonlinear_arith)
        requires
            gap == u - (1real - t),
    ;
    assert(b * t == t * b) by (nonlinear_arith);
    let p = lemma_near(a * u, 600real);
    let q = lemma_near(b * t, 600real);
    lemma_near(p + q, 1300real)
}

/// How far a position among `n` cells may be off in singles.
spec fn drift(n: int) -> real {
    (n + 2) as real / 5500000real
}

/// The position of a cell is the exact one, but for what is lost in singles.
proof fn lemma_position_near(n: int, m: int, i: int) -> (p: real)
    requires
        0 <= i < m <= 0x1_0000,
        0 < n <= 0x1_0000,
    ensures
        position(n, m, i) == Val::Fin(p),
        0real <= p <= n as real + 1real,
        -drift(n) <= p - centre(n, m, i) <= drift(n),
{
    reveal(position);
    bounds::lemma_whole(Format::Single, n);
    bounds::lemma_whole(Format::Single, m);
    bounds::lemma_whole(Format::Single, i);
    bounds::lemma_half(Format::Single, 2 * i + 1);
    let (a, b, c) = (n as real, m as real, i as real + 1real / 2real);
    assert(c == (2 * i + 1) as real / 2real);
    let ratio = a / b;
    assert(0real < ratio <= a && b * ratio == a) by (nonlinear_arith)
        requires
            ratio == a / b,
            a > 0real,
            b >= 1real,
    ;
    let s = bounds::lemma_single_error(ratio);
    let e = s - ratio;
    let top = ratio / 0x100_0000int as real + 1real / 0x100_0000_0000int as real;
    assert(-top <= e <= top);
    let exact = c * ratio;
    assert(exact == c * a / b && 0real <= exact <= a) by (nonlinear_arith)
        requires
            exact == c * ratio,
            ratio == a / b,
            b * ratio == a,
            0real <= c <= b,
            ratio > 0real,
            b >= 1real,
    ;
    lemma_product_bound(c, e, c, top);
    assert(c * top == exact / 0x100_0000int as real + c / 0x100_0000_0000int as real) by (nonlinear_arith)
        requires
            exact == c * ratio,
            top == ratio / 0x100_0000int as real + 1real / 0x100_0000_0000int as real,
    ;
    assert(c * s == exact + c * e) by (nonlinear_arith)
        requires
            exact == c * ratio,
            e == s - ratio,
    ;
    let g = lemma_near(c * s, a + 1real);
    let h = lemma_near(g - 1real / 2real, a + 2real);
    assert(g + -(1real / 2real) == g - 1real / 2real);
    if h < 0real {
        0real
    } else {
        h
    }
}

/// The taps and the share of a cell are those of its position.
proof fn lemma_taps_near(n: int, m: int, i: int, p: real) -> (t: real)
    requires
        0 <= i < m <= 0x1_0000,
        0 < n <= 0x1_0000,
        position(n, m, i) == Val::Fin(p),
        0real <= p <= n as real + 1real,
    ensures
        tap(n, m, i) == at_most(p.floor(), n - 1),
        next_tap(n, tap(n, m, i)) == at_most(p.floor() + 1, n - 1),
        share(n, m, i) == Val::Fin(t),
        0real <= t <= 1real + 1real / 1000000real,
        -1real / 1000000real <= t - (p - p.floor() as real) <= 1real / 1000000real,
{
    let k = p.floor();
    let q = k as real;
    assert(q.floor() == k);
    assert(0 <= k <= 0x1_0001);
    assert(p + -q == p - q);
    lemma_near(p - q, 1real)
}

/// How far a resized pixel may be from the bilinear reading: about half a level for
/// rounding to a whole one, and what the positions are off.
pub open spec fn slack(sw: int, sh: int) -> real {
    52real / 100real + (sw + sh) as real / 21000real
}

/// Each pixel of a resized image is the bilinear reading of the source at its centre:
/// for sides up to 4096 to within one level, and hardly more for greater ones.
pub proof fn law_resampled_is_bilinear(
    data: Seq<u8>,
    sw: int,
    sh: int,
    dw: int,
    dh: int,
    x: int,
    y: int,
    c: int,
)
    requires
        0 <= x < dw <= 0x1_0000,
        0 <= y < dh <= 0x1_0000,
        0 < sw <= 0x1_0000,
        0 < sh <= 0x1_0000,
    ensures
        -slack(sw, sh) <= resampled(data, sw, sh, dw, dh, x, y, c) as real - bilinear(
            data,
            sw,
            sh,
            dw,
            dh,
            x,
            y,
            c,
        ) <= slack(sw, sh),
        sw <= 0x1000 && sh <= 0x1000 ==> slack(sw, sh) < 1real,
{
    reveal(resampled);
    let (px, py) = (lemma_position_near(sw, dw, x), lemma_position_near(sh, dh, y));
    let tx = lemma_taps_near(sw, dw, x, px);
    let ty = lemma_taps_near(sh, dh, y, py);
    let (y0, y1) = (tap(sh, dh, y), next_tap(sh, tap(sh, dh, y)));
    let (ex, ey) = (centre(sw, dw, x), centre(sh, dh, y));
    let (dx, dy) = (drift(sw), drift(sh));
    assert(dx < 1real / 50real && dy < 1real / 50real);
    let top = lemma_row_near(data, sw, c, y0, px, ex, tx, dw, x, dx);
    let bottom = lemma_row_near(data, sw, c, y1, px, ex, tx, dw, x, dx);
    let f = lines(data, sw, c, ex);
    assert forall|j: int| 0 <= j < sh implies 0real <= #[trigger] f(j) <= 255real by {
        assert(is_bytes(line(data, sw, c, j), sw));
        lemma_between_range(line(data, sw, c, j), sw, ex);
    }
    let v = lemma_mixed_near(top, bottom, ty);
    let s = py - py.floor() as real;
    assert(0real <= s <= 1real);
    lemma_part_near(top, bottom, ty, s);
    lemma_part_range(top, bottom, s, -1real / 100real, 255real + 1real / 100real);
    lemma_part_close(top, bottom, f(y0), f(y1), s, dx * 256real + 1real / 700real);
    assert(between(f, sh, py) == part(f(y0), f(y1), s));
    lemma_between_near(f, sh, py, ey, dy);
    let r = lemma_near(v + 1real / 2real, 258real);
    assert(r >= 0real && r < 256real);
    let n = r.floor();
    assert(n as real <= r && r < n as real + 1real);
}

proof fn lemma_part_near(a: real, b: real, t: real, s: real)
    requires
        -1real / 4real <= a <= 255real + 1real / 4real,
        -1real / 4real <= b <= 255real + 1real / 4real,
        -1real / 1000000real <= t - s <= 1real / 1000000real,
    ensures
        -1real / 3000real <= part(a, b, t) - part(a, b, s) <= 1real / 3000real,
{
    lemma_product_bound(t - s, b - a, 1real / 1000000real, 256real);
    assert(part(a, b, t) - part(a, b, s) == (t - s) * (b - a)) by (nonlinear_arith)
        requires
            part(a, b, t) == (1real - t) * a + t * b,
            part(a, b, s) == (1real - s) * a + s * b,
    ;
}

/// A row mixed at its taps is that row read at the exact place, but for `d` cells.
proof fn lemma_row_near(
    data: Seq<u8>,
    w: int,
    c: int,
    j: int,
    px: real,
    ex: real,
    tx: real,
    m: int,
    i: int,
    d: real,
) -> (r: real)
    requires
        0 < w,
        0real <= px,
        0real <= ex,
        -d <= px - ex <= d,
        d < 1real,
        tap(w, m, i) == at_most(px.floor(), w - 1),
        next_tap(w, tap(w, m, i)) == at_most(px.floor() + 1, w - 1),
        0real <= tx <= 1real + 1real / 1000000real,
        -1real / 1000000real <= tx - (px - px.floor() as real) <= 1real / 1000000real,
    ensures
        mixed(
            byte_val(channel(data, w, tap(w, m, i), j, c)),
            byte_val(channel(data, w, next_tap(w, tap(w, m, i)), j, c)),
            Val::Fin(tx),
        ) == Val::Fin(r),
        -(d * 256real + 1real / 700real) <= r - between(line(data, w, c, j), w, ex) <= d * 256real
            + 1real / 700real,
        -1real / 100real <= r <= 255real + 1real / 100real,
{
    let f = line(data, w, c, j);
    assert(is_bytes(f, w));
    let (x0, x1) = (tap(w, m, i), next_tap(w, tap(w, m, i)));
    let (a, b) = (f(x0), f(x1));
    let s = px - px.floor() as real;
    let r = lemma_mixed_near(a, b, tx);
    lemma_part_near(a, b, tx, s);
    lemma_part_range(a, b, s, 0real, 255real);
    assert(between(f, w, px) == part(a, b, s));
    lemma_between_near(f, w, px, ex, d);
    r
}

/// Resizing an image reads it bilinearly at the centres of the new pixels; an image of
/// the size that is asked for stays as it is.
pub proof fn law_resizing_is_bilinear(
    src: &[u8],
    sw: usize,
    sh: usize,
    dw: usize,
    dh: usize,
    r: Vec<u8>,
    x: int,
    y: int,
    c: int,
)
    requires
        call_ensures(resize_bilinear_rgb, (src, sw, sh, dw, dh), r),
        0 <= x < dw <= 0x1_0000,
        0 <= y < dh <= 0x1_0000,
        0 < sw <= 0x1_0000,
        0 < sh <= 0x1_0000,
        0 <= c < 3,
    ensures
        -slack(sw as int, sh as int) <= channel(r@, dw as int, x, y, c) as real - bilinear(
            src@,
            sw as int,
            sh as int,
            dw as int,
            dh as int,
            x,
            y,
            c,
        ) <= slack(sw as int, sh as int),
        sw == dw && sh == dh ==> r@ == src@,
{
    law_resized_is_resampled(
        r@,
        src@,
        sw as int,
        sh as int,
        dw as int,
        dh as int,
        x,
        y,
        c,
    );
    law_resampled_is_bilinear(src@, sw as int, sh as int, dw as int, dh as int, x, y, c);
}

/// A single row of a resized image, made with the taps of its columns, has the same
/// pixels: byte `x * 3 + c` is the bilinear reading at column `x`.
pub proof fn law_row_is_bilinear(
    src: &[u8],
    sw: usize,
    sh: usize,
    dw: usize,
    taps: Vec<Tap>,
    dh: usize,
    y: usize,
    r: Vec<u8>,
    x: int,
    c: int,
)
    requires
        call_ensures(column_taps, (sw, dw), taps),
        call_ensures(resize_row, (src, sw, sh, &taps, dh, y), r),
        0 <= x < dw <= 0x1_0000,
        y < dh <= 0x1_0000,
        0 < sw <= 0x1_0000,
        0 < sh <= 0x1_0000,
        0 <= c < 3,
    ensures
        r@.len() == dw * 3,
        -slack(sw as int, sh as int) <= r@[x * 3 + c] as real - bilinear(
            src@,
            sw as int,
            sh as int,
            dw as int,
            dh as int,
            x,
            y as int,
            c,
        ) <= slack(sw as int, sh as int),
{
    let k = x * 3 + c;
    assert(k / 3 == x && k % 3 == c);
    law_resampled_is_bilinear(src@, sw as int, sh as int, dw as int, dh as int, x, y as int, c);
}

} // verus!
