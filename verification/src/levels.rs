//! The range into which each network wants its input bytes brought.

use crate::float::bounds;
use crate::float::model;
use crate::float::model::{Format, Val};
use crate::float::F32;
use crate::resize;
use crate::resize::{one_half, ImageRgb, Tap};
use crate::tensor;
use crate::tensor::{fill_planes, tensor_row};
use vstd::prelude::*;

verus! {

/// The two networks.
#[derive(Clone, Copy)]
pub enum Network {
    Detector,
    Recognizer,
}

/// The mean of the detector's training images in plane `c`, as a bit pattern:
/// 0.485, 0.456 and 0.406.
pub open spec fn det_mean(c: int) -> F32 {
    if c == 0 {
        F32 { bits: 0x3ef8_51ec }
    } else if c == 1 {
        F32 { bits: 0x3ee9_78d5 }
    } else {
        F32 { bits: 0x3ecf_df3b }
    }
}

/// Their deviation in plane `c`: 0.229, 0.224 and 0.225.
pub open spec fn det_std(c: int) -> F32 {
    if c == 0 {
        F32 { bits: 0x3e6a_7efa }
    } else if c == 1 {
        F32 { bits: 0x3e65_6042 }
    } else {
        F32 { bits: 0x3e66_6666 }
    }
}

fn mean_and_std(c: usize) -> (r: (F32, F32))
    ensures
        r.0 == det_mean(c as int),
        r.1 == det_std(c as int),
{
    if c == 0 {
        (F32 { bits: 0x3ef8_51ec }, F32 { bits: 0x3e6a_7efa })
    } else if c == 1 {
        (F32 { bits: 0x3ee9_78d5 }, F32 { bits: 0x3e65_6042 })
    } else {
        (F32 { bits: 0x3ecf_df3b }, F32 { bits: 0x3e66_6666 })
    }
}

/// The detector's factor for plane `c`.
pub open spec fn det_factor(c: int) -> Val {
    Val::Fin(1real).over(
        Val::Fin(255real).times(det_std(c)@, Format::Single),
        Format::Single,
    )
}

/// The detector's offset for plane `c`.
pub open spec fn det_offset(c: int) -> Val {
    det_mean(c)@.negate().over(det_std(c)@, Format::Single)
}

impl Network {
    /// The network's number for byte `v` of plane `c`.
    #[verifier::opaque]
    pub open spec fn level(self, v: u8, c: int) -> Val {
        let byte = resize::byte_val(v);
        match self {
            Network::Detector => byte.times(det_factor(c), Format::Single).plus(
                det_offset(c),
                Format::Single,
            ),
            Network::Recognizer => byte.over(Val::Fin(255real), Format::Single).minus(
                resize::half(),
                Format::Single,
            ).over(resize::half(), Format::Single),
        }
    }
}

fn det_level(v: u8, c: usize) -> (r: F32)
    requires
        c < 3,
    ensures
        r@ == Network::Detector.level(v, c as int),
{
    proof {
        reveal(Network::level);
    }
    let (mean, std): (F32, F32) = mean_and_std(c);
    let factor: F32 = F32::from_u16(1).over(F32::from_u16(255).times(std));
    let offset: F32 = mean.negate().over(std);
    F32::from_u16(v as u16).times(factor).plus(offset)
}

fn rec_level(v: u8) -> (r: F32)
    ensures
        forall|c: int| r@ == #[trigger] Network::Recognizer.level(v, c),
{
    proof {
        reveal(Network::level);
    }
    F32::from_u16(v as u16).over(F32::from_u16(255)).minus(one_half()).over(one_half())
}

/// The numbers of all bytes for one network.
pub struct Levels {
    pub net: Network,
    pub table: Vec<F32>,
}

impl Levels {
    /// Entry `c * 256 + v` is the number for byte `v` of plane `c`.
    pub open spec fn wf(&self) -> bool {
        &&& self.table@.len() == 768
        &&& forall|k: int|
            0 <= k < 768 ==> (#[trigger] self.table@[k])@ == self.net.level((k % 256) as u8, k / 256)
    }

    /// The table of a network.
    pub fn new(net: Network) -> (r: Levels)
        ensures
            r.wf(),
            r.net == net,
    {
        let mut table: Vec<F32> = Vec::new();
        let mut k: usize = 0;
        while k < 768
            invariant
                k <= 768,
                table@.len() == k,
                forall|j: int|
                    0 <= j < k ==> (#[trigger] table@[j])@ == net.level((j % 256) as u8, j / 256),
            decreases 768 - k,
        {
            let v: u8 = (k % 256) as u8;
            let level: F32 = match net {
                Network::Detector => det_level(v, k / 256),
                Network::Recognizer => rec_level(v),
            };
            table.push(level);
            k = k + 1;
        }
        Levels { net, table }
    }

    /// The number for byte `v` of plane `c`.
    pub fn of(&self, v: u8, c: usize) -> (r: F32)
        requires
            self.wf(),
            c < 3,
        ensures
            r@ == self.net.level(v, c as int),
    {
        let k: usize = c * 256 + v as usize;
        proof {
            assert(k as int % 256 == v && k as int / 256 == c);
        }
        self.table[k]
    }
}

/// From `base` on, `t` holds the planes of `src`, resized to `dw` by `dh` and
/// padded with zeros to `stride`, in the numbers of the network.
pub open spec fn holds_image(
    t: Seq<F32>,
    base: int,
    src: &ImageRgb,
    dw: int,
    dh: int,
    stride: int,
    net: Network,
) -> bool {
    &&& base + 3 * dh * stride <= t.len()
    &&& forall|c: int, y: int, x: int|
        0 <= c < 3 && 0 <= y < dh && 0 <= x < stride ==> (#[trigger] t[base + at_cell(
            c,
            y,
            x,
            dh,
            stride,
        )])@ == if x < dw {
            net.level(
                resize::resampled(
                    src.data@,
                    src.w as int,
                    src.h as int,
                    dw,
                    dh,
                    x,
                    y,
                    2 - c,
                ),
                c,
            )
        } else {
            Val::Fin(0real)
        }
}

/// Where column `x` of row `y` of plane `c` stands in the planes.
pub open spec fn at_cell(c: int, y: int, x: int, dh: int, stride: int) -> int {
    (c * dh + y) * stride + x
}

/// Writes the planes of an image for a network into `out` from `base` on.
pub(crate) fn fill_image(
    src: &ImageRgb,
    dw: usize,
    dh: usize,
    stride: usize,
    out: &mut Vec<F32>,
    base: usize,
    levels: &Levels,
)
    requires
        src.wf(),
        levels.wf(),
        dw == 0 || src.w > 0,
        dh == 0 || src.h > 0,
        0 < stride,
        dw <= stride,
        base + 3 * dh * stride <= old(out)@.len(),
    ensures
        final(out)@.len() == old(out)@.len(),
        holds_image(
            final(out)@,
            base as int,
            src,
            dw as int,
            dh as int,
            stride as int,
            levels.net,
        ),
        forall|k: int|
            0 <= k < old(out)@.len() && !(base <= k < base + 3 * dh * stride)
                ==> #[trigger] final(out)@[k] == old(out)@[k],
{
    let normalize = |v: u8, c: usize| -> (r: F32)
        requires
            c < 3,
            levels.wf(),
        ensures
            r@ == levels.net.level(v, c as int),
        { levels.of(v, c) };
    fill_planes(src, dw, dh, stride, out, base, &normalize);
    proof {
        let t = out@.subrange(base as int, base + 3 * dh * stride);
        let (w, h, s) = (dw as int, dh as int, stride as int);
        assert forall|c: int, y: int, x: int|
            0 <= c < 3 && 0 <= y < h && 0 <= x < s implies (#[trigger] out@[base + at_cell(
            c,
            y,
            x,
            h,
            s,
        )])@ == if x < w {
            levels.net.level(
                resize::resampled(src.data@, src.w as int, src.h as int, w, h, x, y, 2 - c),
                c,
            )
        } else {
            Val::Fin(0real)
        } by {
            let i = c * h + y;
            assert(0 <= i < 3 * h && i / h == c && i % h == y && 0 <= i * s && (i + 1) * s == i * s
                + s && (i + 1) * s <= 3 * h * s) by (nonlinear_arith)
                requires
                    i == c * h + y,
                    0 <= c < 3,
                    0 <= y < h,
                    0 < s,
            ;
            let row = t.subrange(i * s, (i + 1) * s);
            assert(tensor::is_tensor_row(row, src, w, h, i, s, normalize));
            assert(tensor::is_cell(row[x], src, w, h, i, x, normalize));
            assert(row[x] == out@[base + at_cell(c, y, x, h, s)]);
        }
    }
}

/// Row `i` of the planes of `src`, resized to `dw` by `dh` and padded with zeros to
/// `stride`, in the numbers of the network. Row `i` is row `i % dh` of plane `i / dh`.
pub open spec fn is_image_row(
    r: Seq<F32>,
    src: &ImageRgb,
    dw: int,
    dh: int,
    i: int,
    stride: int,
    net: Network,
) -> bool {
    &&& r.len() == stride
    &&& forall|x: int|
        0 <= x < stride ==> (#[trigger] r[x])@ == if x < dw {
            net.level(
                resize::resampled(
                    src.data@,
                    src.w as int,
                    src.h as int,
                    dw,
                    dh,
                    x,
                    i % dh,
                    2 - i / dh,
                ),
                i / dh,
            )
        } else {
            Val::Fin(0real)
        }
}

/// One row of the planes of an image for a network.
pub fn image_row(
    src: &ImageRgb,
    taps: &Vec<Tap>,
    dh: usize,
    i: usize,
    stride: usize,
    levels: &Levels,
) -> (r: Vec<F32>)
    requires
        src.wf(),
        src.h > 0,
        dh > 0,
        i < 3 * dh,
        taps@.len() <= stride,
        resize::are_taps(taps@, src.w as int),
        levels.wf(),
    ensures
        is_image_row(
            r@,
            src,
            taps@.len() as int,
            dh as int,
            i as int,
            stride as int,
            levels.net,
        ),
{
    let normalize = |v: u8, c: usize| -> (r: F32)
        requires
            c < 3,
            levels.wf(),
        ensures
            r@ == levels.net.level(v, c as int),
        { levels.of(v, c) };
    let r: Vec<F32> = tensor_row(src, taps, dh, i, stride, &normalize);
    proof {
        let (w, h) = (taps@.len() as int, dh as int);
        assert(0 <= i as int / h < 3) by (nonlinear_arith)
            requires
                0 <= i < 3 * h,
                h > 0,
        ;
        assert forall|x: int| 0 <= x < stride implies (#[trigger] r@[x])@ == if x < w {
            levels.net.level(
                resize::resampled(
                    src.data@,
                    src.w as int,
                    src.h as int,
                    w,
                    h,
                    x,
                    i as int % h,
                    2 - i as int / h,
                ),
                i as int / h,
            )
        } else {
            Val::Fin(0real)
        } by {
            assert(tensor::is_cell(r@[x], src, w, h, i as int, x, normalize));
        }
    }
    r
}

/// The rows one after the other.
pub open spec fn are_joined(r: Seq<F32>, rows: Seq<Vec<F32>>, stride: int) -> bool {
    &&& r.len() == rows.len() * stride
    &&& forall|i: int, x: int|
        0 <= i < rows.len() && 0 <= x < stride ==> #[trigger] r[i * stride + x] == rows[i]@[x]
}

/// Puts rows of equal length one after the other.
pub fn join_rows(rows: &Vec<Vec<F32>>, stride: usize) -> (r: Vec<F32>)
    requires
        forall|i: int| 0 <= i < rows@.len() ==> (#[trigger] rows@[i])@.len() == stride,
    ensures
        are_joined(r@, rows@, stride as int),
{
    let ghost s = stride as int;
    let mut out: Vec<F32> = Vec::new();
    let mut i: usize = 0;
    assert(0 * s == 0) by (nonlinear_arith);
    while i < rows.len()
        invariant
            i <= rows@.len(),
            s == stride,
            forall|i: int| 0 <= i < rows@.len() ==> (#[trigger] rows@[i])@.len() == stride,
            are_joined(out@, rows@.take(i as int), s),
        decreases rows@.len() - i,
    {
        let ghost done = out@;
        let mut row: Vec<F32> = rows[i].clone();
        let ghost added = row@;
        assert(added =~= rows@[i as int]@);
        out.append(&mut row);
        proof {
            assert((i + 1) * s == i * s + s) by (nonlinear_arith);
            let more = rows@.take(i + 1);
            assert forall|j: int, x: int|
                0 <= j < more.len() && 0 <= x < s implies #[trigger] out@[j * s + x]
                == more[j]@[x] by {
                if j < i {
                    assert(0 <= j * s + x < i * s) by (nonlinear_arith)
                        requires
                            0 <= j < i,
                            0 <= x < s,
                    ;
                    assert(rows@.take(i as int)[j] == more[j]);
                    assert(done[j * s + x] == more[j]@[x]);
                }
            }
        }
        i = i + 1;
    }
    assert(rows@.take(i as int) =~= rows@);
    out
}

// ---- laws ----

/// The rows of an image, made one by one by whichever threads and put one after the
/// other, are its planes.
pub proof fn law_joined_rows_hold_the_image(
    r: Seq<F32>,
    rows: Seq<Vec<F32>>,
    src: &ImageRgb,
    dw: int,
    dh: int,
    stride: int,
    net: Network,
)
    requires
        0 <= dh,
        rows.len() == 3 * dh,
        forall|i: int|
            0 <= i < rows.len() ==> is_image_row(
                #[trigger] rows[i]@,
                src,
                dw,
                dh,
                i,
                stride,
                net,
            ),
        are_joined(r, rows, stride),
    ensures
        holds_image(r, 0, src, dw, dh, stride, net),
{
    assert forall|c: int, y: int, x: int| 0 <= c < 3 && 0 <= y < dh && 0 <= x < stride implies (
    #[trigger] r[0 + at_cell(c, y, x, dh, stride)])@ == if x < dw {
        net.level(
            resize::resampled(src.data@, src.w as int, src.h as int, dw, dh, x, y, 2 - c),
            c,
        )
    } else {
        Val::Fin(0real)
    } by {
        let i = c * dh + y;
        assert(0 <= i < 3 * dh && i / dh == c && i % dh == y) by (nonlinear_arith)
            requires
                i == c * dh + y,
                0 <= c < 3,
                0 <= y < dh,
        ;
        assert(is_image_row(rows[i]@, src, dw, dh, i, stride, net));
        assert(r[i * stride + x] == rows[i]@[x]);
        assert(0 + at_cell(c, y, x, dh, stride) == i * stride + x);
    }
}

/// The recognizer's numbers lie between -1, that of the least byte, and 1, that of
/// the greatest.
pub proof fn law_recognizer_levels_are_within_one(v: u8, c: int) -> (y: real)
    ensures
        Network::Recognizer.level(v, c) == Val::Fin(y),
        -1real <= y <= 1real,
        v == 0 ==> y == -1real,
        v == 255 ==> y == 1real,
{
    reveal(Network::level);
    let f = Format::Single;
    let (one, two) = (model::two_pow(0), model::two_pow(-1));
    assert(one == 1real && two == 1real / 2real);
    let x = v as real / 255real;
    assert(0real <= x <= 1real);
    let a = bounds::lemma_stays_within(f, x, 0);
    let b = bounds::lemma_stays_within(f, a + -(1real / 2real), -1);
    let t = b / (1real / 2real);
    assert(t == 2real * b) by (nonlinear_arith)
        requires
            t == b / (1real / 2real),
    ;
    let y = bounds::lemma_stays_within(f, t, 0);
    if v == 0 {
        bounds::lemma_whole(f, 0);
        bounds::lemma_half(f, -1);
        bounds::lemma_whole(f, -1);
        assert((-1int) as real / 2real == -(1real / 2real));
        assert((-1int) as real == -1real);
    }
    if v == 255 {
        bounds::lemma_whole(f, 1);
        bounds::lemma_half(f, 1);
    }
    y
}

/// The number of a positive single, from its two fields.
pub proof fn lemma_single_value(bits: u32, field: int, frac: int, down: nat)
    requires
        bits == field * 0x80_0000 + frac,
        0 < field < 255,
        0 <= frac < 0x80_0000,
        down == 150 - field,
        down == 25 || down == 26,
    ensures
        (F32 { bits })@ == Val::Fin(
            (0x80_0000 + frac) as real / (if down == 25 {
                0x200_0000real
            } else {
                0x400_0000real
            }),
        ),
{
    let n = bits as int;
    vstd::arithmetic::div_mod::lemma_fundamental_div_mod_converse(n, 0x80_0000, field, frac);
    assert(n % 0x80_0000 == frac && (n / 0x80_0000) % 256 == field);
    model::lemma_two_pow_nat(down);
    model::lemma_two_pow_add(down as int, -down);
    vstd::arithmetic::power2::lemma2_to64();
    let (up, p) = (model::two_pow(down as int), model::two_pow(-down));
    assert(model::two_pow(0) == 1real);
    let m = (0x80_0000 + frac) as real;
    assert(m * p == m / up) by (nonlinear_arith)
        requires
            up * p == 1real,
            up > 0real,
    ;
}

/// The mean and the deviation of the detector's training images in plane `c`, in
/// thousandths.
pub open spec fn det_thousandths(c: int) -> (real, real) {
    if c == 0 {
        (485real, 229real)
    } else if c == 1 {
        (456real, 224real)
    } else {
        (406real, 225real)
    }
}

proof fn lemma_mean_and_std(c: int) -> (r: (real, real))
    requires
        0 <= c < 3,
    ensures
        det_mean(c)@ == Val::Fin(r.0),
        det_std(c)@ == Val::Fin(r.1),
        -1real / 10000000real <= r.0 - det_thousandths(c).0 / 1000real <= 1real / 10000000real,
        -1real / 10000000real <= r.1 - det_thousandths(c).1 / 1000real <= 1real / 10000000real,
{
    if c == 0 {
        lemma_single_value(0x3ef8_51ec, 125, 0x78_51ec, 25);
        lemma_single_value(0x3e6a_7efa, 124, 0x6a_7efa, 26);
    } else if c == 1 {
        lemma_single_value(0x3ee9_78d5, 125, 0x69_78d5, 25);
        lemma_single_value(0x3e65_6042, 124, 0x65_6042, 26);
    } else {
        lemma_single_value(0x3ecf_df3b, 125, 0x4f_df3b, 25);
        lemma_single_value(0x3e66_6666, 124, 0x66_6666, 26);
    }
    (det_mean(c)@->Fin_0, det_std(c)@->Fin_0)
}

/// The share of a byte in a deviation, in singles and exactly.
proof fn lemma_factor(v: real, std: real) -> (r: (real, real))
    requires
        0real <= v <= 255real,
        1real / 5real <= std <= 1real / 4real,
    ensures
        Val::Fin(1real).over(
            Val::Fin(255real).times(Val::Fin(std), Format::Single),
            Format::Single,
        ) == Val::Fin(r.0),
        Val::Fin(v).times(Val::Fin(r.0), Format::Single) == Val::Fin(r.1),
        0real <= r.1 <= 8real,
        -1real / 1000000real <= std * r.1 - v / 255real <= 1real / 1000000real,
{
    let whole = 255real * std;
    let a = bounds::lemma_single_error(whole);
    let q = 1real / a;
    assert(51real - 1real / 10000real <= a <= 64real);
    assert(a * q == 1real && 0real < q <= 1real / 50real) by (nonlinear_arith)
        requires
            a >= 50real,
            q == 1real / a,
    ;
    let f = bounds::lemma_single_error(q);
    let e = f - q;
    assert(-1real / 500000000real <= e <= 1real / 500000000real);
    assert(f <= 3real / 100real);
    resize::lemma_product_bound(v, f, 255real, 3real / 100real);
    assert(v * f >= 0real) by (nonlinear_arith)
        requires
            v >= 0real,
            f >= 0real,
    ;
    let p = bounds::lemma_single_error(v * f);
    let g = p - v * f;
    assert(-1real / 2000000real <= g <= 1real / 2000000real);
    resize::lemma_product_bound(std, g, 1real / 4real, 1real / 2000000real);
    let vs = v * std;
    resize::lemma_product_bound(v, std, 255real, 1real / 4real);
    resize::lemma_product_bound(vs, e, 64real, 1real / 500000000real);
    assert(std * p == vs * q + vs * e + std * g) by (nonlinear_arith)
        requires
            vs == v * std,
            g == p - v * f,
            e == f - q,
    ;
    let d = whole - a;
    assert(-1real / 200000real <= d <= 1real / 200000real);
    let vq = v * q / 255real;
    assert(0real <= vq <= 1real / 50real) by (nonlinear_arith)
        requires
            vq == v * q / 255real,
            0real <= v <= 255real,
            0real < q <= 1real / 50real,
    ;
    resize::lemma_product_bound(vq, d, 1real / 50real, 1real / 200000real);
    assert(vs * q == v / 255real + vq * d) by (nonlinear_arith)
        requires
            vs == v * std,
            vq == v * q / 255real,
            d == 255real * std - a,
            a * q == 1real,
    ;
    (f, p)
}

/// The detector's numbers, brought back by the mean and the deviation of their plane,
/// are the bytes from zero to one.
proof fn lemma_detector_level(v: u8, c: int) -> (y: real)
    requires
        0 <= c < 3,
    ensures
        Network::Detector.level(v, c) == Val::Fin(y),
        -1real / 100000real <= det_thousandths(c).1 / 1000real * y + det_thousandths(c).0 / 1000real
            - v as real / 255real <= 1real / 100000real,
{
    reveal(Network::level);
    let (mean, std) = lemma_mean_and_std(c);
    let (f, p) = lemma_factor(v as real, std);
    let q = -mean / std;
    assert(q * std == -mean && -3real <= q <= 0real) by (nonlinear_arith)
        requires
            q == -mean / std,
            1real / 5real <= std,
            0real <= mean <= 1real / 2real,
    ;
    let o = bounds::lemma_single_error(q);
    let y = bounds::lemma_single_error(p + o);
    let e = y - p - q;
    assert(-1real / 1000000real <= e <= 1real / 1000000real);
    assert(-12real <= y <= 12real);
    resize::lemma_product_bound(std, e, 1real / 4real, 1real / 1000000real);
    assert(std * y == std * p - mean + std * e) by (nonlinear_arith)
        requires
            e == y - p - q,
            q * std == -mean,
    ;
    let s = det_thousandths(c).1 / 1000real;
    resize::lemma_product_bound(s - std, y, 1real / 10000000real, 12real);
    assert(s * y == std * y + (s - std) * y) by (nonlinear_arith);
    y
}

proof fn lemma_recognizer_level(v: u8, c: int) -> (y: real)
    ensures
        Network::Recognizer.level(v, c) == Val::Fin(y),
        -1real / 100000real <= y - (2real * v as real / 255real - 1real) <= 1real / 100000real,
{
    reveal(Network::level);
    let x = v as real / 255real;
    let a = bounds::lemma_single_error(x);
    let b = bounds::lemma_single_error(a + -(1real / 2real));
    let t = b / (1real / 2real);
    assert(t == 2real * b) by (nonlinear_arith)
        requires
            t == b / (1real / 2real),
    ;
    bounds::lemma_single_error(t)
}

/// The number that a network gets for byte `v` of plane `c`: for the recognizer the
/// byte from -1 to 1, for the detector the byte from zero to one, less the mean, by
/// the deviation.
pub proof fn law_levels_are_normalized(
    net: Network,
    levels: Levels,
    v: u8,
    c: usize,
    r: F32,
) -> (y: real)
    requires
        call_ensures(Levels::new, (net,), levels),
        call_ensures(Levels::of, (&levels, v, c), r),
        c < 3,
    ensures
        r@ == Val::Fin(y),
        is_level(net, y, v as real, c as int, 1real / 100000real),
{
    match net {
        Network::Recognizer => lemma_recognizer_level(v, c as int),
        Network::Detector => lemma_detector_level(v, c as int),
    }
}

/// `y` is the network's number for brightness `v`, from 0 to 255, in plane `c`, to
/// within `e`.
pub open spec fn is_level(net: Network, y: real, v: real, c: int, e: real) -> bool {
    match net {
        Network::Recognizer => -e <= y - (2real * v / 255real - 1real) <= e,
        Network::Detector => -e <= det_thousandths(c).1 / 1000real * y + det_thousandths(c).0
            / 1000real - v / 255real <= e,
    }
}

/// `v` is the network's number, in plane `c`, for a byte that is within `slack` of the
/// brightness `exact`.
pub open spec fn is_sample(net: Network, v: Val, exact: real, slack: real, c: int) -> bool {
    exists|b: u8| #[trigger] is_byte_near(b, exact, slack) && (v matches Val::Fin(y) && is_level(
        net,
        y,
        b as real,
        c,
        1real / 100000real,
    ))
}

pub open spec fn is_byte_near(b: u8, exact: real, slack: real) -> bool {
    -slack <= b as real - exact <= slack
}

pub proof fn lemma_is_sample(net: Network, b: u8, exact: real, slack: real, c: int)
    requires
        0 <= c < 3,
        -slack <= b as real - exact <= slack,
    ensures
        is_sample(net, net.level(b, c), exact, slack, c),
{
    assert(is_byte_near(b, exact, slack));
    match net {
        Network::Recognizer => {
            lemma_recognizer_level(b, c);
        },
        Network::Detector => {
            lemma_detector_level(b, c);
        },
    }
}

/// A row of a network's input is a row of the image, read bilinearly at the new width
/// and height, in the network's numbers, and zero behind the image. The rows of plane
/// `c` are those of channel `2 - c`.
pub proof fn law_image_row_is_normalized(
    net: Network,
    levels: Levels,
    src: &ImageRgb,
    taps: Vec<Tap>,
    dw: usize,
    dh: usize,
    i: usize,
    stride: usize,
    r: Vec<F32>,
    c: int,
    y: int,
    x: int,
)
    requires
        call_ensures(Levels::new, (net,), levels),
        call_ensures(resize::column_taps, (src.w, dw), taps),
        call_ensures(image_row, (src, &taps, dh, i, stride, &levels), r),
        i == c * dh + y,
        0 <= c < 3,
        0 <= y < dh <= 0x1_0000,
        0 < dw <= 0x1_0000,
        0 < src.w <= 0x1_0000,
        0 < src.h <= 0x1_0000,
        0 <= x < stride,
    ensures
        r@.len() == stride,
        x >= dw ==> r@[x]@ == Val::Fin(0real),
        x < dw ==> is_sample(
            net,
            r@[x]@,
            resize::bilinear(
                src.data@,
                src.w as int,
                src.h as int,
                dw as int,
                dh as int,
                x,
                y,
                2 - c,
            ),
            resize::slack(src.w as int, src.h as int),
            c,
        ),
{
    let (sw, sh, w, h) = (src.w as int, src.h as int, dw as int, dh as int);
    vstd::arithmetic::div_mod::lemma_fundamental_div_mod_converse(i as int, h, c, y);
    if x < dw {
        resize::law_resampled_is_bilinear(src.data@, sw, sh, w, h, x, y, 2 - c);
        lemma_is_sample(
            net,
            resize::resampled(src.data@, sw, sh, w, h, x, y, 2 - c),
            resize::bilinear(src.data@, sw, sh, w, h, x, y, 2 - c),
            resize::slack(sw, sh),
            c,
        );
    }
}

/// The rows stand one after the other: number `x` of row `i` is number
/// `i * stride + x` of all.
pub proof fn law_rows_are_joined(
    rows: &Vec<Vec<F32>>,
    stride: usize,
    r: Vec<F32>,
    i: int,
    x: int,
)
    requires
        call_ensures(join_rows, (rows, stride), r),
        0 <= i < rows@.len(),
        0 <= x < stride,
    ensures
        r@.len() == rows@.len() * stride,
        r@[i * stride + x] == rows@[i]@[x],
{
}

} // verus!
