//! Recognition: the width at which each crop is read, and the tensor of a batch
//! of crops.

use crate::detect;
use crate::float::bounds;
use crate::float::model;
use crate::float::model::{Format, Val};
use crate::float::{F32, F64};
use crate::levels;
use crate::levels::{fill_image, Levels, Network};
use crate::plan;
use crate::resize;
use crate::resize::ImageRgb;
use vstd::prelude::*;

verus! {

/// Height of the recognizer's input.
pub const REC_H: usize = 48;

/// Greatest width of the recognizer's input.
pub const REC_MAX_W: usize = 3200;

/// A double as an unsigned integer.
pub open spec fn count(v: Val) -> int {
    model::to_int(v, 0, usize::MAX as int)
}

/// The width of a crop of `w` by `h` pixels, brought to the recognizer's height.
pub open spec fn natural_width(w: int, h: int) -> int {
    count(
        detect::num(REC_H as int).times(detect::num(w), Format::Double).over(
            detect::num(h),
            Format::Double,
        ),
    )
}

/// The width at which a crop is read: its natural one, from `min_width` to 3200.
pub open spec fn width_of(w: int, h: int, min_width: int) -> int {
    detect::clamped(natural_width(w, h), min_width, REC_MAX_W as int)
}

fn natural(w: usize, h: usize) -> (r: usize)
    ensures
        r == natural_width(w as int, h as int),
{
    proof {
        bounds::lemma_whole(Format::Double, REC_H as int);
    }
    F64::from_u16(48).times(F64::from_u64(w as u64)).over(F64::from_u64(h as u64)).to_usize()
}

/// The width at which a crop of `w` by `h` pixels is read.
pub fn rec_width(w: usize, h: usize, min_width: usize) -> (r: usize)
    requires
        min_width <= REC_MAX_W,
    ensures
        r == width_of(w as int, h as int, min_width as int),
{
    let n: usize = natural(w, h);
    if n < min_width {
        min_width
    } else if n > REC_MAX_W {
        REC_MAX_W
    } else {
        n
    }
}

/// The width at which crop `i` is read.
pub open spec fn crop_width(crops: Seq<ImageRgb>, i: int, min_width: int) -> int {
    width_of(crops[i].w as int, crops[i].h as int, min_width)
}

/// The widths at which the crops are read.
pub fn rec_widths(crops: &Vec<ImageRgb>, min_width: usize) -> (r: Vec<usize>)
    requires
        min_width <= REC_MAX_W,
    ensures
        r@.len() == crops@.len(),
        forall|i: int|
            0 <= i < crops@.len() ==> #[trigger] r@[i] == crop_width(crops@, i, min_width as int),
{
    let mut out: Vec<usize> = Vec::new();
    let mut i: usize = 0;
    while i < crops.len()
        invariant
            i <= crops@.len(),
            min_width <= REC_MAX_W,
            out@.len() == i,
            forall|k: int|
                0 <= k < i ==> #[trigger] out@[k] == crop_width(crops@, k, min_width as int),
        decreases crops@.len() - i,
    {
        out.push(rec_width(crops[i].w, crops[i].h, min_width));
        i = i + 1;
    }
    out
}

/// The width of a batch: that of its widest crop, `min_width` without any.
pub open spec fn batch_width(crops: Seq<ImageRgb>, idxs: Seq<usize>, min_width: int) -> int
    decreases idxs.len(),
{
    if idxs.len() == 0 {
        min_width
    } else {
        detect::most(
            batch_width(crops, idxs.drop_last(), min_width),
            crop_width(crops, idxs.last() as int, min_width),
        )
    }
}

/// The columns that a crop fills in a batch of width `img_w`: its natural width
/// rounded up, at least one and at most all of them.
pub open spec fn filled_width(w: int, h: int, img_w: int) -> int {
    if img_w >= REC_MAX_W && natural_width(w, h) > REC_MAX_W {
        REC_MAX_W as int
    } else {
        let ratio = detect::num(w).over(detect::num(h), Format::Double);
        let up = count(detect::num(REC_H as int).times(ratio, Format::Double).ceiled());
        detect::most(detect::least(up, img_w), 1)
    }
}

fn fill_width(w: usize, h: usize, img_w: usize) -> (r: usize)
    ensures
        r == filled_width(w as int, h as int, img_w as int),
{
    if img_w >= REC_MAX_W && natural(w, h) > REC_MAX_W {
        REC_MAX_W
    } else {
        proof {
            bounds::lemma_whole(Format::Double, REC_H as int);
        }
        let ratio: F64 = F64::from_u64(w as u64).over(F64::from_u64(h as u64));
        let up: usize = F64::from_u16(48).times(ratio).ceiled().to_usize();
        let kept: usize = if up < img_w {
            up
        } else {
            img_w
        };
        if kept > 1 {
            kept
        } else {
            1
        }
    }
}

fn width_of_batch(crops: &Vec<ImageRgb>, idxs: &Vec<usize>, min_width: usize) -> (r: usize)
    requires
        min_width <= REC_MAX_W,
        forall|k: int| 0 <= k < idxs@.len() ==> (#[trigger] idxs@[k]) < crops@.len(),
    ensures
        r == batch_width(crops@, idxs@, min_width as int),
        r <= REC_MAX_W,
        r >= min_width,
{
    let mut best: usize = min_width;
    let mut k: usize = 0;
    proof {
        assert(idxs@.take(0) =~= Seq::<usize>::empty());
    }
    while k < idxs.len()
        invariant
            k <= idxs@.len(),
            min_width <= REC_MAX_W,
            min_width <= best <= REC_MAX_W,
            best == batch_width(crops@, idxs@.take(k as int), min_width as int),
            forall|k: int| 0 <= k < idxs@.len() ==> (#[trigger] idxs@[k]) < crops@.len(),
        decreases idxs@.len() - k,
    {
        let i: usize = idxs[k];
        let w: usize = rec_width(crops[i].w, crops[i].h, min_width);
        proof {
            assert(idxs@.take(k + 1).drop_last() =~= idxs@.take(k as int));
        }
        if w > best {
            best = w;
        }
        k = k + 1;
    }
    proof {
        assert(idxs@.take(k as int) =~= idxs@);
    }
    best
}

/// A crop that can be read: it has pixels.
pub open spec fn has_pixels(crop: ImageRgb) -> bool {
    crop.wf() && crop.w > 0 && crop.h > 0
}

/// Place `b` of a tensor of width `img_w` holds the planes of its crop.
pub open spec fn holds_crop(
    data: Seq<F32>,
    b: int,
    img_w: int,
    crops: Seq<ImageRgb>,
    idxs: Seq<usize>,
) -> bool {
    let crop = crops[idxs[b] as int];
    levels::holds_image(
        data,
        b * (3 * REC_H * img_w),
        &crop,
        filled_width(crop.w as int, crop.h as int, img_w),
        REC_H as int,
        img_w,
        Network::Recognizer,
    )
}

/// The tensor of a batch: for each crop its planes, at the batch's width.
pub open spec fn is_batch_input(
    data: Seq<F32>,
    img_w: int,
    crops: Seq<ImageRgb>,
    idxs: Seq<usize>,
    min_width: int,
) -> bool {
    &&& img_w == batch_width(crops, idxs, min_width)
    &&& data.len() == idxs.len() * (3 * REC_H * img_w)
    &&& forall|b: int|
        0 <= b < idxs.len() ==> #[trigger] holds_crop(data, b, img_w, crops, idxs)
}

proof fn lemma_image_stays(
    before: Seq<F32>,
    after: Seq<F32>,
    p: int,
    src: &ImageRgb,
    dw: int,
    dh: int,
    stride: int,
    net: Network,
    base: int,
)
    requires
        levels::holds_image(before, p, src, dw, dh, stride, net),
        0 <= p,
        p + 3 * dh * stride <= base,
        after.len() == before.len(),
        forall|k: int| 0 <= k < base ==> #[trigger] after[k] == before[k],
    ensures
        levels::holds_image(after, p, src, dw, dh, stride, net),
{
    assert forall|c: int, y: int, x: int|
        0 <= c < 3 && 0 <= y < dh && 0 <= x < stride implies #[trigger] after[p + levels::at_cell(
        c,
        y,
        x,
        dh,
        stride,
    )] == before[p + levels::at_cell(c, y, x, dh, stride)] by {
        assert(0 <= (c * dh + y) * stride + x < 3 * dh * stride) by (nonlinear_arith)
            requires
                0 <= c < 3,
                0 <= y < dh,
                0 <= x < stride,
        ;
    }
}

/// Fills `data` with the tensor of the crops `idxs` and returns its width. What
/// `data` held before does not matter.
pub fn rec_input(
    crops: &Vec<ImageRgb>,
    idxs: &Vec<usize>,
    min_width: usize,
    levels: &Levels,
    data: &mut Vec<F32>,
) -> (img_w: usize)
    requires
        levels.wf(),
        levels.net == Network::Recognizer,
        min_width <= REC_MAX_W,
        forall|k: int|
            0 <= k < idxs@.len() ==> (#[trigger] idxs@[k]) < crops@.len() && has_pixels(
                crops@[idxs@[k] as int],
            ),
        idxs@.len() > 0 ==> batch_width(crops@, idxs@, min_width as int) > 0,
        idxs@.len() * (3 * REC_H * batch_width(crops@, idxs@, min_width as int)) <= usize::MAX,
    ensures
        is_batch_input(final(data)@, img_w as int, crops@, idxs@, min_width as int),
{
    let img_w: usize = width_of_batch(crops, idxs, min_width);
    let n: usize = idxs.len();
    assert(144 * img_w <= 460800) by (nonlinear_arith)
        requires
            img_w <= 3200,
    ;
    let size: usize = 144 * img_w;
    proof {
        assert(0 <= n * size) by (nonlinear_arith)
            requires
                n >= 0,
                size >= 0,
        ;
    }
    let total: usize = n * size;
    data.resize(total, F32::from_u16(0));
    let mut b: usize = 0;
    let mut base: usize = 0;
    while b < n
        invariant
            n == idxs@.len(),
            b <= n,
            size == 144 * img_w,
            total == n * size,
            base == b * size,
            data@.len() == total,
            img_w == batch_width(crops@, idxs@, min_width as int),
            n > 0 ==> img_w > 0,
            img_w <= REC_MAX_W,
            levels.wf(),
            levels.net == Network::Recognizer,
            forall|k: int|
                0 <= k < idxs@.len() ==> (#[trigger] idxs@[k]) < crops@.len() && has_pixels(
                    crops@[idxs@[k] as int],
                ),
            forall|k: int|
                0 <= k < b ==> #[trigger] holds_crop(data@, k, img_w as int, crops@, idxs@),
        decreases n - b,
    {
        let i: usize = idxs[b];
        let dw: usize = fill_width(crops[i].w, crops[i].h, img_w);
        proof {
            assert((b + 1) * size == b * size + size && (b + 1) * size <= n * size)
                by (nonlinear_arith)
                requires
                    b < n,
                    size >= 0,
            ;
        }
        let ghost before = data@;
        fill_image(&crops[i], dw, 48, img_w, data, base, levels);
        proof {
            assert forall|k: int| 0 <= k < b + 1 implies #[trigger] holds_crop(
                data@,
                k,
                img_w as int,
                crops@,
                idxs@,
            ) by {
                if k < b {
                    let crop = crops@[idxs@[k] as int];
                    assert(holds_crop(before, k, img_w as int, crops@, idxs@));
                    assert(0 <= k * size && k * size + size <= b * size) by (nonlinear_arith)
                        requires
                            0 <= k < b,
                            size >= 0,
                    ;
                    lemma_image_stays(
                        before,
                        data@,
                        k * size,
                        &crop,
                        filled_width(crop.w as int, crop.h as int, img_w as int),
                        REC_H as int,
                        img_w as int,
                        Network::Recognizer,
                        base as int,
                    );
                }
            }
        }
        base = base + size;
        b = b + 1;
    }
    img_w
}

// ---- laws ----

/// The width for which a batch is planned is the width at which its tensor is
/// laid out.
pub proof fn law_planned_width_is_laid_out(
    crops: Seq<ImageRgb>,
    idxs: Seq<usize>,
    widths: Seq<usize>,
    min_width: int,
)
    requires
        idxs.len() > 0,
        0 <= min_width <= REC_MAX_W,
        widths.len() == crops.len(),
        forall|i: int|
            0 <= i < crops.len() ==> #[trigger] widths[i] == crop_width(crops, i, min_width),
        forall|k: int| 0 <= k < idxs.len() ==> (#[trigger] idxs[k]) < crops.len(),
    ensures
        batch_width(crops, idxs, min_width) == plan::widest(idxs, widths),
    decreases idxs.len(),
{
    let rest = idxs.drop_last();
    let last = idxs.last() as int;
    assert(widths[last] == crop_width(crops, last, min_width));
    if rest.len() > 0 {
        assert forall|k: int| 0 <= k < rest.len() implies (#[trigger] rest[k]) < crops.len() by {
            assert(rest[k] == idxs[k]);
        }
        law_planned_width_is_laid_out(crops, rest, widths, min_width);
    }
}

proof fn lemma_floor_of_quotient(a: int, h: int, x: real, y: real)
    requires
        0 <= a < 0x20_0000_0000_0000,
        0 < h <= 0x1_0000_0000_0000_0000,
        x == a as real / h as real,
        bounds::abs(y - x) <= x / 0x20_0000_0000_0000int as real + 1real
            / 0x1_0000_0000_0000_0000_0000_0000_0000_0000int as real,
        a % h != 0,
    ensures
        y.floor() == a / h,
        y >= 0real,
{
    let q = a / h;
    let r = a % h;
    assert(a == q * h + r && 0 < r < h && q >= 0) by (nonlinear_arith)
        requires
            q == a / h,
            r == a % h,
            0 <= a,
            h > 0,
            r != 0,
    ;
    let big = 0x20_0000_0000_0000int as real;
    let huge = 0x1_0000_0000_0000_0000_0000_0000_0000_0000int as real;
    let hr = h as real;
    let e = x / big + 1real / huge;
    // scaled by h, the quotient keeps one unit from the integers around it
    assert(hr * x == a as real) by (nonlinear_arith)
        requires
            x == a as real / hr,
            hr > 0real,
    ;
    assert(hr * e < 1real) by (nonlinear_arith)
        requires
            hr * x == a as real,
            e == x / big + 1real / huge,
            a <= 0x1f_ffff_ffff_ffff,
            big == 0x20_0000_0000_0000int as real,
            huge == 0x1_0000_0000_0000_0000_0000_0000_0000_0000int as real,
            0real < hr <= 0x1_0000_0000_0000_0000int as real,
    ;
    model::lemma_real_mul(q, h);
    let (qr, rr) = (q as real, r as real);
    assert(hr * x == qr * hr + rr);
    assert(rr >= 1real && rr <= hr - 1real);
    assert(qr <= y && y < qr + 1real) by (nonlinear_arith)
        requires
            hr * x == qr * hr + rr,
            1real <= rr <= hr - 1real,
            hr * e < 1real,
            x - e <= y <= x + e,
            hr > 0real,
    ;
}

/// The natural width is the exact one, without its fraction, as long as the
/// product fits a double's digits.
pub proof fn law_natural_width_is_exact(w: int, h: int)
    requires
        0 <= w,
        48 * w < 0x20_0000_0000_0000,
        0 < h < 0x20_0000_0000_0000,
        48 * w / h <= usize::MAX,
    ensures
        natural_width(w, h) == 48 * w / h,
{
    let f = Format::Double;
    let a = 48 * w;
    let ar = a as real;
    let hr = h as real;
    bounds::lemma_whole(f, 48);
    bounds::lemma_whole(f, w);
    bounds::lemma_whole(f, h);
    bounds::lemma_whole(f, a);
    assert(48real * w as real == ar);
    bounds::lemma_product(f, 48real, w as real, ar);
    let x = ar / hr;
    assert(x >= 0real && x <= ar) by (nonlinear_arith)
        requires
            x == ar / hr,
            ar >= 0real,
            hr >= 1real,
    ;
    let y = bounds::lemma_double_error(x);
    let q = a / h;
    if a % h == 0 {
        assert(a == q * h && 0 <= q <= a) by (nonlinear_arith)
            requires
                a % h == 0,
                q == a / h,
                h > 0,
                a >= 0,
        ;
        model::lemma_real_mul(q, h);
        let qr = q as real;
        assert(x == qr) by (nonlinear_arith)
            requires
                x == ar / hr,
                ar == qr * hr,
                hr > 0real,
        ;
        bounds::lemma_whole(f, q);
        assert(qr.floor() == q);
    } else {
        lemma_floor_of_quotient(a, h, x, y);
    }
    assert(y.floor() == q && y >= 0real);
    assert(Val::Fin(ar).over(Val::Fin(hr), f) == Val::Fin(y));
}

/// A number nearer to a broken quotient than the integers around it lies strictly
/// between them.
proof fn lemma_between_integers(a: int, h: int, v: real, z: real, e: real)
    requires
        0 <= a,
        0 < h,
        v == a as real / h as real,
        v - e <= z <= v + e,
        h as real * e < 1real,
        a % h != 0,
    ensures
        ((a / h) as real) < z,
        (a / h + 1) as real > z,
{
    let q = a / h;
    let r = a % h;
    assert(a == q * h + r && 0 < r < h) by (nonlinear_arith)
        requires
            q == a / h,
            r == a % h,
            h > 0,
            r != 0,
    ;
    let (hr, qr, rr) = (h as real, q as real, r as real);
    model::lemma_real_mul(q, h);
    assert(hr * v == a as real) by (nonlinear_arith)
        requires
            v == a as real / hr,
            hr > 0real,
    ;
    assert(1real <= rr <= hr - 1real);
    assert(qr < z && z < qr + 1real) by (nonlinear_arith)
        requires
            hr * v == qr * hr + rr,
            1real <= rr <= hr - 1real,
            hr * e < 1real,
            v - e <= z <= v + e,
            hr > 0real,
    ;
}

/// The ceiling of the computed width of a crop is the exact one.
proof fn lemma_exact_ceiling(w: int, h: int)
    requires
        0 <= w,
        48 * w < 0x4_0000_0000_0000,
        0 < h < 0x20_0000_0000_0000,
    ensures
        ({
            let ratio = detect::num(w).over(detect::num(h), Format::Double);
            detect::num(48).times(ratio, Format::Double).ceiled() == Val::Fin(
                ((48 * w + h - 1) / h) as real,
            )
        }),
{
    let f = Format::Double;
    let a = 48 * w;
    let (wr, hr, ar) = (w as real, h as real, a as real);
    bounds::lemma_whole(f, 48);
    bounds::lemma_whole(f, w);
    bounds::lemma_whole(f, h);
    let x = wr / hr;
    let v = ar / hr;
    assert(v == 48real * x && 0real <= x <= wr && hr * v == ar) by (nonlinear_arith)
        requires
            x == wr / hr,
            v == ar / hr,
            ar == 48real * wr,
            hr >= 1real,
            wr >= 0real,
    ;
    let c = (a + h - 1) / h;
    let q = a / h;
    if w == 0 {
        assert(c == 0) by (nonlinear_arith)
            requires
                c == (h - 1) / h,
                h > 0,
        ;
        assert(x == 0real) by (nonlinear_arith)
            requires
                x == 0real / hr,
                hr > 0real,
        ;
        assert(48real * 0real == 0real);
        assert((0real).floor() == 0);
    } else if a % h == 0 {
        assert(a == q * h && 0 < q <= a && c == q) by (nonlinear_arith)
            requires
                a % h == 0,
                q == a / h,
                c == (a + h - 1) / h,
                h > 0,
                a > 0,
        ;
        model::lemma_real_mul(q, h);
        let qr = q as real;
        assert(x == qr / 48real) by (nonlinear_arith)
            requires
                x == wr / hr,
                48real * wr == qr * hr,
                hr > 0real,
        ;
        let r = bounds::lemma_back_from_48(q, x);
        assert(detect::num(48).times(Val::Fin(r), f) == Val::Fin(qr));
        let m = -qr;
        assert(m == (-q) as real);
        assert(m.floor() == -q);
        assert(qr.floor() == q);
    } else {
        let big = 0x20_0000_0000_0000int as real;
        let huge = 0x1_0000_0000_0000_0000_0000_0000_0000_0000int as real;
        let r = bounds::lemma_double_error(x);
        let y = 48real * r;
        let z = bounds::lemma_double_error(y);
        let e = 3real * (v / big) + 100real / huge;
        assert(v - e <= z <= v + e);
        let p = v / big;
        assert(hr * p == ar / big) by (nonlinear_arith)
            requires
                p == v / big,
                hr * v == ar,
                big == 0x20_0000_0000_0000int as real,
        ;
        assert(hr * e == 3real * (hr * p) + hr * (100real / huge)) by (nonlinear_arith)
            requires
                e == 3real * p + 100real / huge,
        ;
        assert(hr * (100real / huge) <= 1real / 8real) by (nonlinear_arith)
            requires
                hr <= 0x20_0000_0000_0000int as real,
                huge == 0x1_0000_0000_0000_0000_0000_0000_0000_0000int as real,
        ;
        assert(ar / big <= 1real / 8real);
        lemma_between_integers(a, h, v, z, e);
        assert(c == q + 1) by (nonlinear_arith)
            requires
                c == (a + h - 1) / h,
                q == a / h,
                a % h != 0,
                h > 0,
                a >= 0,
        ;
        assert(z.floor() == q);
        let m = -z;
        assert((-(q + 1)) as real == -((q + 1) as real));
        assert(m.floor() == -(q + 1));
        assert(detect::num(48).times(Val::Fin(r), f) == Val::Fin(z));
    }
}

/// The columns that a crop fills are its exact natural width rounded up, at least
/// one and at most all of them, as long as the products fit a double's digits.
pub proof fn law_filled_width_is_exact(w: int, h: int, img_w: int)
    requires
        0 <= w,
        48 * w < 0x4_0000_0000_0000,
        0 < h < 0x20_0000_0000_0000,
        0 <= img_w <= REC_MAX_W,
    ensures
        filled_width(w, h, img_w) == detect::most(
            detect::least((48 * w + h - 1) / h, img_w),
            1,
        ),
{
    let a = 48 * w;
    let c = (a + h - 1) / h;
    lemma_exact_ceiling(w, h);
    assert(a / h <= c && 0 <= c) by (nonlinear_arith)
        requires
            c == (a + h - 1) / h,
            h > 0,
            a >= 0,
    ;
    if img_w >= REC_MAX_W && natural_width(w, h) > REC_MAX_W {
        if a / h <= usize::MAX {
            law_natural_width_is_exact(w, h);
        }
        assert(c >= REC_MAX_W);
    } else {
        let x = c as real;
        assert(x.floor() == c);
        assert(x >= 0real);
        let up = count(Val::Fin(x));
        assert(up == detect::least(c, usize::MAX as int));
    }
}

/// `r` is the width of a crop of `w` by `h` pixels at a height of 48, without its
/// fraction, but at least `min_width` and at most 3200.
pub open spec fn is_read_width(r: int, w: int, h: int, min_width: int) -> bool {
    let n = 48 * w / h;
    &&& n < min_width ==> r == min_width
    &&& n > 3200 ==> r == 3200
    &&& min_width <= n <= 3200 ==> r == n
}

pub proof fn lemma_read_width(w: int, h: int, min_width: int)
    requires
        0 <= w < 0x400_0000,
        0 < h < 0x400_0000,
        0 <= min_width <= 3200,
    ensures
        is_read_width(width_of(w, h, min_width), w, h, min_width),
{
    assert(0 <= 48 * w / h <= 48 * w) by (nonlinear_arith)
        requires
            w >= 0,
            h > 0,
    ;
    law_natural_width_is_exact(w, h);
}

/// A crop is read at its width for a height of 48, from `min_width` to 3200.
pub proof fn law_crop_keeps_its_proportions(w: usize, h: usize, min_width: usize, r: usize)
    requires
        call_ensures(rec_width, (w, h, min_width), r),
        w < 0x400_0000,
        0 < h < 0x400_0000,
        min_width <= 3200,
    ensures
        is_read_width(r as int, w as int, h as int, min_width as int),
{
    lemma_read_width(w as int, h as int, min_width as int);
}

/// Every crop has its own width.
pub proof fn law_each_crop_has_its_width(
    crops: &Vec<ImageRgb>,
    min_width: usize,
    r: Vec<usize>,
    i: int,
)
    requires
        call_ensures(rec_widths, (crops, min_width), r),
        0 <= i < crops@.len(),
        crops@[i].w < 0x400_0000,
        0 < crops@[i].h < 0x400_0000,
        min_width <= 3200,
    ensures
        r@.len() == crops@.len(),
        is_read_width(r@[i] as int, crops@[i].w as int, crops@[i].h as int, min_width as int),
{
    assert(r@[i] == crop_width(crops@, i, min_width as int));
    lemma_read_width(crops@[i].w as int, crops@[i].h as int, min_width as int);
}

proof fn lemma_batch_width(crops: Seq<ImageRgb>, idxs: Seq<usize>, min_width: int)
    ensures
        batch_width(crops, idxs, min_width) >= min_width,
        forall|b: int|
            0 <= b < idxs.len() ==> crop_width(crops, #[trigger] idxs[b] as int, min_width)
                <= batch_width(crops, idxs, min_width),
        batch_width(crops, idxs, min_width) == min_width || exists|b: int|
            0 <= b < idxs.len() && crop_width(crops, #[trigger] idxs[b] as int, min_width)
                == batch_width(crops, idxs, min_width),
    decreases idxs.len(),
{
    if idxs.len() > 0 {
        let rest = idxs.drop_last();
        let n = idxs.len() - 1;
        lemma_batch_width(crops, rest, min_width);
        let (less, all) = (
            batch_width(crops, rest, min_width),
            batch_width(crops, idxs, min_width),
        );
        assert forall|b: int| 0 <= b < idxs.len() implies crop_width(
            crops,
            #[trigger] idxs[b] as int,
            min_width,
        ) <= all by {
            if b < n {
                assert(rest[b] == idxs[b]);
            }
        }
        if all == less {
            if all != min_width {
                let b = choose|b: int|
                    0 <= b < rest.len() && crop_width(crops, #[trigger] rest[b] as int, min_width)
                        == less;
                assert(crop_width(crops, idxs[b] as int, min_width) == all);
            }
        } else {
            assert(crop_width(crops, idxs[n] as int, min_width) == all);
        }
    }
}

/// `n` columns hold a crop of `w` by `h` pixels at a height of 48: its width rounded
/// up, at least one and at most `img_w`.
pub open spec fn is_filled(n: int, w: int, h: int, img_w: int) -> bool {
    let up = (48 * w + h - 1) / h;
    &&& up > img_w ==> n == img_w
    &&& up <= 1 ==> n == 1
    &&& 1 <= up <= img_w ==> n == up
}

/// The tensor of a batch is as wide as its widest crop, and no wider unless
/// `min_width` asks for it. Number `((b * 3 + c) * 48 + y) * img_w + x` of it belongs
/// to column `x` of row `y` of plane `c` of crop `b`: in the crop's columns it is the
/// crop, read bilinearly at a height of 48, in the recognizer's numbers, and behind
/// them it is zero.
pub proof fn law_batch_holds_its_crops(
    data: Seq<F32>,
    img_w: int,
    crops: Seq<ImageRgb>,
    idxs: Seq<usize>,
    min_width: int,
    b: int,
    c: int,
    y: int,
    x: int,
) -> (n: int)
    requires
        is_batch_input(data, img_w, crops, idxs, min_width),
        0 <= min_width <= 3200,
        0 < img_w <= 3200,
        0 <= b < idxs.len(),
        forall|k: int|
            0 <= k < idxs.len() ==> 0 < crops[#[trigger] idxs[k] as int].w <= 0x1_0000 && 0
                < crops[idxs[k] as int].h <= 0x1_0000,
        0 <= c < 3,
        0 <= y < 48,
        0 <= x < img_w,
    ensures
        data.len() == idxs.len() * 3 * 48 * img_w,
        img_w == min_width || exists|k: int|
            0 <= k < idxs.len() && is_read_width(
                img_w,
                crops[#[trigger] idxs[k] as int].w as int,
                crops[idxs[k] as int].h as int,
                min_width,
            ),
        exists|r: int|
            #![trigger is_read_width(
                r,
                crops[idxs[b] as int].w as int,
                crops[idxs[b] as int].h as int,
                min_width,
            )]
            r <= img_w && is_read_width(
                r,
                crops[idxs[b] as int].w as int,
                crops[idxs[b] as int].h as int,
                min_width,
            ),
        is_filled(n, crops[idxs[b] as int].w as int, crops[idxs[b] as int].h as int, img_w),
        x >= n ==> data[((b * 3 + c) * 48 + y) * img_w + x]@ == Val::Fin(0real),
        x < n ==> levels::is_sample(
            Network::Recognizer,
            data[((b * 3 + c) * 48 + y) * img_w + x]@,
            resize::bilinear(
                crops[idxs[b] as int].data@,
                crops[idxs[b] as int].w as int,
                crops[idxs[b] as int].h as int,
                n,
                48,
                x,
                y,
                2 - c,
            ),
            resize::slack(crops[idxs[b] as int].w as int, crops[idxs[b] as int].h as int),
            c,
        ),
{
    let i = idxs[b] as int;
    let crop = crops[i];
    let (w, h) = (crop.w as int, crop.h as int);
    lemma_batch_width(crops, idxs, min_width);
    if img_w != min_width {
        let k = choose|k: int|
            0 <= k < idxs.len() && crop_width(crops, #[trigger] idxs[k] as int, min_width) == img_w;
        let other = crops[idxs[k] as int];
        lemma_read_width(other.w as int, other.h as int, min_width);
    }
    assert(0 < crops[idxs[b] as int].w <= 0x1_0000);
    lemma_read_width(w, h, min_width);
    assert(crop_width(crops, i, min_width) <= img_w);
    law_filled_width_is_exact(w, h, img_w);
    let n = filled_width(w, h, img_w);
    let up = (48 * w + h - 1) / h;
    assert(up >= 1) by (nonlinear_arith)
        requires
            up == (48 * w + h - 1) / h,
            w >= 1,
            h >= 1,
    ;
    assert(holds_crop(data, b, img_w, crops, idxs));
    let base = b * (3 * REC_H * img_w);
    let at = levels::at_cell(c, y, x, 48, img_w);
    assert(base + at == ((b * 3 + c) * 48 + y) * img_w + x) by (nonlinear_arith)
        requires
            base == b * (144 * img_w),
            at == (c * 48 + y) * img_w + x,
    ;
    assert(idxs.len() * (3 * 48 * img_w) == idxs.len() * 3 * 48 * img_w) by (nonlinear_arith);
    let cell = data[base + at]@;
    if x < n {
        let byte = resize::resampled(crop.data@, w, h, n, 48, x, y, 2 - c);
        assert(cell == Network::Recognizer.level(byte, c));
        resize::law_resampled_is_bilinear(crop.data@, w, h, n, 48, x, y, 2 - c);
        levels::lemma_is_sample(
            Network::Recognizer,
            byte,
            resize::bilinear(crop.data@, w, h, n, 48, x, y, 2 - c),
            resize::slack(w, h),
            c,
        );
    } else {
        assert(cell == Val::Fin(0real));
    }
    n
}

} // verus!
