//! The planes that the networks take: a resized image, each byte brought to the
//! network's range, each row padded with zeros.

use crate::float::model::Val;
use crate::float::F32;
use crate::resize;
use crate::resize::{column_taps, sample, tap_at, ImageRgb, Tap};
use vstd::prelude::*;

verus! {

/// What stands in column `x` of row `i` of the planes of an image resized to
/// `dw` by `dh`: the outcome of `normalize` on the resized byte, or zero in the
/// padding. Row `i` is row `i % dh` of plane `i / dh`.
pub open spec fn is_cell<F: Fn(u8, usize) -> F32>(
    r: F32,
    src: &ImageRgb,
    dw: int,
    dh: int,
    i: int,
    x: int,
    normalize: F,
) -> bool {
    if x < dw {
        let plane = i / dh;
        let byte = resize::resampled(
            src.data@,
            src.w as int,
            src.h as int,
            dw,
            dh,
            x,
            i % dh,
            2 - plane,
        );
        call_ensures(normalize, (byte, plane as usize), r)
    } else {
        r@ == Val::Fin(0real)
    }
}

/// Row `i` of the planes.
pub open spec fn is_tensor_row<F: Fn(u8, usize) -> F32>(
    r: Seq<F32>,
    src: &ImageRgb,
    dw: int,
    dh: int,
    i: int,
    stride: int,
    normalize: F,
) -> bool {
    &&& r.len() == stride
    &&& forall|x: int|
        0 <= x < stride ==> is_cell(#[trigger] r[x], src, dw, dh, i, x, normalize)
}

/// The three planes, row after row.
pub open spec fn is_tensor<F: Fn(u8, usize) -> F32>(
    r: Seq<F32>,
    src: &ImageRgb,
    dw: int,
    dh: int,
    stride: int,
    normalize: F,
) -> bool {
    &&& r.len() == 3 * dh * stride
    &&& forall|i: int|
        0 <= i < 3 * dh ==> is_tensor_row(
            #[trigger] r.subrange(i * stride, (i + 1) * stride),
            src,
            dw,
            dh,
            i,
            stride,
            normalize,
        )
}

/// Row `i` of the planes of an image resized to `taps.len()` by `dh`.
pub fn tensor_row<F: Fn(u8, usize) -> F32>(
    src: &ImageRgb,
    taps: &Vec<Tap>,
    dh: usize,
    i: usize,
    stride: usize,
    normalize: &F,
) -> (r: Vec<F32>)
    requires
        src.wf(),
        src.h > 0,
        dh > 0,
        i < 3 * dh,
        taps@.len() <= stride,
        resize::are_taps(taps@, src.w as int),
        forall|v: u8, c: usize| c < 3 ==> #[trigger] call_requires(*normalize, (v, c)),
    ensures
        is_tensor_row(
            r@,
            src,
            taps@.len() as int,
            dh as int,
            i as int,
            stride as int,
            *normalize,
        ),
{
    let plane: usize = i / dh;
    let y: usize = i % dh;
    proof {
        assert(i / dh < 3) by (nonlinear_arith)
            requires
                i < 3 * dh,
                dh > 0,
        ;
    }
    let row: Tap = tap_at(src.h, dh, y);
    let dw: usize = taps.len();
    let mut out: Vec<F32> = Vec::new();
    let mut x: usize = 0;
    while x < stride
        invariant
            x <= stride,
            src.wf(),
            dw == taps@.len(),
            dw <= stride,
            plane < 3,
            plane == i / dh,
            y == i % dh,
            row.is_at(src.h as int, dh as int, y as int),
            row.lo < src.h,
            row.hi < src.h,
            resize::are_taps(taps@, src.w as int),
            forall|v: u8, c: usize| c < 3 ==> #[trigger] call_requires(*normalize, (v, c)),
            out@.len() == x,
            forall|k: int|
                0 <= k < x ==> is_cell(
                    #[trigger] out@[k],
                    src,
                    dw as int,
                    dh as int,
                    i as int,
                    k,
                    *normalize,
                ),
        decreases stride - x,
    {
        if x < dw {
            let byte: u8 = sample(
                src.data.as_slice(),
                src.w,
                src.h,
                &taps[x],
                &row,
                2 - plane,
                Ghost((dw as int, dh as int)),
                Ghost((x as int, y as int)),
            );
            out.push(normalize(byte, plane));
        } else {
            out.push(F32::from_u16(0));
        }
        x = x + 1;
    }
    out
}

fn copy_row(row: &Vec<F32>, out: &mut Vec<F32>, at: usize)
    requires
        at + row@.len() <= old(out)@.len(),
    ensures
        final(out)@.len() == old(out)@.len(),
        final(out)@.subrange(at as int, at + row@.len()) == row@,
        forall|k: int|
            0 <= k < old(out)@.len() && !(at <= k < at + row@.len())
                ==> #[trigger] final(out)@[k] == old(out)@[k],
{
    let ghost before = out@;
    let size: usize = out.len();
    let mut x: usize = 0;
    while x < row.len()
        invariant
            x <= row@.len(),
            size == before.len(),
            out@.len() == size,
            at + row@.len() <= size,
            forall|k: int| at <= k < at + x ==> #[trigger] out@[k] == row@[k - at],
            forall|k: int|
                0 <= k < size && !(at <= k < at + x) ==> #[trigger] out@[k] == before[k],
        decreases row@.len() - x,
    {
        out.set(at + x, row[x]);
        x = x + 1;
    }
    proof {
        assert(out@.subrange(at as int, at + row@.len()) =~= row@);
    }
}

/// Writes the planes of `src`, resized to `dw` by `dh`, into `out` from `base`
/// on: every cell of the planes, padding too, and no other.
pub(crate) fn fill_planes<F: Fn(u8, usize) -> F32>(
    src: &ImageRgb,
    dw: usize,
    dh: usize,
    stride: usize,
    out: &mut Vec<F32>,
    base: usize,
    normalize: &F,
)
    requires
        src.wf(),
        dw == 0 || src.w > 0,
        dh == 0 || src.h > 0,
        0 < stride,
        dw <= stride,
        base + 3 * dh * stride <= old(out)@.len(),
        forall|v: u8, c: usize| c < 3 ==> #[trigger] call_requires(*normalize, (v, c)),
    ensures
        final(out)@.len() == old(out)@.len(),
        is_tensor(
            final(out)@.subrange(base as int, base + 3 * dh * stride),
            src,
            dw as int,
            dh as int,
            stride as int,
            *normalize,
        ),
        forall|k: int|
            0 <= k < old(out)@.len() && !(base <= k < base + 3 * dh * stride)
                ==> #[trigger] final(out)@[k] == old(out)@[k],
{
    let taps: Vec<Tap> = column_taps(src.w, dw);
    let size: usize = out.len();
    let ghost before = out@;
    let ghost s = stride as int;
    let ghost rows = 3 * dh;
    let mut i: usize = 0;
    let mut at: usize = base;
    proof {
        assert(3 * dh <= 3 * dh * stride) by (nonlinear_arith)
            requires
                stride > 0,
                dh >= 0,
        ;
        assert(0 * s == 0) by (nonlinear_arith);
    }
    while i < 3 * dh
        invariant
            src.wf(),
            dw == 0 || src.w > 0,
            dh == 0 || src.h > 0,
            s == stride,
            rows == 3 * dh,
            i <= rows,
            dw <= stride,
            taps@.len() == dw,
            resize::are_taps(taps@, src.w as int),
            out@.len() == size,
            before.len() == size,
            rows <= size,
            base + rows * s <= size,
            at == base + i * s,
            forall|v: u8, c: usize| c < 3 ==> #[trigger] call_requires(*normalize, (v, c)),
            forall|j: int|
                0 <= j < i ==> is_tensor_row(
                    #[trigger] out@.subrange(base + j * s, base + (j + 1) * s),
                    src,
                    dw as int,
                    dh as int,
                    j,
                    s,
                    *normalize,
                ),
            forall|k: int|
                0 <= k < size && !(base <= k < at) ==> #[trigger] out@[k] == before[k],
        decreases rows - i,
    {
        let ghost older = out@;
        let row: Vec<F32> = tensor_row(src, &taps, dh, i, stride, normalize);
        proof {
            assert((i + 1) * s == i * s + s && (i + 1) * s <= rows * s) by (nonlinear_arith)
                requires
                    0 <= i < rows,
                    s >= 0,
            ;
        }
        copy_row(&row, out, at);
        proof {
            assert forall|j: int| 0 <= j < i + 1 implies is_tensor_row(
                #[trigger] out@.subrange(base + j * s, base + (j + 1) * s),
                src,
                dw as int,
                dh as int,
                j,
                s,
                *normalize,
            ) by {
                if j == i {
                    assert(out@.subrange(base + j * s, base + (j + 1) * s) =~= row@);
                } else {
                    assert(0 <= j * s && j * s <= (j + 1) * s && (j + 1) * s <= i * s)
                        by (nonlinear_arith)
                        requires
                            0 <= j < i,
                            s >= 0,
                    ;
                    assert(out@.subrange(base + j * s, base + (j + 1) * s) =~= older.subrange(
                        base + j * s,
                        base + (j + 1) * s,
                    ));
                }
            }
        }
        at = at + stride;
        i = i + 1;
    }
    proof {
        let done = out@.subrange(base as int, base + 3 * dh * stride);
        assert(rows * s == 3 * dh * stride);
        assert forall|j: int| 0 <= j < 3 * dh implies is_tensor_row(
            #[trigger] done.subrange(j * s, (j + 1) * s),
            src,
            dw as int,
            dh as int,
            j,
            s,
            *normalize,
        ) by {
            assert(0 <= j * s <= (j + 1) * s <= rows * s) by (nonlinear_arith)
                requires
                    0 <= j < rows,
                    s >= 0,
            ;
            assert(done.subrange(j * s, (j + 1) * s) =~= out@.subrange(
                base + j * s,
                base + (j + 1) * s,
            ));
        }
    }
}

/// Writes the planes of `src`, resized to `dw` by `dh` and padded to `stride`,
/// into `out`: every cell of it, so that nothing stays of what was there.
pub fn resize_to_tensor<F: Fn(u8, usize) -> F32>(
    src: &ImageRgb,
    dw: usize,
    dh: usize,
    stride: usize,
    out: &mut Vec<F32>,
    normalize: F,
)
    requires
        src.wf(),
        dw == 0 || src.w > 0,
        dh == 0 || src.h > 0,
        0 < stride,
        dw <= stride,
        old(out)@.len() == 3 * dh * stride,
        forall|v: u8, c: usize| c < 3 ==> #[trigger] call_requires(normalize, (v, c)),
    ensures
        is_tensor(final(out)@, src, dw as int, dh as int, stride as int, normalize),
{
    fill_planes(src, dw, dh, stride, out, 0, &normalize);
    proof {
        assert(out@.subrange(0, 3 * dh * stride) =~= out@);
    }
}

/// The planes hold the resized image: the cell of plane `c`, row `y` and column
/// `x` is the outcome of `normalize` on channel `2 - c` of the resized pixel,
/// and zero in the padding.
pub proof fn law_tensor_matches_resize<F: Fn(u8, usize) -> F32>(
    t: Seq<F32>,
    r: Seq<u8>,
    src: &ImageRgb,
    dw: int,
    dh: int,
    stride: int,
    normalize: F,
    c: int,
    y: int,
    x: int,
)
    requires
        is_tensor(t, src, dw, dh, stride, normalize),
        resize::is_resized(r, src.data@, src.w as int, src.h as int, dw, dh),
        src.w == dw && src.h == dh ==> dw <= 0x80_0000 && dh <= 0x80_0000,
        0 <= c < 3,
        0 <= y < dh,
        0 <= x < stride,
    ensures
        x < dw ==> call_ensures(
            normalize,
            (resize::channel(r, dw, x, y, 2 - c), c as usize),
            t[(c * dh + y) * stride + x],
        ),
        x >= dw ==> t[(c * dh + y) * stride + x]@ == Val::Fin(0real),
{
    let i = c * dh + y;
    assert(0 <= i < 3 * dh && i / dh == c && i % dh == y && 0 <= i * stride && (i + 1) * stride == i
        * stride + stride && (i + 1) * stride <= 3 * dh * stride) by (nonlinear_arith)
        requires
            i == c * dh + y,
            0 <= c < 3,
            0 <= y < dh,
            0 < stride,
    ;
    let row = t.subrange(i * stride, (i + 1) * stride);
    assert(is_tensor_row(row, src, dw, dh, i, stride, normalize));
    assert(row[x] == t[i * stride + x]);
    if x < dw {
        resize::law_resized_is_resampled(
            r,
            src.data@,
            src.w as int,
            src.h as int,
            dw,
            dh,
            x,
            y,
            2 - c,
        );
    }
}

} // verus!
