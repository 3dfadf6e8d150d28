//! The binary map of the detector's output.

use crate::components;
use crate::components::{component_extrema, Pt};
use crate::float::bounds;
use crate::float::model::{Format, Val};
use crate::float::F32;
use vstd::prelude::*;

verus! {

/// One where a number is above the threshold, zero elsewhere.
pub open spec fn marked(pred: Seq<F32>, thresh: Val) -> Seq<u8> {
    Seq::new(
        pred.len(),
        |i: int|
            if thresh.less(pred[i]@) {
                1u8
            } else {
                0u8
            },
    )
}

/// The bits of a pixel, of those left of it and above it, and of the one between
/// these two, as far as the map has them.
pub open spec fn spread(map: Seq<u8>, w: int, x: int, y: int) -> u8 {
    let own = map[y * w + x];
    let row = if x > 0 {
        own | map[y * w + x - 1]
    } else {
        own
    };
    let up = if y > 0 {
        row | map[(y - 1) * w + x]
    } else {
        row
    };
    if x > 0 && y > 0 {
        up | map[(y - 1) * w + x - 1]
    } else {
        up
    }
}

/// The map of `w` by `h` pixels with every pixel spread to the right and down;
/// what is past the pixels is zero.
pub open spec fn dilated(map: Seq<u8>, w: int, h: int) -> Seq<u8> {
    Seq::new(
        map.len(),
        |k: int|
            if k < w * h {
                spread(map, w, k % w, k / w)
            } else {
                0u8
            },
    )
}

/// The map that the detector's output gives.
pub open spec fn mask(pred: Seq<F32>, thresh: Val, w: int, h: int, dilate: bool) -> Seq<u8> {
    if dilate {
        dilated(marked(pred, thresh), w, h)
    } else {
        marked(pred, thresh)
    }
}

/// Marks the numbers above the threshold.
pub fn threshold(pred: &[F32], thresh: F32) -> (r: Vec<u8>)
    ensures
        r@ == marked(pred@, thresh@),
{
    let mut out: Vec<u8> = Vec::new();
    let n: usize = pred.len();
    let mut i: usize = 0;
    while i < n
        invariant
            i <= n,
            n == pred@.len(),
            out@ =~= marked(pred@, thresh@).take(i as int),
        decreases n - i,
    {
        let v: u8 = if thresh.less(pred[i]) {
            1
        } else {
            0
        };
        out.push(v);
        i = i + 1;
    }
    proof {
        assert(marked(pred@, thresh@).take(i as int) =~= marked(pred@, thresh@));
    }
    out
}

fn spread_at(fg: &[u8], w: usize, h: usize, x: usize, y: usize) -> (r: u8)
    requires
        x < w,
        y < h,
        w * h <= fg@.len(),
    ensures
        r == spread(fg@, w as int, x as int, y as int),
{
    let size: usize = fg.len();
    proof {
        assert(0 <= y * w && y * w + x < w * h && (y >= 1 ==> 0 <= (y - 1) * w && (y - 1) * w + w
            == y * w)) by (nonlinear_arith)
            requires
                x < w,
                y < h,
                y >= 0,
                x >= 0,
        ;
    }
    let at: usize = y * w + x;
    let mut v: u8 = fg[at];
    if x > 0 {
        v = v | fg[at - 1];
    }
    if y > 0 {
        let above: usize = (y - 1) * w + x;
        v = v | fg[above];
        if x > 0 {
            v = v | fg[above - 1];
        }
    }
    v
}

/// Spreads every pixel of a map of `w` by `h` pixels to the right and down, so
/// that it covers two by two.
pub fn dilate_2x2(fg: &[u8], w: usize, h: usize) -> (r: Vec<u8>)
    requires
        w * h <= fg@.len(),
    ensures
        r@ == dilated(fg@, w as int, h as int),
{
    let size: usize = fg.len();
    let ghost goal = dilated(fg@, w as int, h as int);
    let mut out: Vec<u8> = Vec::new();
    let mut y: usize = 0;
    while y < h && w > 0
        invariant
            y <= h,
            w * h <= size,
            size == fg@.len(),
            goal == dilated(fg@, w as int, h as int),
            out@.len() == y * w,
            out@ =~= goal.take(y * w),
        decreases h - y,
    {
        let mut x: usize = 0;
        while x < w
            invariant
                x <= w,
                y < h,
                w * h <= size,
                size == fg@.len(),
                goal == dilated(fg@, w as int, h as int),
                out@.len() == y * w + x,
                out@ =~= goal.take(y * w + x),
            decreases w - x,
        {
            let ghost k = y * w + x;
            proof {
                assert(0 <= k < w * h && k % (w as int) == x && k / (w as int) == y)
                    by (nonlinear_arith)
                    requires
                        k == y * w + x,
                        0 <= x < w,
                        0 <= y < h,
                ;
                assert(goal[k] == spread(fg@, w as int, x as int, y as int));
            }
            out.push(spread_at(fg, w, h, x, y));
            x = x + 1;
        }
        proof {
            assert((y + 1) * w == y * w + w) by (nonlinear_arith);
        }
        y = y + 1;
    }
    proof {
        if w > 0 {
            assert(h * w == w * h) by (nonlinear_arith);
        } else {
            assert(w * h == 0 && y * w == 0) by (nonlinear_arith)
                requires
                    w == 0,
            ;
        }
    }
    while out.len() < size
        invariant
            w * h <= out@.len() <= size,
            size == fg@.len(),
            goal == dilated(fg@, w as int, h as int),
            out@ =~= goal.take(out@.len() as int),
        decreases size - out@.len(),
    {
        out.push(0);
    }
    proof {
        assert(goal.take(size as int) =~= goal);
    }
    out
}

/// The regions of the detector's output: the ends of the runs of the first
/// `limit` regions of the map.
pub open spec fn are_candidates(
    r: Seq<Vec<Pt>>,
    map: Seq<u8>,
    w: int,
    h: int,
    limit: int,
) -> bool {
    let large = components::large_upto(map, w, map.len() as int);
    &&& r.len() == if large.len() <= limit {
        large.len() as int
    } else {
        limit
    }
    &&& forall|i: int|
        0 <= i < r.len() ==> components::outlines(
            #[trigger] r[i]@,
            map,
            w,
            h,
            large[i],
        )
}

/// The candidates for text in the detector's output.
pub fn candidates(
    pred: &[F32],
    pw: usize,
    ph: usize,
    det_thresh: F32,
    limit: usize,
    dilate: bool,
) -> (r: Vec<Vec<Pt>>)
    requires
        pred@.len() == pw * ph,
    ensures
        are_candidates(
            r@,
            mask(pred@, det_thresh@, pw as int, ph as int, dilate),
            pw as int,
            ph as int,
            limit as int,
        ),
{
    let mut fg: Vec<u8> = threshold(pred, det_thresh);
    if dilate {
        fg = dilate_2x2(fg.as_slice(), pw, ph);
    }
    component_extrema(&mut fg, pw, ph, limit)
}

/// In a dilated map a pixel is foreground just where it, the one left of it, the
/// one above it or the one between these two was.
pub proof fn law_dilation_spreads(map: Seq<u8>, w: int, h: int, x: int, y: int)
    requires
        0 <= x < w,
        0 <= y < h,
        w * h <= map.len(),
    ensures
        dilated(map, w, h)[y * w + x] != 0 <==> {
            ||| map[y * w + x] != 0
            ||| x > 0 && map[y * w + x - 1] != 0
            ||| y > 0 && map[(y - 1) * w + x] != 0
            ||| x > 0 && y > 0 && map[(y - 1) * w + x - 1] != 0
        },
{
    let k = y * w + x;
    assert(0 <= k < w * h && k % w == x && k / w == y) by (nonlinear_arith)
        requires
            k == y * w + x,
            0 <= x < w,
            0 <= y < h,
    ;
    lemma_either(map[k], map[k - 1]);
    let row = if x > 0 {
        map[k] | map[k - 1]
    } else {
        map[k]
    };
    lemma_either(row, map[(y - 1) * w + x]);
    let up = if y > 0 {
        row | map[(y - 1) * w + x]
    } else {
        row
    };
    lemma_either(up, map[(y - 1) * w + x - 1]);
}

proof fn lemma_either(a: u8, b: u8)
    ensures
        (a | b) != 0 <==> a != 0 || b != 0,
{
    assert((a | b) != 0 <==> a != 0 || b != 0) by (bit_vector);
}

/// The detector's output is above the threshold in column `x` of row `y`.
pub open spec fn is_mark(pred: Seq<F32>, thresh: Val, w: int, x: int, y: int) -> bool {
    0 <= x < w && 0 <= y && thresh.less(pred[y * w + x]@)
}

/// Column `x` of row `y` belongs to the foreground: it is marked, or, where the marks
/// are spread, the pixel left of it, the one above it or the one between these is.
pub open spec fn is_foreground(
    pred: Seq<F32>,
    thresh: Val,
    w: int,
    x: int,
    y: int,
    dilate: bool,
) -> bool {
    is_mark(pred, thresh, w, x, y) || dilate && (is_mark(pred, thresh, w, x - 1, y) || is_mark(
        pred,
        thresh,
        w,
        x,
        y - 1,
    ) || is_mark(pred, thresh, w, x - 1, y - 1))
}

/// The map has the foreground pixels, and no others.
pub proof fn law_map_is_the_foreground(
    pred: Seq<F32>,
    thresh: Val,
    w: int,
    h: int,
    dilate: bool,
    x: int,
    y: int,
)
    requires
        0 <= x < w,
        0 <= y < h,
        pred.len() == w * h,
    ensures
        mask(pred, thresh, w, h, dilate).len() == pred.len(),
        mask(pred, thresh, w, h, dilate)[y * w + x] != 0 <==> is_foreground(
            pred,
            thresh,
            w,
            x,
            y,
            dilate,
        ),
{
    let map = marked(pred, thresh);
    assert(0 <= y * w && y * w + x < w * h && (y >= 1 ==> 0 <= (y - 1) * w && (y - 1) * w + w == y
        * w)) by (nonlinear_arith)
        requires
            0 <= x < w,
            0 <= y < h,
    ;
    if dilate {
        law_dilation_spreads(map, w, h, x, y);
    }
}

/// A threshold marks the numbers above it with one, and the others with zero.
pub proof fn law_threshold_marks_what_is_above(pred: &[F32], thresh: F32, r: Vec<u8>, i: int)
    requires
        call_ensures(threshold, (pred, thresh), r),
        0 <= i < pred@.len(),
    ensures
        r@.len() == pred@.len(),
        thresh@.less(pred@[i]@) ==> r@[i] == 1,
        !thresh@.less(pred@[i]@) ==> r@[i] == 0,
{
}

/// The first pixels of the large regions are in rising order and complete.
proof fn lemma_large_upto(map: Seq<u8>, w: int, k: int)
    ensures
        ({
            let s = components::large_upto(map, w, k);
            &&& forall|i: int|
                0 <= i < s.len() ==> #[trigger] s[i] < k && components::leads(map, w, s[i])
                    && components::region(map, w, s[i]).len() >= 4
            &&& forall|i: int, j: int| 0 <= i < j < s.len() ==> #[trigger] s[i] < #[trigger] s[j]
            &&& forall|p: int|
                #![trigger components::leads(map, w, p)]
                p < k && components::leads(map, w, p) && components::region(map, w, p).len() >= 4
                    ==> s.contains(p)
        }),
    decreases k,
{
    if k > 0 {
        lemma_large_upto(map, w, k - 1);
        let rest = components::large_upto(map, w, k - 1);
        let s = components::large_upto(map, w, k);
        assert forall|i: int| 0 <= i < s.len() implies #[trigger] s[i] < k && components::leads(
            map,
            w,
            s[i],
        ) && components::region(map, w, s[i]).len() >= 4 by {
            if i < rest.len() {
                assert(s[i] == rest[i]);
            }
        }
        assert forall|i: int, j: int| 0 <= i < j < s.len() implies #[trigger] s[i]
            < #[trigger] s[j] by {
            assert(s[i] == rest[i]);
            if j < rest.len() {
                assert(s[j] == rest[j]);
            }
        }
        assert forall|p: int|
            #![trigger components::leads(map, w, p)]
            p < k && components::leads(map, w, p) && components::region(map, w, p).len()
                >= 4 implies s.contains(p) by {
            if p < k - 1 {
                assert(rest.contains(p));
                let i = choose|i: int| 0 <= i < rest.len() && rest[i] == p;
                assert(s[i] == p);
            } else {
                assert(s[s.len() - 1] == p);
            }
        }
    }
}

/// The point is pixel `p` of a map with rows of length `w`.
pub open spec fn is_pixel(point: Pt, w: int, p: int) -> bool {
    point.0@ == Val::Fin((p % w) as real) && point.1@ == Val::Fin((p / w) as real)
}

/// The point is a pixel of the region of `s`.
pub open spec fn lies_in(point: Pt, map: Seq<u8>, w: int, s: int) -> bool {
    exists|p: int| #[trigger] components::linked(map, w, s, p) && is_pixel(point, w, p)
}

/// The candidates are the regions of at least four pixels, in the order of their
/// first pixels `seeds`: all of them, or the first `limit`. The points of a candidate
/// are pixels of its region, and in no direction does a pixel of the region lie farther
/// than all of them.
pub open spec fn are_large_regions(
    r: Seq<Vec<Pt>>,
    map: Seq<u8>,
    w: int,
    limit: int,
    seeds: Seq<int>,
) -> bool {
    &&& r.len() == seeds.len() <= limit
    &&& forall|i: int, j: int|
        0 <= i < j < seeds.len() ==> #[trigger] seeds[i] < #[trigger] seeds[j]
    &&& forall|i: int|
        0 <= i < seeds.len() ==> components::on(map, #[trigger] seeds[i]) && components::region(
            map,
            w,
            seeds[i],
        ).len() >= 4
    &&& forall|i: int, p: int|
        0 <= i < seeds.len() && #[trigger] components::linked(map, w, seeds[i], p) ==> seeds[i] <= p
    &&& forall|p: int|
        #![trigger components::leads(map, w, p)]
        components::leads(map, w, p) && components::region(map, w, p).len() >= 4 ==> seeds.contains(
            p,
        ) || (seeds.len() == limit && forall|i: int| 0 <= i < limit ==> #[trigger] seeds[i] < p)
    &&& forall|i: int, j: int|
        0 <= i < seeds.len() && 0 <= j < r[i]@.len() ==> lies_in(
            #[trigger] r[i]@[j],
            map,
            w,
            seeds[i],
        )
    &&& forall|i: int, p: int, a: real, b: real|
        #![trigger is_reached(r[i]@, w, p, a, b)]
        0 <= i < seeds.len() && components::linked(map, w, seeds[i], p) ==> is_reached(
            r[i]@,
            w,
            p,
            a,
            b,
        )
}

/// In the direction (`a`, `b`) some of the points lies as far as pixel `p`, or farther.
pub open spec fn is_reached(points: Seq<Pt>, w: int, p: int, a: real, b: real) -> bool {
    exists|j: int|
        0 <= j < points.len() && (#[trigger] points[j]).0@ is Fin && points[j].1@ is Fin && a
            * points[j].0@->Fin_0 + b * points[j].1@->Fin_0 >= a * (p % w) as real + b * (p
            / w) as real
}

/// The cells whose coordinates the points of a candidate have.
proof fn lemma_cells(points: Seq<Pt>, map: Seq<u8>, w: int, h: int, s: int) -> (cells: Seq<
    (usize, usize),
>)
    requires
        components::outlines(points, map, w, h, s),
        map.len() == w * h,
        0 < w,
        0 <= h,
        map.len() < 0x10_0000_0000_0000,
    ensures
        cells.len() == points.len(),
        components::lists_ends(cells, map, w, components::region(map, w, s)),
        forall|j: int|
            0 <= j < cells.len() ==> (#[trigger] points[j]).0@ == Val::Fin(cells[j].0 as real)
                && points[j].1@ == Val::Fin(cells[j].1 as real) && cells[j].0 < w,
{
    let cells = choose|cells: Seq<(usize, usize)>| #[trigger]
        components::draws(points, cells) && components::lists_ends(
            cells,
            map,
            w,
            components::region(map, w, s),
        ) && components::in_walk_order(cells, components::map_from(map, w, s), w, h, s);
    assert forall|j: int| 0 <= j < cells.len() implies (#[trigger] points[j]).0@ == Val::Fin(
        cells[j].0 as real,
    ) && points[j].1@ == Val::Fin(cells[j].1 as real) && cells[j].0 < w by {
        let (x, y) = cells[j];
        assert(cells.contains((x, y)));
        let p = y * w + x;
        assert(components::region(map, w, s).contains(p));
        components::lemma_linked_on(map, w, s, p);
        assert(y <= p) by (nonlinear_arith)
            requires
                p == y * w + x,
                x >= 0,
                w >= 1,
                y >= 0,
        ;
        assert(w <= map.len()) by (nonlinear_arith)
            requires
                map.len() == w * h,
                p < map.len(),
                p >= 0,
                w >= 1,
                h >= 0,
        ;
        bounds::lemma_whole(Format::Double, x as int);
        bounds::lemma_whole(Format::Double, y as int);
    }
    cells
}

pub proof fn lemma_large_regions(r: Seq<Vec<Pt>>, map: Seq<u8>, w: int, h: int, limit: int) -> (seeds:
    Seq<int>)
    requires
        are_candidates(r, map, w, h, limit),
        map.len() == w * h,
        0 < w,
        0 <= h,
        0 <= limit,
        w <= usize::MAX,
        map.len() <= usize::MAX,
        map.len() < 0x10_0000_0000_0000,
    ensures
        are_large_regions(r, map, w, limit, seeds),
{
    let large = components::large_upto(map, w, map.len() as int);
    lemma_large_upto(map, w, map.len() as int);
    let seeds = large.take(r.len() as int);
    assert forall|i: int, j: int| 0 <= i < j < seeds.len() implies #[trigger] seeds[i]
        < #[trigger] seeds[j] by {
        assert(large[i] < large[j]);
    }
    assert forall|i: int, p: int|
        0 <= i < seeds.len() && #[trigger] components::linked(map, w, seeds[i], p) implies seeds[i]
        <= p by {
        assert(components::leads(map, w, large[i]));
    }
    assert forall|i: int| 0 <= i < seeds.len() implies components::on(map, #[trigger] seeds[i])
        && components::region(map, w, seeds[i]).len() >= 4 by {
        assert(components::leads(map, w, large[i]));
    }
    assert forall|p: int|
        #![trigger components::leads(map, w, p)]
        components::leads(map, w, p) && components::region(map, w, p).len()
            >= 4 implies seeds.contains(p) || (seeds.len() == limit && forall|i: int|
        0 <= i < limit ==> #[trigger] seeds[i] < p) by {
        assert(large.contains(p));
        let k = choose|k: int| 0 <= k < large.len() && large[k] == p;
        if k < seeds.len() {
            assert(seeds[k] == p);
        } else {
            assert forall|i: int| 0 <= i < limit implies #[trigger] seeds[i] < p by {
                assert(seeds[i] == large[i] && large[i] < large[k]);
            }
        }
    }
    assert forall|i: int, j: int| 0 <= i < seeds.len() && 0 <= j < r[i]@.len() implies lies_in(
        #[trigger] r[i]@[j],
        map,
        w,
        seeds[i],
    ) by {
        let cells = lemma_cells(r[i]@, map, w, h, large[i]);
        let p = cells[j].1 * w + cells[j].0;
        assert(cells.contains(cells[j]));
        assert(components::region(map, w, large[i]).contains(p));
        components::lemma_pixel(w, cells[j].0 as int, cells[j].1 as int);
        assert(is_pixel(r[i]@[j], w, p));
    }
    assert forall|i: int, p: int, a: real, b: real|
        #![trigger is_reached(r[i]@, w, p, a, b)]
        0 <= i < seeds.len() && components::linked(map, w, seeds[i], p) implies is_reached(
        r[i]@,
        w,
        p,
        a,
        b,
    ) by {
        let cells = lemma_cells(r[i]@, map, w, h, large[i]);
        components::law_run_ends_span_the_hull(cells, map, w, large[i], p, a, b);
        let j = choose|j: int|
            0 <= j < cells.len() && components::reach(
                a,
                b,
                (#[trigger] cells[j]).0 as int,
                cells[j].1 as int,
            ) >= components::reach(a, b, p % w, p / w);
        assert(r[i]@[j].0@ == Val::Fin(cells[j].0 as real));
    }
    seeds
}

/// The candidates are the regions of at least four pixels of the foreground.
pub proof fn law_candidates_are_the_large_regions(
    pred: &[F32],
    pw: usize,
    ph: usize,
    thresh: F32,
    limit: usize,
    dilate: bool,
    r: Vec<Vec<Pt>>,
) -> (seeds: Seq<int>)
    requires
        call_ensures(candidates, (pred, pw, ph, thresh, limit, dilate), r),
        pred@.len() == pw * ph,
        0 < pw,
        pred@.len() <= usize::MAX,
        pred@.len() < 0x10_0000_0000_0000,
    ensures
        are_large_regions(
            r@,
            mask(pred@, thresh@, pw as int, ph as int, dilate),
            pw as int,
            limit as int,
            seeds,
        ),
{
    lemma_large_regions(
        r@,
        mask(pred@, thresh@, pw as int, ph as int, dilate),
        pw as int,
        ph as int,
        limit as int,
    )
}

} // verus!
