//! Cutting the pixels of a box out of an image.

use crate::boxes::Quad;
use crate::components::Pt;
use crate::detect;
use crate::float::bounds;
use crate::float::model;
use crate::float::model::{Format, Val};
use crate::float::F64;
use crate::postprocess::Geometry;
use crate::recognize;
use crate::resize;
use crate::resize::ImageRgb;
use vstd::prelude::*;

verus! {

/// The points with `p` put behind the last that is not to the right of it.
pub open spec fn slid(s: Seq<Pt>, p: Pt) -> Seq<Pt>
    decreases s.len(),
{
    if s.len() > 0 && p.0@.less(s.last().0@) {
        slid(s.drop_last(), p).push(s.last())
    } else {
        s.push(p)
    }
}

/// The points from left to right, those of one column in their own order.
pub open spec fn left_to_right(s: Seq<Pt>) -> Seq<Pt>
    decreases s.len(),
{
    if s.len() == 0 {
        s
    } else {
        slid(left_to_right(s.drop_last()), s.last())
    }
}

/// The corners of a rectangle, clockwise from the upper left one: of the two left
/// points the upper one, of the two right points the upper one, then the lower
/// ones.
#[verifier::opaque]
pub open spec fn corners(rect: Quad) -> Quad {
    let p = left_to_right(rect@);
    let (a, d) = if p[0].1@.less(p[1].1@) {
        (p[0], p[1])
    } else {
        (p[1], p[0])
    };
    let (b, c) = if p[2].1@.less(p[3].1@) {
        (p[2], p[3])
    } else {
        (p[3], p[2])
    };
    [a, b, c, d]
}

/// The distance of two points, in doubles.
#[verifier::opaque]
pub open spec fn distance(p: Pt, q: Pt) -> Val {
    let f = Format::Double;
    let (dx, dy) = (p.0@.minus(q.0@, f), p.1@.minus(q.1@, f));
    dx.times(dx, f).plus(dy.times(dy, f), f).root(f)
}

/// The width of a crop: the longer of the upper and the lower side.
#[verifier::opaque]
pub open spec fn crop_w(c: Seq<Pt>) -> int {
    recognize::count(distance(c[0], c[1]).larger(distance(c[2], c[3])))
}

/// The height of a crop: the longer of the left and the right side.
#[verifier::opaque]
pub open spec fn crop_h(c: Seq<Pt>) -> int {
    recognize::count(distance(c[0], c[3]).larger(distance(c[1], c[2])))
}

/// A number without a fraction.
pub open spec fn is_whole(v: Val) -> bool {
    v.minus(v.floored(), Format::Double) == Val::Fin(0real)
}

/// The box is upright, on whole pixels, and inside an image of `w` by `h`.
#[verifier::opaque]
pub open spec fn is_upright(c: Seq<Pt>, w: int, h: int) -> bool {
    let (cw, ch) = (crop_w(c), crop_h(c));
    &&& c[0].1@.same(c[1].1@)
    &&& c[1].0@.same(c[2].0@)
    &&& c[2].1@.same(c[3].1@)
    &&& c[3].0@.same(c[0].0@)
    &&& forall|i: int| 0 <= i < 4 ==> is_whole((#[trigger] c[i]).0@) && is_whole(c[i].1@)
    &&& recognize::count(c[1].0@.minus(c[0].0@, Format::Double)) == cw
    &&& recognize::count(c[3].1@.minus(c[0].1@, Format::Double)) == ch
    &&& !c[0].0@.less(Val::Fin(0real))
    &&& !c[0].1@.less(Val::Fin(0real))
    &&& recognize::count(c[0].0@) + cw <= w
    &&& recognize::count(c[0].1@) + ch <= h
}

/// The pixels of the image from column `x0` and row `y0` on, `cw` by `ch` of them.
pub open spec fn cut(data: Seq<u8>, w: int, x0: int, y0: int, cw: int, ch: int) -> Seq<u8> {
    Seq::new(
        (cw * ch * 3) as nat,
        |k: int| data[((y0 + k / (cw * 3)) * w + x0) * 3 + k % (cw * 3)],
    )
}

/// The crop is turned: it is at least half as high again as it is wide.
#[verifier::opaque]
pub open spec fn is_turned(cw: int, ch: int) -> bool {
    !detect::num(ch).over(detect::num(cw), Format::Double).less(Val::Fin(3real / 2real))
}

/// The pixels of the box with the corners `c`: cut out where the box is upright,
/// warped by the geometry otherwise.
pub open spec fn are_pixels<G: Geometry>(
    crop: Vec<u8>,
    g: &G,
    img: &ImageRgb,
    c: Quad,
    cw: usize,
    ch: usize,
) -> bool {
    if is_upright(c@, img.w as int, img.h as int) {
        crop@ == cut(
            img.data@,
            img.w as int,
            recognize::count(c@[0].0@),
            recognize::count(c@[0].1@),
            cw as int,
            ch as int,
        )
    } else {
        call_ensures(G::warp_crop, (g, &img.data, img.w, img.h, &c, cw, ch), crop)
    }
}

/// The image is the crop of the box with the corners `c`, turned by the geometry
/// where it is to be turned.
pub open spec fn is_crop<G: Geometry>(r: ImageRgb, g: &G, img: &ImageRgb, c: Quad) -> bool {
    let (cw, ch) = (crop_w(c@) as usize, crop_h(c@) as usize);
    exists|crop: Vec<u8>| #[trigger]
        are_pixels(crop, g, img, c, cw, ch) && if is_turned(cw as int, ch as int) {
            call_ensures(G::rot90_ccw, (g, &crop, cw, ch), (r.data, r.w, r.h))
        } else {
            r.data@ == crop@ && r.w == cw && r.h == ch
        }
}

fn sort_corners(rect: &Quad) -> (r: Vec<Pt>)
    ensures
        r@ == left_to_right(rect@),
        r@.len() == 4,
{
    let mut out: Vec<Pt> = Vec::new();
    let mut i: usize = 0;
    while i < 4
        invariant
            i <= 4,
            out@ == left_to_right(rect@.take(i as int)),
            out@.len() == i,
        decreases 4 - i,
    {
        let p: Pt = rect[i];
        let ghost done = out@;
        let mut pos: usize = out.len();
        proof {
            assert(done.take(pos as int) =~= done);
            assert(slid(done, p) =~= slid(done, p) + done.skip(pos as int));
        }
        while pos > 0 && p.0.less(out[pos - 1].0)
            invariant
                pos <= out@.len(),
                out@ == done,
                slid(done, p) == slid(done.take(pos as int), p) + done.skip(pos as int),
            decreases pos,
        {
            proof {
                let s = done.take(pos as int);
                assert(s.last() == done[pos - 1]);
                assert(s.drop_last() =~= done.take(pos - 1));
                assert(slid(done.take(pos - 1), p).push(s.last()) + done.skip(pos as int) =~= slid(
                    done.take(pos - 1),
                    p,
                ) + done.skip(pos - 1));
            }
            pos = pos - 1;
        }
        proof {
            let s = done.take(pos as int);
            if pos > 0 {
                assert(s.last() == done[pos - 1]);
            }
            assert(s.push(p) + done.skip(pos as int) =~= done.insert(pos as int, p));
            assert(rect@.take(i + 1).drop_last() =~= rect@.take(i as int));
            assert(rect@.take(i + 1).last() == p);
        }
        out.insert(pos, p);
        i = i + 1;
    }
    proof {
        assert(rect@.take(i as int) =~= rect@);
    }
    out
}

/// The corners of a rectangle, clockwise from the upper left one.
pub fn order_corners(rect: &Quad) -> (r: Quad)
    ensures
        r == corners(*rect),
{
    proof {
        reveal(corners);
    }
    let p: Vec<Pt> = sort_corners(rect);
    let (a, d): (Pt, Pt) = if p[0].1.less(p[1].1) {
        (p[0], p[1])
    } else {
        (p[1], p[0])
    };
    let (b, c): (Pt, Pt) = if p[2].1.less(p[3].1) {
        (p[2], p[3])
    } else {
        (p[3], p[2])
    };
    let r: Quad = [a, b, c, d];
    r
}

fn measure(p: Pt, q: Pt) -> (r: F64)
    ensures
        r@ == distance(p, q),
{
    proof {
        reveal(distance);
    }
    let dx: F64 = p.0.minus(q.0);
    let dy: F64 = p.1.minus(q.1);
    dx.times(dx).plus(dy.times(dy)).root()
}

fn whole(v: F64) -> (r: bool)
    ensures
        r == is_whole(v@),
{
    v.minus(v.floored()).same(F64::from_u16(0))
}

fn upright(c: &Quad, cw: usize, ch: usize, w: usize, h: usize) -> (r: bool)
    requires
        cw == crop_w(c@),
        ch == crop_h(c@),
    ensures
        r == is_upright(c@, w as int, h as int),
{
    proof {
        reveal(is_upright);
    }
    let zero: F64 = F64::from_u16(0);
    let level: bool = c[0].1.same(c[1].1) && c[1].0.same(c[2].0) && c[2].1.same(c[3].1)
        && c[3].0.same(c[0].0);
    let on_pixels: bool = whole(c[0].0) && whole(c[0].1) && whole(c[1].0) && whole(c[1].1)
        && whole(c[2].0) && whole(c[2].1) && whole(c[3].0) && whole(c[3].1);
    let fitting: bool = c[1].0.minus(c[0].0).to_usize() == cw && c[3].1.minus(c[0].1).to_usize()
        == ch;
    let inside: bool = !c[0].0.less(zero) && !c[0].1.less(zero) && (c[0].0.to_usize() as u128) + (
    cw as u128) <= w as u128 && (c[0].1.to_usize() as u128) + (ch as u128) <= h as u128;
    proof {
        let s = c@;
        assert(on_pixels ==> forall|i: int|
            0 <= i < 4 ==> is_whole((#[trigger] s[i]).0@) && is_whole(s[i].1@));
        assert(s[0] == c[0] && s[1] == c[1] && s[2] == c[2] && s[3] == c[3]);
    }
    level && on_pixels && fitting && inside
}

fn cut_out(img: &ImageRgb, x0: usize, y0: usize, cw: usize, ch: usize) -> (r: Vec<u8>)
    requires
        img.wf(),
        cw > 0,
        x0 + cw <= img.w,
        y0 + ch <= img.h,
    ensures
        r@ == cut(img.data@, img.w as int, x0 as int, y0 as int, cw as int, ch as int),
{
    let ghost w = img.w as int;
    let ghost wide = cw * 3;
    let ghost goal = cut(img.data@, w, x0 as int, y0 as int, cw as int, ch as int);
    let size: usize = img.data.len();
    let mut out: Vec<u8> = Vec::new();
    let mut row: usize = 0;
    proof {
        assert(ch * wide == cw * ch * 3) by (nonlinear_arith)
            requires
                wide == cw * 3,
        ;
        assert(0 * wide == 0) by (nonlinear_arith);
    }
    while row < ch
        invariant
            row <= ch,
            img.wf(),
            w == img.w,
            wide == cw * 3,
            size == img.data@.len(),
            x0 + cw <= img.w,
            y0 + ch <= img.h,
            cw > 0,
            ch * wide == cw * ch * 3,
            goal == cut(img.data@, w, x0 as int, y0 as int, cw as int, ch as int),
            out@.len() == row * wide,
            out@ =~= goal.take(row * wide),
        decreases ch - row,
    {
        proof {
            assert(0 <= (y0 + row) * w && (y0 + row) * w + w <= w * img.h && (row + 1) * wide == row
                * wide + wide && (row + 1) * wide <= ch * wide && 0 <= row * wide)
                by (nonlinear_arith)
                requires
                    0 <= row < ch,
                    y0 + ch <= img.h,
                    y0 >= 0,
                    w >= 0,
                    wide >= 0,
            ;
        }
        let line: usize = (y0 + row) * img.w;
        let start: usize = (line + x0) * 3;
        let end: usize = start + cw * 3;
        let mut at: usize = start;
        while at < end
            invariant
                start <= at <= end <= size,
                row < ch,
                start == ((y0 + row) * w + x0) * 3,
                end == start + wide,
                wide == cw * 3,
                cw > 0,
                w == img.w,
                size == img.data@.len(),
                ch * wide == cw * ch * 3,
                (row + 1) * wide == row * wide + wide,
                (row + 1) * wide <= ch * wide,
                goal == cut(img.data@, w, x0 as int, y0 as int, cw as int, ch as int),
                out@.len() == row * wide + (at - start),
                out@ =~= goal.take(row * wide + (at - start)),
            decreases end - at,
        {
            let ghost k = row * wide + (at - start);
            proof {
                assert(k / wide == row && k % wide == at - start) by (nonlinear_arith)
                    requires
                        k == row * wide + (at - start),
                        0 <= at - start < wide,
                        row >= 0,
                ;
                assert(goal[k] == img.data@[at as int]);
            }
            out.push(img.data[at]);
            at = at + 1;
        }
        row = row + 1;
    }
    proof {
        assert(goal.take(ch * wide) =~= goal);
    }
    out
}

fn corner_list(q: &Quad) -> (r: Vec<Pt>)
    ensures
        r@ == q@,
{
    let mut out: Vec<Pt> = Vec::new();
    let mut i: usize = 0;
    while i < 4
        invariant
            i <= 4,
            out@ =~= q@.take(i as int),
        decreases 4 - i,
    {
        out.push(q[i]);
        i = i + 1;
    }
    assert(q@.take(i as int) =~= q@);
    out
}

/// The crop of a box, of which `rect` is the smallest rectangle: none where a side
/// is shorter than a pixel.
pub open spec fn crops<G: Geometry>(
    r: Option<ImageRgb>,
    g: &G,
    img: &ImageRgb,
    rect: Quad,
) -> bool {
    let c = corners(rect);
    match r {
        None => crop_w(c@) == 0 || crop_h(c@) == 0,
        Some(crop) => crop_w(c@) > 0 && crop_h(c@) > 0 && is_crop(crop, g, img, c),
    }
}

fn sides(c: &Quad) -> (r: (usize, usize))
    ensures
        r.0 == crop_w(c@),
        r.1 == crop_h(c@),
{
    proof {
        reveal(crop_w);
        reveal(crop_h);
    }
    let cw: usize = measure(c[0], c[1]).larger(measure(c[2], c[3])).to_usize();
    let ch: usize = measure(c[0], c[3]).larger(measure(c[1], c[2])).to_usize();
    (cw, ch)
}

fn turned(cw: usize, ch: usize) -> (r: bool)
    ensures
        r == is_turned(cw as int, ch as int),
{
    proof {
        reveal(is_turned);
    }
    proof {
        bounds::lemma_half(Format::Double, 3);
    }
    let tall: F64 = F64::from_u16(3).over(F64::from_u16(2));
    !F64::from_u64(ch as u64).over(F64::from_u64(cw as u64)).less(tall)
}

fn pixels<G: Geometry>(g: &G, img: &ImageRgb, c: &Quad, cw: usize, ch: usize) -> (r: Vec<u8>)
    requires
        img.wf(),
        cw == crop_w(c@),
        ch == crop_h(c@),
        cw > 0,
    ensures
        are_pixels(r, g, img, *c, cw, ch),
{
    proof {
        reveal(is_upright);
    }
    if upright(c, cw, ch, img.w, img.h) {
        cut_out(img, c[0].0.to_usize(), c[0].1.to_usize(), cw, ch)
    } else {
        g.warp_crop(&img.data, img.w, img.h, c, cw, ch)
    }
}

fn turn<G: Geometry>(
    g: &G,
    img: &ImageRgb,
    c: &Quad,
    crop: Vec<u8>,
    cw: usize,
    ch: usize,
) -> (r: ImageRgb)
    requires
        cw == crop_w(c@),
        ch == crop_h(c@),
        are_pixels(crop, g, img, *c, cw, ch),
    ensures
        is_crop(r, g, img, *c),
{
    if turned(cw, ch) {
        let (data, w, h): (Vec<u8>, usize, usize) = g.rot90_ccw(&crop, cw, ch);
        ImageRgb { w, h, data }
    } else {
        ImageRgb { w: cw, h: ch, data: crop }
    }
}

/// The crop of the rectangle `rect`.
pub fn crop_rect<G: Geometry>(g: &G, img: &ImageRgb, rect: &Quad) -> (r: Option<ImageRgb>)
    requires
        img.wf(),
    ensures
        crops(r, g, img, *rect),
{
    let c: Quad = order_corners(rect);
    let (cw, ch): (usize, usize) = sides(&c);
    if cw == 0 || ch == 0 {
        return None;
    }
    let crop: Vec<u8> = pixels(g, img, &c, cw, ch);
    Some(turn(g, img, &c, crop, cw, ch))
}

/// `r` is the crop of a box, for some outcome of the geometry on its corners.
pub open spec fn is_crop_of<G: Geometry>(
    r: Option<ImageRgb>,
    g: &G,
    img: &ImageRgb,
    quad: Quad,
) -> bool {
    exists|points: Vec<Pt>, rect: Quad, side: F64|
        points@ == quad@ && #[trigger] call_ensures(
            G::min_area_rect,
            (g, &points),
            (rect, side),
        ) && crops(r, g, img, rect)
}

/// The crop of a box: its smallest rectangle, cut out or warped to an upright
/// image, and turned where it is tall.
pub fn crop_quad<G: Geometry>(g: &G, img: &ImageRgb, quad: &Quad) -> (r: Option<ImageRgb>)
    requires
        img.wf(),
    ensures
        is_crop_of(r, g, img, *quad),
{
    let points: Vec<Pt> = corner_list(quad);
    let (rect, side): (Quad, F64) = g.min_area_rect(&points);
    crop_rect(g, img, &rect)
}

/// The crops that are there and have pixels, each with its box.
pub open spec fn kept_crops(list: Seq<(Option<ImageRgb>, Quad)>) -> Seq<(ImageRgb, Quad)>
    decreases list.len(),
{
    if list.len() == 0 {
        Seq::empty()
    } else {
        let rest = kept_crops(list.drop_last());
        match list.last() {
            (Some(c), q) => if c.w > 0 && c.h > 0 {
                rest.push((c, q))
            } else {
                rest
            },
            (None, _) => rest,
        }
    }
}

/// The crops that have pixels, and their boxes, in order.
pub open spec fn are_kept(
    crops: Seq<ImageRgb>,
    boxes: Seq<Quad>,
    list: Seq<(Option<ImageRgb>, Quad)>,
) -> bool {
    &&& crops == kept_crops(list).map_values(|p: (ImageRgb, Quad)| p.0)
    &&& boxes == kept_crops(list).map_values(|p: (ImageRgb, Quad)| p.1)
}

/// Parts the crops that have pixels from their boxes, in order.
pub fn keep_crops(list: Vec<(Option<ImageRgb>, Quad)>) -> (r: (Vec<ImageRgb>, Vec<Quad>))
    ensures
        are_kept(r.0@, r.1@, list@),
{
    let ghost all = list@;
    let mut crops: Vec<ImageRgb> = Vec::new();
    let mut boxes: Vec<Quad> = Vec::new();
    for item in iter: list
        invariant
            iter.seq() == all,
            crops@ =~= kept_crops(all.take(iter.index())).map_values(|p: (ImageRgb, Quad)| p.0),
            boxes@ =~= kept_crops(all.take(iter.index())).map_values(|p: (ImageRgb, Quad)| p.1),
    {
        proof {
            let i = iter.index();
            assert(all.take(i + 1).drop_last() =~= all.take(i));
            assert(all.take(i + 1).last() == item);
        }
        if let (Some(c), q) = item {
            if c.w > 0 && c.h > 0 {
                crops.push(c);
                boxes.push(q);
            }
        }
    }
    proof {
        assert(all.take(all.len() as int) =~= all);
    }
    (crops, boxes)
}

/// Each box with its crop, in order.
pub open spec fn are_crops<G: Geometry>(
    list: Seq<(Option<ImageRgb>, Quad)>,
    g: &G,
    img: &ImageRgb,
    quads: Seq<Quad>,
) -> bool {
    &&& list.len() == quads.len()
    &&& forall|i: int|
        0 <= i < list.len() ==> (#[trigger] list[i]).1 == quads[i] && is_crop_of(
            list[i].0,
            g,
            img,
            quads[i],
        )
}

/// Cuts the boxes out of an image: the crops that have pixels, and their boxes.
pub fn crop_boxes<G: Geometry>(g: &G, img: &ImageRgb, quads: &Vec<Quad>) -> (r: (
    Vec<ImageRgb>,
    Vec<Quad>,
))
    requires
        img.wf(),
    ensures
        exists|list: Seq<(Option<ImageRgb>, Quad)>| #[trigger]
            are_crops(list, g, img, quads@) && are_kept(r.0@, r.1@, list),
{
    let mut list: Vec<(Option<ImageRgb>, Quad)> = Vec::new();
    let mut i: usize = 0;
    while i < quads.len()
        invariant
            i <= quads@.len(),
            img.wf(),
            list@.len() == i,
            forall|k: int|
                0 <= k < i ==> (#[trigger] list@[k]).1 == quads@[k] && is_crop_of(
                    list@[k].0,
                    g,
                    img,
                    quads@[k],
                ),
        decreases quads@.len() - i,
    {
        let q: Quad = quads[i];
        list.push((crop_quad(g, img, &q), q));
        i = i + 1;
    }
    assert(are_crops(list@, g, img, quads@));
    keep_crops(list)
}

// ---- laws ----

/// A box that has a crop with pixels.
pub open spec fn has_crop(item: (Option<ImageRgb>, Quad)) -> bool {
    item.0 matches Some(c) && c.w > 0 && c.h > 0
}

/// The places of the boxes that have a crop with pixels.
pub open spec fn kept_places(list: Seq<(Option<ImageRgb>, Quad)>) -> Seq<int>
    decreases list.len(),
{
    if list.len() == 0 {
        Seq::empty()
    } else {
        let rest = kept_places(list.drop_last());
        if has_crop(list.last()) {
            rest.push(list.len() - 1)
        } else {
            rest
        }
    }
}

/// The crops that are kept stand in the order of their boxes, each with its own
/// box, and only boxes without a crop that has pixels are left out.
pub proof fn law_kept_crops_keep_their_boxes(
    crops: Seq<ImageRgb>,
    boxes: Seq<Quad>,
    list: Seq<(Option<ImageRgb>, Quad)>,
)
    requires
        are_kept(crops, boxes, list),
    ensures
        ({
            let places = kept_places(list);
            &&& crops.len() == places.len()
            &&& boxes.len() == places.len()
            &&& forall|k: int|
                0 <= k < places.len() ==> {
                    &&& 0 <= #[trigger] places[k] < list.len()
                    &&& list[places[k]] == (Some(crops[k]), boxes[k])
                }
            &&& forall|k: int, m: int|
                0 <= k < m < places.len() ==> #[trigger] places[k] < #[trigger] places[m]
            &&& forall|i: int|
                0 <= i < list.len() ==> (has_crop(#[trigger] list[i]) <==> places.contains(i))
        }),
    decreases list.len(),
{
    if list.len() > 0 {
        let rest = list.drop_last();
        let kept = kept_crops(rest);
        let cs = kept.map_values(|p: (ImageRgb, Quad)| p.0);
        let bs = kept.map_values(|p: (ImageRgb, Quad)| p.1);
        law_kept_crops_keep_their_boxes(cs, bs, rest);
        let (old, places) = (kept_places(rest), kept_places(list));
        let n = list.len() - 1;
        if has_crop(list.last()) {
            assert(places[old.len() as int] == n);
            assert(list.last().0 == Some(crops[old.len() as int]));
        }
        assert forall|k: int| 0 <= k < places.len() implies {
            &&& 0 <= #[trigger] places[k] < list.len()
            &&& list[places[k]] == (Some(crops[k]), boxes[k])
        } by {
            if k < old.len() {
                assert(places[k] == old[k]);
                assert(rest[old[k]] == list[old[k]]);
                assert(crops[k] == cs[k] && boxes[k] == bs[k]);
            }
        }
        assert forall|k: int, m: int| 0 <= k < m < places.len() implies #[trigger] places[k]
            < #[trigger] places[m] by {
            assert(places[k] == old[k]);
            if m < old.len() {
                assert(places[m] == old[m]);
            }
        }
        assert forall|i: int| 0 <= i < list.len() implies (has_crop(#[trigger] list[i])
            <==> places.contains(i)) by {
            if i < n {
                assert(rest[i] == list[i]);
                if old.contains(i) {
                    let k = choose|k: int| 0 <= k < old.len() && old[k] == i;
                    assert(places[k] == i);
                }
                if places.contains(i) {
                    let k = choose|k: int| 0 <= k < places.len() && places[k] == i;
                    assert(k < old.len());
                    assert(old[k] == i);
                }
            } else {
                if places.contains(i) && !has_crop(list.last()) {
                    let k = choose|k: int| 0 <= k < places.len() && places[k] == i;
                    assert(old[k] < rest.len());
                }
            }
        }
    }
}

/// A point with these whole coordinates.
pub open spec fn is_at(p: Pt, x: int, y: int) -> bool {
    p.0@ == Val::Fin(x as real) && p.1@ == Val::Fin(y as real)
}

proof fn lemma_difference_of_whole(a: int, b: int)
    requires
        -0x400_0000 < a < 0x400_0000,
        -0x400_0000 < b < 0x400_0000,
    ensures
        Val::Fin(a as real).minus(Val::Fin(b as real), Format::Double) == Val::Fin((a - b) as real),
{
    bounds::lemma_whole(Format::Double, a - b);
    bounds::lemma_difference(Format::Double, a as real, b as real, (a - b) as real);
}

proof fn lemma_square(a: int)
    requires
        -0x400_0000 < a < 0x400_0000,
    ensures
        Val::Fin(a as real).times(Val::Fin(a as real), Format::Double) == Val::Fin((a * a) as real),
        0 <= a * a < 0x10_0000_0000_0000,
{
    assert(0 <= a * a < 0x10_0000_0000_0000) by (nonlinear_arith)
        requires
            -0x400_0000 < a < 0x400_0000,
    ;
    model::lemma_real_mul(a, a);
    bounds::lemma_whole(Format::Double, a * a);
    bounds::lemma_product(Format::Double, a as real, a as real, (a * a) as real);
}

/// Two points of one row are as far apart as their columns.
proof fn lemma_distance_in_row(p: Pt, q: Pt, x: int, z: int, y: int)
    requires
        is_at(p, x, y),
        is_at(q, z, y),
        0 <= x < 0x400_0000,
        0 <= z < 0x400_0000,
        0 <= y < 0x400_0000,
    ensures
        distance(p, q) == Val::Fin((if x > z { x - z } else { z - x }) as real),
{
    reveal(distance);
    let f = Format::Double;
    let d = x - z;
    let n = if x > z {
        x - z
    } else {
        z - x
    };
    lemma_difference_of_whole(x, z);
    lemma_difference_of_whole(y, y);
    lemma_square(d);
    lemma_square(0);
    assert(d * d == n * n) by (nonlinear_arith)
        requires
            n == d || n == -d,
    ;
    bounds::lemma_whole(f, n * n);
    bounds::lemma_sum(f, (n * n) as real, 0real, (n * n) as real);
    bounds::lemma_root_of_square(n);
}

/// Two points of one column are as far apart as their rows.
proof fn lemma_distance_in_column(p: Pt, q: Pt, x: int, y: int, z: int)
    requires
        is_at(p, x, y),
        is_at(q, x, z),
        0 <= x < 0x400_0000,
        0 <= y < 0x400_0000,
        0 <= z < 0x400_0000,
    ensures
        distance(p, q) == Val::Fin((if y > z { y - z } else { z - y }) as real),
{
    reveal(distance);
    let f = Format::Double;
    let d = y - z;
    let n = if y > z {
        y - z
    } else {
        z - y
    };
    lemma_difference_of_whole(x, x);
    lemma_difference_of_whole(y, z);
    lemma_square(d);
    lemma_square(0);
    assert(d * d == n * n) by (nonlinear_arith)
        requires
            n == d || n == -d,
    ;
    bounds::lemma_whole(f, n * n);
    bounds::lemma_sum(f, 0real, (n * n) as real, (n * n) as real);
    bounds::lemma_root_of_square(n);
}

proof fn lemma_count(n: int, x: real)
    requires
        0 <= n <= usize::MAX,
        x == n as real,
        x.floor() == n,
    ensures
        recognize::count(Val::Fin(x)) == n,
{
}

proof fn lemma_is_whole(n: int, x: real)
    requires
        -0x400_0000 < n < 0x400_0000,
        x == n as real,
        x.floor() == n,
    ensures
        is_whole(Val::Fin(x)),
{
    assert(Val::Fin(x).floored() == Val::Fin(x));
    lemma_difference_of_whole(n, n);
}

/// The first `k` points are in column `lo`, the others in column `hi`.
spec fn is_parted(s: Seq<Pt>, k: int, lo: Val, hi: Val) -> bool {
    &&& 0 <= k <= s.len()
    &&& forall|i: int| 0 <= i < k ==> (#[trigger] s[i]).0@ == lo
    &&& forall|i: int| k <= i < s.len() ==> (#[trigger] s[i]).0@ == hi
}

spec fn is_before(lo: Val, hi: Val) -> bool {
    lo.less(hi) && !hi.less(lo) && !lo.less(lo) && !hi.less(hi)
}

/// A point of the left column goes behind those of its column, a point of the right
/// column behind all.
proof fn lemma_slid(s: Seq<Pt>, p: Pt, k: int, lo: Val, hi: Val)
    requires
        is_before(lo, hi),
        is_parted(s, k, lo, hi),
        p.0@ == lo || p.0@ == hi,
    ensures
        p.0@ == lo ==> slid(s, p) == s.insert(k, p) && is_parted(slid(s, p), k + 1, lo, hi),
        p.0@ == hi ==> slid(s, p) == s.push(p) && is_parted(slid(s, p), k, lo, hi),
    decreases s.len(),
{
    if p.0@ == lo && k < s.len() {
        let rest = s.drop_last();
        lemma_slid(rest, p, k, lo, hi);
        assert(s.last() == s[s.len() - 1]);
        assert(slid(s, p) =~= s.insert(k, p));
    } else if s.len() > 0 {
        assert(s.last() == s[s.len() - 1]);
        assert(s.push(p) =~= s.insert(s.len() as int, p));
    } else {
        assert(s.push(p) =~= s.insert(0, p));
    }
}

/// Two points of each column, brought from left to right.
proof fn lemma_left_to_right(s: Seq<Pt>, i: int, j: int, m: int, n: int, lo: Val, hi: Val)
    requires
        s.len() == 4,
        is_before(lo, hi),
        0 <= i < j < 4,
        0 <= m < n < 4,
        s[i].0@ == lo,
        s[j].0@ == lo,
        s[m].0@ == hi,
        s[n].0@ == hi,
    ensures
        left_to_right(s) == seq![s[i], s[j], s[m], s[n]],
{
    let (one, two, three) = (s.take(1), s.take(2), s.take(3));
    let none = Seq::<Pt>::empty();
    assert(lo != hi);
    assert(i != m && i != n && j != m && j != n);
    let k1 = if i == 0 {
        1
    } else {
        0int
    };
    let k2 = if i == 1 || j == 1 {
        k1 + 1
    } else {
        k1
    };
    let k3 = if i == 2 || j == 2 {
        k2 + 1
    } else {
        k2
    };
    assert(one.drop_last() =~= none && one.last() == s[0]);
    assert(two.drop_last() =~= one && two.last() == s[1]);
    assert(three.drop_last() =~= two && three.last() == s[2]);
    assert(s.drop_last() =~= three && s.last() == s[3]);
    assert(left_to_right(none) == none);
    lemma_slid(none, s[0], 0, lo, hi);
    let p = left_to_right(one);
    assert(p == slid(none, s[0]));
    assert(p =~= seq![s[0]]);
    lemma_slid(p, s[1], k1, lo, hi);
    let q = left_to_right(two);
    assert(q == slid(p, s[1]));
    lemma_slid(q, s[2], k2, lo, hi);
    let r = left_to_right(three);
    assert(r == slid(q, s[2]));
    lemma_slid(r, s[3], k3, lo, hi);
    assert(left_to_right(s) == slid(r, s[3]));
    if i == 0 && j == 1 {
        assert(left_to_right(s) =~= seq![s[0], s[1], s[2], s[3]]);
    } else if i == 0 && j == 2 {
        assert(left_to_right(s) =~= seq![s[0], s[2], s[1], s[3]]);
    } else if i == 0 && j == 3 {
        assert(left_to_right(s) =~= seq![s[0], s[3], s[1], s[2]]);
    } else if i == 1 && j == 2 {
        assert(left_to_right(s) =~= seq![s[1], s[2], s[0], s[3]]);
    } else if i == 1 && j == 3 {
        assert(left_to_right(s) =~= seq![s[1], s[3], s[0], s[2]]);
    } else {
        assert(left_to_right(s) =~= seq![s[2], s[3], s[0], s[1]]);
    }
}

/// Of two points of a column, the upper one and the lower one.
proof fn lemma_corners(rect: Quad, a: Pt, b: Pt, c: Pt, d: Pt, top: Val, bottom: Val)
    requires
        is_before(top, bottom),
        a.1@ == top,
        b.1@ == top,
        c.1@ == bottom,
        d.1@ == bottom,
        ({
            let p = left_to_right(rect@);
            &&& (p[0] == a && p[1] == d) || (p[0] == d && p[1] == a)
            &&& (p[2] == b && p[3] == c) || (p[2] == c && p[3] == b)
        }),
    ensures
        corners(rect)@ == seq![a, b, c, d],
{
    reveal(corners);
    assert(corners(rect) == [a, b, c, d]);
    assert(corners(rect)@ =~= seq![a, b, c, d]);
}

/// The corners of an upright rectangle come out clockwise from the upper left one,
/// in whatever order they are given: corner `a` is the upper left one, `b` the upper
/// right one, `c` and `d` those below them.
pub proof fn law_corners_are_put_in_order(
    rect: Quad,
    a: int,
    b: int,
    c: int,
    d: int,
    x0: int,
    y0: int,
    x1: int,
    y1: int,
)
    requires
        0 <= a < 4,
        0 <= b < 4,
        0 <= c < 4,
        0 <= d < 4,
        is_at(rect@[a], x0, y0),
        is_at(rect@[b], x1, y0),
        is_at(rect@[c], x1, y1),
        is_at(rect@[d], x0, y1),
        x0 < x1,
        y0 < y1,
    ensures
        corners(rect)@ == seq![rect@[a], rect@[b], rect@[c], rect@[d]],
{
    let (lo, hi) = (Val::Fin(x0 as real), Val::Fin(x1 as real));
    let (top, bottom) = (Val::Fin(y0 as real), Val::Fin(y1 as real));
    assert(is_before(lo, hi) && is_before(top, bottom));
    let s = rect@;
    assert(a != d && b != c);
    let (i, j) = if a < d {
        (a, d)
    } else {
        (d, a)
    };
    let (m, n) = if b < c {
        (b, c)
    } else {
        (c, b)
    };
    lemma_left_to_right(s, i, j, m, n, lo, hi);
    lemma_corners(rect, s[a], s[b], s[c], s[d], top, bottom);
}

/// A rectangle of whole pixels inside the image is cut out as it is: it counts as
/// upright, and its crop has its sides. Its coordinates are small enough for their
/// squares to be exact.
pub proof fn law_whole_rectangle_is_cut_out(
    c: Seq<Pt>,
    x0: int,
    y0: int,
    x1: int,
    y1: int,
    w: int,
    h: int,
)
    requires
        c.len() == 4,
        is_at(c[0], x0, y0),
        is_at(c[1], x1, y0),
        is_at(c[2], x1, y1),
        is_at(c[3], x0, y1),
        0 <= x0 < x1 <= w,
        0 <= y0 < y1 <= h,
        x1 < 0x400_0000,
        y1 < 0x400_0000,
    ensures
        crop_w(c) == x1 - x0,
        crop_h(c) == y1 - y0,
        is_upright(c, w, h),
        recognize::count(c[0].0@) == x0,
        recognize::count(c[0].1@) == y0,
{
    reveal(crop_w);
    reveal(crop_h);
    reveal(is_upright);
    lemma_distance_in_row(c[0], c[1], x0, x1, y0);
    lemma_distance_in_row(c[2], c[3], x1, x0, y1);
    lemma_distance_in_column(c[0], c[3], x0, y0, y1);
    lemma_distance_in_column(c[1], c[2], x1, y0, y1);
    let (cw, ch) = (x1 - x0, y1 - y0);
    let (wr, hr) = (cw as real, ch as real);
    assert(wr.floor() == cw && hr.floor() == ch);
    lemma_count(cw, wr);
    lemma_count(ch, hr);
    let (a, b, d, e) = (x0 as real, y0 as real, x1 as real, y1 as real);
    assert(a.floor() == x0 && b.floor() == y0 && d.floor() == x1 && e.floor() == y1);
    lemma_count(x0, a);
    lemma_count(y0, b);
    lemma_is_whole(x0, a);
    lemma_is_whole(y0, b);
    lemma_is_whole(x1, d);
    lemma_is_whole(y1, e);
    lemma_difference_of_whole(x1, x0);
    lemma_difference_of_whole(y1, y0);
}

/// A crop is turned exactly where it is at least half as high again as it is wide.
pub proof fn law_tall_crop_is_turned(cw: int, ch: int)
    requires
        0 < cw < 0x400_0000,
        0 <= ch < 0x400_0000,
    ensures
        is_turned(cw, ch) <==> 2 * ch >= 3 * cw,
{
    reveal(is_turned);
    bounds::lemma_whole(Format::Double, cw);
    bounds::lemma_whole(Format::Double, ch);
    let (a, b) = (ch as real, cw as real);
    let q = a / b;
    assert(0real <= q <= a && q * b == a) by (nonlinear_arith)
        requires
            b >= 1real,
            a >= 0real,
            q == a / b,
    ;
    let (half, e) = (3real / 2real, 1real / 0x800_0000int as real);
    if 2 * ch == 3 * cw {
        assert(q == half) by (nonlinear_arith)
            requires
                q * b == a,
                2real * a == 3real * b,
                b >= 1real,
                half == 3real / 2real,
        ;
        bounds::lemma_half(Format::Double, 3);
    } else if 2 * ch > 3 * cw {
        assert(q >= half) by (nonlinear_arith)
            requires
                q * b == a,
                2real * a >= 3real * b + 1real,
                b >= 1real,
                half == 3real / 2real,
        ;
        assert(q >= half + e) by (nonlinear_arith)
            requires
                q * b == a,
                2real * a >= 3real * b + 1real,
                1real <= b <= 0x400_0000real,
                half == 3real / 2real,
                e * 0x800_0000real == 1real,
        ;
        let y = bounds::lemma_double_error(q);
        assert(y >= half);
    } else {
        assert(q <= half - e) by (nonlinear_arith)
            requires
                q * b == a,
                2real * a + 1real <= 3real * b,
                1real <= b <= 0x400_0000real,
                half == 3real / 2real,
                e * 0x800_0000real == 1real,
        ;
        let y = bounds::lemma_double_error(q);
        assert(y < half);
    }
}

/// The pixels are those of the image from column `x0` and row `y0` on.
pub open spec fn shows(
    data: Seq<u8>,
    cw: int,
    ch: int,
    img: &ImageRgb,
    x0: int,
    y0: int,
) -> bool {
    &&& data.len() == cw * ch * 3
    &&& forall|x: int, y: int, c: int|
        #![trigger resize::channel(data, cw, x, y, c)]
        0 <= x < cw && 0 <= y < ch && 0 <= c < 3 ==> resize::channel(data, cw, x, y, c)
            == resize::channel(img.data@, img.w as int, x0 + x, y0 + y, c)
}

proof fn lemma_cut_shows(img: &ImageRgb, x0: int, y0: int, cw: int, ch: int)
    requires
        cw > 0,
        ch >= 0,
    ensures
        shows(cut(img.data@, img.w as int, x0, y0, cw, ch), cw, ch, img, x0, y0),
{
    let (w, data) = (img.w as int, img.data@);
    let s = cut(data, w, x0, y0, cw, ch);
    assert(cw * ch * 3 >= 0) by (nonlinear_arith)
        requires
            cw > 0,
            ch >= 0,
    ;
    assert forall|x: int, y: int, c: int|
        #![trigger resize::channel(s, cw, x, y, c)]
        0 <= x < cw && 0 <= y < ch && 0 <= c < 3 implies resize::channel(s, cw, x, y, c)
        == resize::channel(data, w, x0 + x, y0 + y, c) by {
        let k = (y * cw + x) * 3 + c;
        let wide = cw * 3;
        let rest = x * 3 + c;
        assert(k == y * wide + rest && (y + 1) * wide <= ch * wide && ch * wide == cw * ch * 3 && (y
            + 1) * wide == y * wide + wide && 0 <= y * wide) by (nonlinear_arith)
            requires
                k == (y * cw + x) * 3 + c,
                wide == cw * 3,
                rest == x * 3 + c,
                0 <= y < ch,
                cw > 0,
        ;
        assert(0 <= rest < wide);
        vstd::arithmetic::div_mod::lemma_fundamental_div_mod_converse(k, wide, y, rest);
        assert(((y0 + y) * w + x0) * 3 + rest == ((y0 + y) * w + (x0 + x)) * 3 + c);
    }
}

/// The crop of an upright rectangle of whole pixels: `x1 - x0` by `y1 - y0` pixels, the
/// very ones that the image has there. It is handed out as it is, unless it is at least
/// half as high again as it is wide: then the geometry turns it.
pub open spec fn is_piece<G: Geometry>(
    r: Option<ImageRgb>,
    g: &G,
    img: &ImageRgb,
    x0: int,
    y0: int,
    x1: int,
    y1: int,
) -> bool {
    r matches Some(crop) && if 2 * (y1 - y0) < 3 * (x1 - x0) {
        crop.w == x1 - x0 && crop.h == y1 - y0 && shows(
            crop.data@,
            x1 - x0,
            y1 - y0,
            img,
            x0,
            y0,
        )
    } else {
        exists|data: Vec<u8>| #[trigger]
            call_ensures(
                G::rot90_ccw,
                (g, &data, (x1 - x0) as usize, (y1 - y0) as usize),
                (crop.data, crop.w, crop.h),
            ) && shows(data@, x1 - x0, y1 - y0, img, x0, y0)
    }
}

/// The corners of `rect`, in the order `i`, are those of an upright rectangle.
pub open spec fn is_rectangle(
    rect: Quad,
    i: Seq<int>,
    x0: int,
    y0: int,
    x1: int,
    y1: int,
) -> bool {
    &&& i.len() == 4
    &&& forall|k: int| 0 <= k < 4 ==> 0 <= #[trigger] i[k] < 4
    &&& is_at(rect@[i[0]], x0, y0)
    &&& is_at(rect@[i[1]], x1, y0)
    &&& is_at(rect@[i[2]], x1, y1)
    &&& is_at(rect@[i[3]], x0, y1)
}

proof fn lemma_is_piece<G: Geometry>(
    g: &G,
    img: &ImageRgb,
    rect: Quad,
    r: Option<ImageRgb>,
    i: Seq<int>,
    x0: int,
    y0: int,
    x1: int,
    y1: int,
)
    requires
        crops(r, g, img, rect),
        is_rectangle(rect, i, x0, y0, x1, y1),
        0 <= x0 < x1 <= img.w,
        0 <= y0 < y1 <= img.h,
        x1 < 0x400_0000,
        y1 < 0x400_0000,
    ensures
        is_piece(r, g, img, x0, y0, x1, y1),
{
    assert(0 <= i[0] < 4 && 0 <= i[1] < 4 && 0 <= i[2] < 4 && 0 <= i[3] < 4);
    law_corners_are_put_in_order(rect, i[0], i[1], i[2], i[3], x0, y0, x1, y1);
    let c = corners(rect);
    let (w, h) = (img.w as int, img.h as int);
    let (cw, ch) = (x1 - x0, y1 - y0);
    law_whole_rectangle_is_cut_out(c@, x0, y0, x1, y1, w, h);
    law_tall_crop_is_turned(cw, ch);
    lemma_cut_shows(img, x0, y0, cw, ch);
    let crop = r->0;
    assert(is_crop(crop, g, img, c));
    let data = choose|data: Vec<u8>| #[trigger]
        are_pixels(data, g, img, c, cw as usize, ch as usize) && if is_turned(cw, ch) {
            call_ensures(
                G::rot90_ccw,
                (g, &data, cw as usize, ch as usize),
                (crop.data, crop.w, crop.h),
            )
        } else {
            crop.data@ == data@ && crop.w == cw && crop.h == ch
        };
    assert(shows(data@, cw, ch, img, x0, y0));
}

/// An upright rectangle of whole pixels inside the image has the image's own pixels as
/// its crop.
pub proof fn law_crop_has_the_pixels_of_the_rectangle<G: Geometry>(
    g: &G,
    img: &ImageRgb,
    rect: &Quad,
    r: Option<ImageRgb>,
    i: Seq<int>,
    x0: int,
    y0: int,
    x1: int,
    y1: int,
)
    requires
        call_ensures(crop_rect::<G>, (g, img, rect), r),
        is_rectangle(*rect, i, x0, y0, x1, y1),
        0 <= x0 < x1 <= img.w,
        0 <= y0 < y1 <= img.h,
        x1 < 0x400_0000,
        y1 < 0x400_0000,
    ensures
        is_piece(r, g, img, x0, y0, x1, y1),
{
    lemma_is_piece(g, img, *rect, r, i, x0, y0, x1, y1);
}

/// A box has the crop of its smallest rectangle: where the geometry gives an upright
/// rectangle of whole pixels inside the image for the corners of the box, that is the
/// image's own pixels.
pub proof fn law_box_has_the_crop_of_its_rectangle<G: Geometry>(
    g: &G,
    img: &ImageRgb,
    quad: &Quad,
    r: Option<ImageRgb>,
    i: Seq<int>,
    x0: int,
    y0: int,
    x1: int,
    y1: int,
)
    requires
        call_ensures(crop_quad::<G>, (g, img, quad), r),
        forall|points: Vec<Pt>, rect: Quad, side: F64|
            points@ == quad@ && #[trigger] call_ensures(
                G::min_area_rect,
                (g, &points),
                (rect, side),
            ) ==> is_rectangle(rect, i, x0, y0, x1, y1),
        0 <= x0 < x1 <= img.w,
        0 <= y0 < y1 <= img.h,
        x1 < 0x400_0000,
        y1 < 0x400_0000,
    ensures
        is_piece(r, g, img, x0, y0, x1, y1),
{
    let (points, rect, side) = choose|points: Vec<Pt>, rect: Quad, side: F64|
        points@ == quad@ && #[trigger] call_ensures(
            G::min_area_rect,
            (g, &points),
            (rect, side),
        ) && crops(r, g, img, rect);
    lemma_is_piece(g, img, rect, r, i, x0, y0, x1, y1);
}

/// Of the boxes of an image those that have a crop with pixels are kept, in order, each
/// with its own crop: box `at[k]` is kept as number `k`.
pub proof fn law_boxes_keep_their_crops<G: Geometry>(
    g: &G,
    img: &ImageRgb,
    quads: &Vec<Quad>,
    r: (Vec<ImageRgb>, Vec<Quad>),
) -> (s: (Seq<Option<ImageRgb>>, Seq<int>))
    requires
        call_ensures(crop_boxes::<G>, (g, img, quads), r),
    ensures
        s.0.len() == quads@.len(),
        forall|i: int|
            0 <= i < quads@.len() ==> is_crop_of(#[trigger] s.0[i], g, img, quads@[i]),
        r.0@.len() == s.1.len(),
        r.1@.len() == s.1.len(),
        forall|k: int|
            0 <= k < s.1.len() ==> {
                &&& 0 <= #[trigger] s.1[k] < quads@.len()
                &&& s.0[s.1[k]] == Some(r.0@[k])
                &&& r.1@[k] == quads@[s.1[k]]
                &&& r.0@[k].w > 0 && r.0@[k].h > 0
            },
        forall|k: int, m: int| 0 <= k < m < s.1.len() ==> #[trigger] s.1[k] < #[trigger] s.1[m],
        forall|i: int|
            0 <= i < quads@.len() && (#[trigger] s.0[i]) is Some && s.0[i]->0.w > 0 && s.0[i]->0.h
                > 0 ==> s.1.contains(i),
{
    let list = choose|list: Seq<(Option<ImageRgb>, Quad)>| #[trigger]
        are_crops(list, g, img, quads@) && are_kept(r.0@, r.1@, list);
    law_kept_crops_keep_their_boxes(r.0@, r.1@, list);
    let places = kept_places(list);
    let all = list.map_values(|p: (Option<ImageRgb>, Quad)| p.0);
    assert forall|i: int| 0 <= i < quads@.len() implies is_crop_of(
        #[trigger] all[i],
        g,
        img,
        quads@[i],
    ) by {
        assert(list[i].1 == quads@[i]);
    }
    assert forall|k: int| 0 <= k < places.len() implies {
        &&& 0 <= #[trigger] places[k] < quads@.len()
        &&& all[places[k]] == Some(r.0@[k])
        &&& r.1@[k] == quads@[places[k]]
        &&& r.0@[k].w > 0 && r.0@[k].h > 0
    } by {
        let i = places[k];
        assert(list[i] == (Some(r.0@[k]), r.1@[k]));
        assert(places.contains(i));
        assert(has_crop(list[i]));
    }
    assert forall|i: int|
        0 <= i < quads@.len() && (#[trigger] all[i]) is Some && all[i]->0.w > 0 && all[i]->0.h
            > 0 implies places.contains(i) by {
        assert(has_crop(list[i]));
    }
    (all, places)
}

/// The square of the distance of two points.
pub open spec fn square_of(x0: int, y0: int, x1: int, y1: int) -> int {
    (x1 - x0) * (x1 - x0) + (y1 - y0) * (y1 - y0)
}

proof fn lemma_distance(p: Pt, q: Pt, x0: int, y0: int, x1: int, y1: int, k: int) -> (d: real)
    requires
        is_at(p, x0, y0),
        is_at(q, x1, y1),
        -0x100_0000 < x0 < 0x100_0000,
        -0x100_0000 < y0 < 0x100_0000,
        -0x100_0000 < x1 < 0x100_0000,
        -0x100_0000 < y1 < 0x100_0000,
        k >= 0,
        k * k <= square_of(x0, y0, x1, y1) < (k + 1) * (k + 1),
    ensures
        distance(p, q) == Val::Fin(d),
        k as real <= d,
        d < (k + 1) as real,
{
    reveal(distance);
    let (dx, dy) = (x0 - x1, y0 - y1);
    lemma_difference_of_whole(x0, x1);
    lemma_difference_of_whole(y0, y1);
    lemma_square(dx);
    lemma_square(dy);
    assert(dx * dx == (x1 - x0) * (x1 - x0) && dy * dy == (y1 - y0) * (y1 - y0) && dx * dx
        < 0x4_0000_0000_0000 && dy * dy < 0x4_0000_0000_0000) by (nonlinear_arith)
        requires
            dx == x0 - x1,
            dy == y0 - y1,
            -0x200_0000 < dx < 0x200_0000,
            -0x200_0000 < dy < 0x200_0000,
    ;
    let n = dx * dx + dy * dy;
    bounds::lemma_whole(Format::Double, n);
    bounds::lemma_sum(Format::Double, (dx * dx) as real, (dy * dy) as real, n as real);
    if n > 0 {
        bounds::lemma_root_of_whole(n, k)
    } else {
        assert(k == 0) by (nonlinear_arith)
            requires
                k * k <= 0,
                k >= 0,
        ;
        0real
    }
}

/// The side of a crop, given the squares of the two sides of the rectangle: the
/// longer of them, without its fraction.
pub open spec fn is_side(k: int, a: int, b: int) -> bool {
    &&& k >= 0
    &&& k * k <= a || k * k <= b
    &&& a < (k + 1) * (k + 1)
    &&& b < (k + 1) * (k + 1)
}

proof fn lemma_longer(d: real, e: real, j: int, k: int, a: int, b: int)
    requires
        0 <= j < 0x400_0000,
        0 <= k < 0x400_0000,
        j as real <= d,
        d < (j + 1) as real,
        k as real <= e,
        e < (k + 1) as real,
        j * j <= a < (j + 1) * (j + 1),
        k * k <= b < (k + 1) * (k + 1),
    ensures
        is_side(recognize::count(Val::Fin(d).larger(Val::Fin(e))), a, b),
{
    assert(d.floor() == j && e.floor() == k);
    if j <= k {
        assert((j + 1) * (j + 1) <= (k + 1) * (k + 1)) by (nonlinear_arith)
            requires
                0 <= j <= k,
        ;
    } else {
        assert((k + 1) * (k + 1) <= (j + 1) * (j + 1)) by (nonlinear_arith)
            requires
                0 <= k <= j,
        ;
    }
}

proof fn lemma_side(p: Pt, q: Pt, s: Pt, t: Pt, c: Seq<(int, int)>)
    requires
        c.len() == 4,
        forall|i: int|
            0 <= i < 4 ==> -0x100_0000 < (#[trigger] c[i]).0 < 0x100_0000 && -0x100_0000 < c[i].1
                < 0x100_0000,
        is_at(p, c[0].0, c[0].1),
        is_at(q, c[1].0, c[1].1),
        is_at(s, c[2].0, c[2].1),
        is_at(t, c[3].0, c[3].1),
    ensures
        is_side(
            recognize::count(distance(p, q).larger(distance(s, t))),
            square_of(c[0].0, c[0].1, c[1].0, c[1].1),
            square_of(c[2].0, c[2].1, c[3].0, c[3].1),
        ),
{
    let a = square_of(c[0].0, c[0].1, c[1].0, c[1].1);
    let b = square_of(c[2].0, c[2].1, c[3].0, c[3].1);
    lemma_square_bound(c[1].0 - c[0].0, c[1].1 - c[0].1);
    lemma_square_bound(c[3].0 - c[2].0, c[3].1 - c[2].1);
    let j = bounds::lemma_some_root(a);
    let k = bounds::lemma_some_root(b);
    lemma_root_bound(j, a);
    lemma_root_bound(k, b);
    let d = lemma_distance(p, q, c[0].0, c[0].1, c[1].0, c[1].1, j);
    let e = lemma_distance(s, t, c[2].0, c[2].1, c[3].0, c[3].1, k);
    lemma_longer(d, e, j, k, a, b);
}

proof fn lemma_square_bound(dx: int, dy: int)
    requires
        -0x200_0000 < dx < 0x200_0000,
        -0x200_0000 < dy < 0x200_0000,
    ensures
        0 <= dx * dx + dy * dy < 0x8_0000_0000_0000,
{
    assert(0 <= dx * dx < 0x4_0000_0000_0000) by (nonlinear_arith)
        requires
            -0x200_0000 < dx < 0x200_0000,
    ;
    assert(0 <= dy * dy < 0x4_0000_0000_0000) by (nonlinear_arith)
        requires
            -0x200_0000 < dy < 0x200_0000,
    ;
}

proof fn lemma_root_bound(k: int, n: int)
    requires
        k >= 0,
        k * k <= n < 0x8_0000_0000_0000,
    ensures
        k < 0x400_0000,
{
    assert(k < 0x400_0000) by (nonlinear_arith)
        requires
            k >= 0,
            k * k <= n,
            n < 0x8_0000_0000_0000,
    ;
}

/// The crop of a rectangle, upright or not, is as wide as the longer of its upper
/// and lower sides and as high as the longer of its left and right sides, both
/// without a fraction.
pub proof fn law_crop_has_the_longer_sides(c: Seq<Pt>, at: Seq<(int, int)>)
    requires
        c.len() == 4,
        at.len() == 4,
        forall|i: int| 0 <= i < 4 ==> is_at(#[trigger] c[i], at[i].0, at[i].1),
        forall|i: int|
            0 <= i < 4 ==> -0x100_0000 < (#[trigger] at[i]).0 < 0x100_0000 && -0x100_0000 < at[i].1
                < 0x100_0000,
    ensures
        is_side(
            crop_w(c),
            square_of(at[0].0, at[0].1, at[1].0, at[1].1),
            square_of(at[2].0, at[2].1, at[3].0, at[3].1),
        ),
        is_side(
            crop_h(c),
            square_of(at[0].0, at[0].1, at[3].0, at[3].1),
            square_of(at[1].0, at[1].1, at[2].0, at[2].1),
        ),
{
    reveal(crop_w);
    reveal(crop_h);
    assert(is_at(c[0], at[0].0, at[0].1));
    assert(is_at(c[1], at[1].0, at[1].1));
    assert(is_at(c[2], at[2].0, at[2].1));
    assert(is_at(c[3], at[3].0, at[3].1));
    lemma_side(c[0], c[1], c[2], c[3], at);
    lemma_side(c[0], c[3], c[1], c[2], seq![at[0], at[3], at[1], at[2]]);
}

/// The points have numbers as coordinates, and none is left of one ahead of it.
spec fn is_row(s: Seq<Pt>) -> bool {
    &&& forall|i: int| 0 <= i < s.len() ==> !((#[trigger] s[i]).0@ is Nan) && !(s[i].1@ is Nan)
    &&& forall|i: int, j: int|
        0 <= i < j < s.len() ==> !(#[trigger] s[j]).0@.less((#[trigger] s[i]).0@)
}

proof fn lemma_slid_place(s: Seq<Pt>, p: Pt) -> (k: int)
    ensures
        0 <= k <= s.len(),
        slid(s, p) == s.insert(k, p),
        forall|i: int| k <= i < s.len() ==> p.0@.less((#[trigger] s[i]).0@),
        k > 0 ==> !p.0@.less(s[k - 1].0@),
    decreases s.len(),
{
    if s.len() > 0 && p.0@.less(s.last().0@) {
        let rest = s.drop_last();
        let k = lemma_slid_place(rest, p);
        assert(slid(s, p) =~= s.insert(k, p));
        assert forall|i: int| k <= i < s.len() implies p.0@.less((#[trigger] s[i]).0@) by {
            if i < rest.len() {
                assert(rest[i] == s[i]);
            }
        }
        if k > 0 {
            assert(rest[k - 1] == s[k - 1]);
        }
        k
    } else {
        assert(s.push(p) =~= s.insert(s.len() as int, p));
        s.len() as int
    }
}

proof fn lemma_slid_row(s: Seq<Pt>, p: Pt)
    requires
        is_row(s),
        !(p.0@ is Nan),
        !(p.1@ is Nan),
    ensures
        is_row(slid(s, p)),
        slid(s, p).to_multiset() == s.to_multiset().insert(p),
        slid(s, p).len() == s.len() + 1,
{
    broadcast use vstd::seq_lib::group_to_multiset_ensures;

    let k = lemma_slid_place(s, p);
    let t = s.insert(k, p);
    assert forall|i: int| 0 <= i < t.len() implies !((#[trigger] t[i]).0@ is Nan) && !(t[i].1@
        is Nan) by {
        if i < k {
            assert(t[i] == s[i]);
        } else if i > k {
            assert(t[i] == s[i - 1]);
        }
    }
    assert forall|i: int, j: int| 0 <= i < j < t.len() implies !(#[trigger] t[j]).0@.less(
        (#[trigger] t[i]).0@,
    ) by {
        if i == k {
            assert(t[j] == s[j - 1]);
            assert(p.0@.less(s[j - 1].0@));
        } else if j == k {
            assert(t[i] == s[i]);
            if i < k - 1 {
                assert(!s[k - 1].0@.less(s[i].0@));
                assert(!(s[k - 1].0@ is Nan) && !(s[i].0@ is Nan));
            }
        } else {
            let a = if i < k {
                i
            } else {
                i - 1
            };
            let b = if j < k {
                j
            } else {
                j - 1
            };
            assert(t[i] == s[a] && t[j] == s[b]);
        }
    }
}

proof fn lemma_left_to_right_row(s: Seq<Pt>)
    requires
        forall|i: int| 0 <= i < s.len() ==> !((#[trigger] s[i]).0@ is Nan) && !(s[i].1@ is Nan),
    ensures
        is_row(left_to_right(s)),
        left_to_right(s).to_multiset() == s.to_multiset(),
        left_to_right(s).len() == s.len(),
    decreases s.len(),
{
    broadcast use vstd::seq_lib::group_to_multiset_ensures;

    if s.len() > 0 {
        let rest = s.drop_last();
        assert forall|i: int| 0 <= i < rest.len() implies !((#[trigger] rest[i]).0@ is Nan) && !(
        rest[i].1@ is Nan) by {
            assert(rest[i] == s[i]);
        }
        lemma_left_to_right_row(rest);
        assert(s.last() == s[s.len() - 1]);
        lemma_slid_row(left_to_right(rest), s.last());
        assert(rest.push(s.last()) =~= s);
    }
}

/// The corners of any rectangle come out clockwise from the upper left one: they are
/// the given points; the first and the fourth are not right of the other two, and
/// the first is not below the fourth, nor the second below the third.
pub proof fn law_corners_run_clockwise(rect: &Quad, r: Quad)
    requires
        call_ensures(order_corners, (rect,), r),
        forall|i: int| 0 <= i < 4 ==> !((#[trigger] rect@[i]).0@ is Nan) && !(rect@[i].1@ is Nan),
    ensures
        r@.to_multiset() == rect@.to_multiset(),
        !r@[1].0@.less(r@[0].0@) && !r@[2].0@.less(r@[0].0@),
        !r@[1].0@.less(r@[3].0@) && !r@[2].0@.less(r@[3].0@),
        !r@[3].1@.less(r@[0].1@),
        !r@[2].1@.less(r@[1].1@),
{
    broadcast use vstd::seq_lib::group_to_multiset_ensures;

    reveal(corners);
    let s = rect@;
    lemma_left_to_right_row(s);
    let p = left_to_right(s);
    assert(p.len() == 4);
    assert(!p[2].0@.less(p[0].0@) && !p[3].0@.less(p[0].0@) && !p[2].0@.less(p[1].0@)
        && !p[3].0@.less(p[1].0@));
    assert(!(p[0].1@ is Nan) && !(p[1].1@ is Nan) && !(p[2].1@ is Nan) && !(p[3].1@ is Nan));
    let (a, d) = if p[0].1@.less(p[1].1@) {
        (p[0], p[1])
    } else {
        (p[1], p[0])
    };
    let (b, c) = if p[2].1@.less(p[3].1@) {
        (p[2], p[3])
    } else {
        (p[3], p[2])
    };
    assert(r == [a, b, c, d]);
    assert(r@ =~= seq![a, b, c, d]);
    lemma_four(p, p[0], p[1], p[2], p[3]);
    lemma_four(r@, a, b, c, d);
    assert(r@.to_multiset() =~= p.to_multiset());
}

/// Four points, counted.
proof fn lemma_four(s: Seq<Pt>, a: Pt, b: Pt, c: Pt, d: Pt)
    requires
        s.len() == 4,
        s[0] == a,
        s[1] == b,
        s[2] == c,
        s[3] == d,
    ensures
        s.to_multiset() == vstd::multiset::Multiset::empty().insert(a).insert(b).insert(c).insert(d),
{
    broadcast use vstd::seq_lib::group_to_multiset_ensures;

    let e = Seq::<Pt>::empty();
    assert(s =~= e.push(a).push(b).push(c).push(d));
    e.to_multiset_ensures();
    assert(e.to_multiset() =~= vstd::multiset::Multiset::empty());
}

/// The rectangle with the corners `c` cannot be cut out of an image of `w` by `h`
/// pixels: a side is not along a row or a column, a corner is not on a whole pixel, or
/// it lies beyond an edge of the image.
pub open spec fn is_odd(c: Seq<Pt>, w: int, h: int) -> bool {
    ||| c[0].1@ != c[1].1@ || c[1].0@ != c[2].0@ || c[2].1@ != c[3].1@ || c[3].0@ != c[0].0@
    ||| exists|i: int| 0 <= i < 4 && (is_between_pixels((#[trigger] c[i]).0@) || is_between_pixels(c[i].1@))
    ||| c[0].0@ is Fin && c[0].0@->Fin_0 < 0real
    ||| c[0].1@ is Fin && c[0].1@->Fin_0 < 0real
    ||| exists|x: int, y: int|
        #[trigger] is_at(c[0], x, y) && 0 <= x < 0x400_0000 && 0 <= y < 0x400_0000 && (x + crop_w(c)
            > w || y + crop_h(c) > h)
}

/// The number is a clear part of a pixel past a whole one.
pub open spec fn is_between_pixels(v: Val) -> bool {
    v is Fin && v->Fin_0 - v->Fin_0.floor() as real >= 1real / 1000000000000real
}

proof fn lemma_between_pixels(v: Val)
    requires
        is_between_pixels(v),
    ensures
        !is_whole(v),
{
    let x = v->Fin_0;
    let d = x + -(x.floor() as real);
    assert(d == x - x.floor() as real);
    let y = bounds::lemma_double_error(d);
    assert(y > 0real);
}

proof fn lemma_odd(c: Seq<Pt>, w: int, h: int)
    requires
        c.len() == 4,
        is_odd(c, w, h),
    ensures
        !is_upright(c, w, h),
{
    reveal(is_upright);
    if exists|i: int| 0 <= i < 4 && (is_between_pixels((#[trigger] c[i]).0@) || is_between_pixels(
        c[i].1@,
    )) {
        let i = choose|i: int| 0 <= i < 4 && (is_between_pixels((#[trigger] c[i]).0@)
            || is_between_pixels(c[i].1@));
        if is_between_pixels(c[i].0@) {
            lemma_between_pixels(c[i].0@);
        } else {
            lemma_between_pixels(c[i].1@);
        }
        assert(!(is_whole(c[i].0@) && is_whole(c[i].1@)));
    }
    if exists|x: int, y: int|
        #[trigger] is_at(c[0], x, y) && 0 <= x < 0x400_0000 && 0 <= y < 0x400_0000 && (x + crop_w(c)
            > w || y + crop_h(c) > h) {
        let (x, y) = choose|x: int, y: int|
            #[trigger] is_at(c[0], x, y) && 0 <= x < 0x400_0000 && 0 <= y < 0x400_0000 && (x
                + crop_w(c) > w || y + crop_h(c) > h);
        let (a, b) = (x as real, y as real);
        assert(a.floor() == x && b.floor() == y);
        lemma_count(x, a);
        lemma_count(y, b);
    }
}

/// A rectangle that cannot be cut out has a crop of the pixels that the geometry warped
/// to the sides of the crop, turned where it is tall.
pub proof fn law_odd_rectangle_is_warped<G: Geometry>(
    g: &G,
    img: &ImageRgb,
    rect: &Quad,
    r: Option<ImageRgb>,
)
    requires
        img.wf(),
        call_ensures(crop_rect::<G>, (g, img, rect), r),
        ({
            let c = corners(*rect)@;
            &&& is_odd(c, img.w as int, img.h as int)
            &&& crop_w(c) < 0x400_0000
            &&& crop_h(c) < 0x400_0000
        }),
    ensures
        ({
            let c = corners(*rect);
            let (cw, ch) = (crop_w(c@) as usize, crop_h(c@) as usize);
            &&& r is None <==> crop_w(c@) == 0 || crop_h(c@) == 0
            &&& r matches Some(crop) ==> exists|data: Vec<u8>|
                {
                    &&& #[trigger] call_ensures(
                        G::warp_crop,
                        (g, &img.data, img.w, img.h, &c, cw, ch),
                        data,
                    )
                    &&& if 2 * ch < 3 * cw {
                        crop.data@ == data@ && crop.w == cw && crop.h == ch
                    } else {
                        call_ensures(G::rot90_ccw, (g, &data, cw, ch), (crop.data, crop.w, crop.h))
                    }
                }
        }),
{
    reveal(crop_w);
    reveal(crop_h);
    let c = corners(*rect);
    let (cw, ch) = (crop_w(c@) as usize, crop_h(c@) as usize);
    assert(crops(r, g, img, *rect));
    lemma_odd(c@, img.w as int, img.h as int);
    if let Some(crop) = r {
        law_tall_crop_is_turned(cw as int, ch as int);
        assert(is_crop(crop, g, img, c));
        let data = choose|data: Vec<u8>| #[trigger]
            are_pixels(data, g, img, c, cw, ch) && if is_turned(cw as int, ch as int) {
                call_ensures(G::rot90_ccw, (g, &data, cw, ch), (crop.data, crop.w, crop.h))
            } else {
                crop.data@ == data@ && crop.w == cw && crop.h == ch
            };
        assert(call_ensures(G::warp_crop, (g, &img.data, img.w, img.h, &c, cw, ch), data));
    }
}

} // verus!
