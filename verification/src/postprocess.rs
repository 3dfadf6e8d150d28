//! From the regions of the detector's output to boxes in the source image.

use crate::boxes;
use crate::boxes::{order_boxes, Quad};
use crate::components::Pt;
use crate::detect;
use crate::float::bounds;
use crate::float::model;
use crate::float::model::{Format, Val};
use crate::float::{F32, F64};
use crate::mask;
use crate::mask::candidates;
use vstd::prelude::*;

verus! {

/// The plane geometry that boxes are made with. Nothing is taken for granted of
/// what these methods return.
pub trait Geometry {
    /// The corners of the smallest rectangle around the points, and the length of
    /// its shorter side.
    fn min_area_rect(&self, points: &Vec<Pt>) -> (Quad, F64);

    /// The mean of the detector's output inside a box.
    fn box_score_fast(&self, pred: &[F32], pw: usize, ph: usize, quad: &Quad) -> F32;

    /// The area of a box.
    fn poly_area(&self, quad: &Quad) -> F64;

    /// The length of a box's outline.
    fn poly_perimeter(&self, quad: &Quad) -> F64;

    /// The corners of a box whose sides have been moved outwards.
    fn unclip_rect(&self, quad: &Quad, dist: F64) -> Vec<Pt>;

    /// The pixels inside a box, warped to `cw` by `ch`.
    fn warp_crop(
        &self,
        data: &Vec<u8>,
        w: usize,
        h: usize,
        quad: &Quad,
        cw: usize,
        ch: usize,
    ) -> Vec<u8>;

    /// The image turned by a quarter to the left, and its sides.
    fn rot90_ccw(&self, data: &Vec<u8>, w: usize, h: usize) -> (Vec<u8>, usize, usize);
}

/// What the geometry measured of one candidate.
pub ghost struct Measures {
    pub rect: Quad,
    pub side: F64,
    pub score: F32,
    pub area: F64,
    pub perimeter: F64,
    pub grown: Vec<Pt>,
    pub outer: Quad,
    pub outer_side: F64,
}

/// The sizes and settings by which a candidate is judged.
#[derive(Clone, Copy)]
pub struct Judge {
    pub pw: usize,
    pub ph: usize,
    pub src_w: usize,
    pub src_h: usize,
    pub box_thresh: F32,
    pub unclip_ratio: F64,
}

/// A rectangle's outline that is too short to be one: a millionth.
pub open spec fn no_outline() -> F64 {
    F64 { bits: 0x3eb0_c6f7_a0b5_ed8d }
}

/// A coordinate brought to the source image: scaled, rounded and kept inside.
pub open spec fn to_source(v: Val, src: int, map: int) -> Val {
    let scale = detect::num(src).over(detect::num(map), Format::Double);
    let r = v.times(scale, Format::Double).rounded();
    if r.less(Val::Fin(0real)) {
        Val::Fin(0real)
    } else if detect::num(src).less(r) {
        detect::num(src)
    } else {
        r
    }
}

impl Judge {
    /// The rectangle is too thin.
    pub open spec fn too_thin(self, m: Measures) -> bool {
        m.side@.less(Val::Fin(3real))
    }

    /// The score is below the threshold.
    pub open spec fn too_faint(self, m: Measures) -> bool {
        m.score@.less(self.box_thresh@)
    }

    /// The rectangle has no outline.
    pub open spec fn no_rect(self, m: Measures) -> bool {
        m.perimeter@.less(no_outline()@)
    }

    /// How far the sides are moved outwards.
    pub open spec fn distance(self, m: Measures) -> Val {
        m.area@.times(self.unclip_ratio@, Format::Double).over(m.perimeter@, Format::Double)
    }

    /// The moved rectangle is too thin.
    pub open spec fn still_thin(self, m: Measures) -> bool {
        m.outer_side@.less(Val::Fin(5real))
    }

    /// The candidate is turned down.
    pub open spec fn rejects(self, m: Measures) -> bool {
        self.too_thin(m) || self.too_faint(m) || self.no_rect(m) || self.still_thin(m)
    }

    /// The measures are outcomes of the geometry on these points, as far as they
    /// are taken: nothing is measured of a candidate once it is turned down.
    pub open spec fn measured<G: Geometry>(
        self,
        g: &G,
        points: &Vec<Pt>,
        pred: &[F32],
        m: Measures,
    ) -> bool {
        &&& call_ensures(G::min_area_rect, (g, points), (m.rect, m.side))
        &&& !self.too_thin(m) ==> {
            &&& call_ensures(G::box_score_fast, (g, pred, self.pw, self.ph, &m.rect), m.score)
            &&& !self.too_faint(m) ==> {
                &&& call_ensures(G::poly_area, (g, &m.rect), m.area)
                &&& call_ensures(G::poly_perimeter, (g, &m.rect), m.perimeter)
                &&& !self.no_rect(m) ==> exists|dist: F64|
                    {
                        &&& dist@ == self.distance(m)
                        &&& #[trigger] call_ensures(
                            G::unclip_rect,
                            (g, &m.rect, dist),
                            m.grown,
                        )
                        &&& call_ensures(
                            G::min_area_rect,
                            (g, &m.grown),
                            (m.outer, m.outer_side),
                        )
                    }
            }
        }
    }

    /// The corners of the outer rectangle, in the source image.
    pub open spec fn is_scaled(self, q: Quad, outer: Quad) -> bool {
        forall|i: int|
            0 <= i < 4 ==> (#[trigger] q@[i]).0@ == to_source(
                outer@[i].0@,
                self.src_w as int,
                self.pw as int,
            ) && q@[i].1@ == to_source(outer@[i].1@, self.src_h as int, self.ph as int)
    }

    /// What becomes of a candidate with these measures.
    pub open spec fn judged(self, r: Option<Quad>, m: Measures) -> bool {
        match r {
            None => self.rejects(m),
            Some(q) => !self.rejects(m) && self.is_scaled(q, m.outer),
        }
    }

    /// What becomes of a candidate.
    pub open spec fn decides<G: Geometry>(
        self,
        g: &G,
        points: &Vec<Pt>,
        pred: &[F32],
        r: Option<Quad>,
    ) -> bool {
        exists|m: Measures| #[trigger] self.measured(g, points, pred, m) && self.judged(r, m)
    }
}

fn bring_to_source(v: F64, src: usize, map: usize) -> (r: F64)
    ensures
        r@ == to_source(v@, src as int, map as int),
{
    let top: F64 = F64::from_u64(src as u64);
    let zero: F64 = F64::from_u16(0);
    let scale: F64 = top.over(F64::from_u64(map as u64));
    let r: F64 = v.times(scale).rounded();
    if r.less(zero) {
        zero
    } else if top.less(r) {
        top
    } else {
        r
    }
}

fn scale_corner(judge: &Judge, p: Pt) -> (r: Pt)
    ensures
        r.0@ == to_source(p.0@, judge.src_w as int, judge.pw as int),
        r.1@ == to_source(p.1@, judge.src_h as int, judge.ph as int),
{
    (bring_to_source(p.0, judge.src_w, judge.pw), bring_to_source(p.1, judge.src_h, judge.ph))
}

fn scale_quad(judge: &Judge, q: &Quad) -> (r: Quad)
    ensures
        judge.is_scaled(r, *q),
{
    [
        scale_corner(judge, q[0]),
        scale_corner(judge, q[1]),
        scale_corner(judge, q[2]),
        scale_corner(judge, q[3]),
    ]
}

/// The box of a candidate in the source image, unless it is turned down: its
/// rectangle is too thin or too faint, or still too thin once its sides have been
/// moved outwards.
pub fn candidate_box<G: Geometry>(
    g: &G,
    points: &Vec<Pt>,
    pred: &[F32],
    judge: &Judge,
) -> (r: Option<Quad>)
    ensures
        judge.decides(g, points, pred, r),
{
    let (rect, side): (Quad, F64) = g.min_area_rect(points);
    let ghost mut m: Measures = arbitrary();
    proof {
        m = Measures { rect, side, ..m };
    }
    if side.less(F64::from_u16(3)) {
        assert(judge.measured(g, points, pred, m));
        return None;
    }
    let score: F32 = g.box_score_fast(pred, judge.pw, judge.ph, &rect);
    proof {
        m = Measures { score, ..m };
    }
    if score.less(judge.box_thresh) {
        assert(judge.measured(g, points, pred, m));
        return None;
    }
    let area: F64 = g.poly_area(&rect);
    let perimeter: F64 = g.poly_perimeter(&rect);
    proof {
        m = Measures { area, perimeter, ..m };
    }
    if perimeter.less(F64::from_bits(0x3eb0_c6f7_a0b5_ed8d)) {
        assert(judge.measured(g, points, pred, m));
        return None;
    }
    let dist: F64 = area.times(judge.unclip_ratio).over(perimeter);
    let grown: Vec<Pt> = g.unclip_rect(&rect, dist);
    let (outer, outer_side): (Quad, F64) = g.min_area_rect(&grown);
    proof {
        m = Measures { grown, outer, outer_side, ..m };
        assert(dist@ == judge.distance(m));
        assert(judge.measured(g, points, pred, m));
    }
    if outer_side.less(F64::from_u16(5)) {
        return None;
    }
    let q: Quad = scale_quad(judge, &outer);
    assert(judge.judged(Some(q), m));
    Some(q)
}

/// The boxes that are there, in order.
pub open spec fn present(boxes: Seq<Option<Quad>>) -> Seq<Quad>
    decreases boxes.len(),
{
    if boxes.len() == 0 {
        Seq::empty()
    } else {
        let rest = present(boxes.drop_last());
        match boxes.last() {
            None => rest,
            Some(q) => rest.push(q),
        }
    }
}

/// The boxes are the decisions on the candidates, in order, without those turned
/// down.
pub open spec fn are_decided<G: Geometry>(
    boxes: Seq<Option<Quad>>,
    g: &G,
    cands: Seq<Vec<Pt>>,
    pred: &[F32],
    judge: Judge,
) -> bool {
    &&& boxes.len() == cands.len()
    &&& forall|i: int|
        0 <= i < cands.len() ==> judge.decides(g, &cands[i], pred, #[trigger] boxes[i])
}

/// The boxes of a detector output whose map is `map`.
pub open spec fn are_boxes<G: Geometry>(
    r: Seq<Quad>,
    g: &G,
    map: Seq<u8>,
    limit: int,
    pred: &[F32],
    judge: Judge,
) -> bool {
    exists|cands: Seq<Vec<Pt>>, boxes: Seq<Option<Quad>>|
        {
            &&& mask::are_candidates(cands, map, judge.pw as int, judge.ph as int, limit)
            &&& #[trigger] are_decided(boxes, g, cands, pred, judge)
            &&& r == present(boxes)
        }
}

/// The text boxes of the detector's output, in the source image.
pub fn db_postprocess<G: Geometry>(
    g: &G,
    pred: &[F32],
    judge: &Judge,
    det_thresh: F32,
    det_max_candidates: usize,
    det_use_dilation: bool,
) -> (r: Vec<Quad>)
    requires
        pred@.len() == judge.pw * judge.ph,
    ensures
        are_boxes(
            r@,
            g,
            mask::mask(
                pred@,
                det_thresh@,
                judge.pw as int,
                judge.ph as int,
                det_use_dilation,
            ),
            det_max_candidates as int,
            pred,
            *judge,
        ),
{
    let cands: Vec<Vec<Pt>> = candidates(
        pred,
        judge.pw,
        judge.ph,
        det_thresh,
        det_max_candidates,
        det_use_dilation,
    );
    let mut out: Vec<Quad> = Vec::new();
    let ghost mut boxes: Seq<Option<Quad>> = Seq::empty();
    let mut i: usize = 0;
    while i < cands.len()
        invariant
            i <= cands@.len(),
            boxes.len() == i,
            forall|k: int|
                0 <= k < i ==> judge.decides(g, &cands@[k], pred, #[trigger] boxes[k]),
            out@ == present(boxes),
        decreases cands@.len() - i,
    {
        let r: Option<Quad> = candidate_box(g, &cands[i], pred, judge);
        let ghost before = boxes;
        proof {
            boxes = boxes.push(r);
            assert(boxes.drop_last() =~= before);
        }
        if let Some(q) = r {
            out.push(q);
        }
        i = i + 1;
    }
    proof {
        assert(are_decided(boxes, g, cands@, pred, *judge));
    }
    out
}

/// Puts the boxes of the candidates that were not turned down into reading order;
/// none where there are two or more and one of them has no place.
pub fn place_boxes(decisions: &Vec<Option<Quad>>) -> (r: Option<Vec<Quad>>)
    ensures
        match r {
            Some(sorted) => is_placeable(present(decisions@)) && sorted@ == boxes::reading_order(
                present(decisions@),
            ),
            None => !is_placeable(present(decisions@)),
        },
{
    let mut out: Vec<Quad> = Vec::new();
    let mut i: usize = 0;
    assert(decisions@.take(0) =~= Seq::<Option<Quad>>::empty());
    while i < decisions.len()
        invariant
            i <= decisions@.len(),
            out@ == present(decisions@.take(i as int)),
        decreases decisions@.len() - i,
    {
        assert(decisions@.take(i + 1).drop_last() =~= decisions@.take(i as int));
        if let Some(q) = decisions[i] {
            out.push(q);
        }
        i = i + 1;
    }
    assert(decisions@.take(i as int) =~= decisions@);
    order_boxes(out)
}

/// The boxes can be put into order: there is one at most, or each has a place.
pub open spec fn is_placeable(quads: Seq<Quad>) -> bool {
    quads.len() <= 1 || boxes::all_placed(quads)
}

/// A coordinate brought to the source image lies in it: it is no number only
/// where there was none, and otherwise from zero to the side.
pub proof fn law_box_is_inside_source(v: Val, src: int, map: int)
    requires
        0 <= src <= usize::MAX,
        0 < map <= usize::MAX,
    ensures
        v is Nan ==> to_source(v, src, map) is Nan,
        !(to_source(v, src, map) is Nan) ==> !to_source(v, src, map).less(Val::Fin(0real))
            && !detect::num(src).less(to_source(v, src, map)),
{
    bounds::lemma_double_error(src as real);
}

/// A product hardly changes where one factor hardly does.
proof fn lemma_product_near(v: real, s: real, t: real, e: real, top: real)
    requires
        -top <= v <= top,
        s - e <= t <= s + e,
        top >= 0real,
    ensures
        v * s - top * e <= v * t <= v * s + top * e,
{
    let d = t - s;
    assert(-(top * e) <= v * d <= top * e) by (nonlinear_arith)
        requires
            -top <= v <= top,
            -e <= d <= e,
    ;
    assert(v * t == v * s + v * d) by (nonlinear_arith)
        requires
            t == s + d,
    ;
}

/// A coordinate of the detector's output becomes a whole pixel of the source image:
/// the one nearest to `v * src / map`, but for what is lost in rounding. What lies
/// ahead of the output's first pixel goes to the first of the source, and what lies
/// at its end or behind goes to the end of the source.
pub proof fn law_coordinate_is_scaled(v: real, src: int, map: int) -> (n: int)
    requires
        0 <= src < 0x10_0000,
        0 < map < 0x10_0000,
        -0x20_0000real <= v <= 0x20_0000real,
    ensures
        to_source(Val::Fin(v), src, map) == Val::Fin(n as real),
        0real <= v <= map as real ==> v * src as real / map as real - 501real / 1000real <= n as real
            <= v * src as real / map as real + 501real / 1000real,
        v <= 0real ==> n == 0,
        v >= map as real ==> n == src,
        0 <= n <= src,
{
    let (a, b) = (src as real, map as real);
    bounds::lemma_whole(Format::Double, src);
    bounds::lemma_whole(Format::Double, map);
    let s = a / b;
    assert(0real <= s <= a && s * b == a) by (nonlinear_arith)
        requires
            b >= 1real,
            a >= 0real,
            s == a / b,
    ;
    let t = bounds::lemma_double_error(s);
    let e = 1real / 0x1_0000_0000int as real;
    assert(s - e <= t <= s + e);
    lemma_product_near(v, s, t, e, 0x20_0000real);
    let exact = v * s;
    assert(exact == v * a / b) by (nonlinear_arith)
        requires
            b >= 1real,
            s == a / b,
            exact == v * s,
    ;
    let top = 0x20_0000real;
    assert(-(top * 0x10_0000real) <= exact <= top * 0x10_0000real) by (nonlinear_arith)
        requires
            exact == v * s,
            -top <= v <= top,
            0real <= s <= 0x10_0000real,
            top >= 0real,
    ;
    let p = v * t;
    let y = bounds::lemma_double_error(p);
    assert(exact - 1real / 1000real <= y <= exact + 1real / 1000real);
    assert(Val::Fin(v).times(Val::Fin(t), Format::Double) == Val::Fin(y));
    let r = model::half_away(y);
    assert(Val::Fin(y).rounded() == Val::Fin(r as real));
    assert(y - 1real / 2real <= r as real <= y + 1real / 2real);
    if v <= 0real {
        assert(p <= 0real && exact <= 0real && (v == 0real ==> exact == 0real)) by (nonlinear_arith)
            requires
                v <= 0real,
                t >= 0real,
                s >= 0real,
                p == v * t,
                exact == v * s,
        ;
        assert(r <= 0);
        0
    } else if v >= b {
        assert(exact >= a && (v == b ==> exact == a)) by (nonlinear_arith)
            requires
                v >= b,
                s >= 0real,
                s * b == a,
                exact == v * s,
        ;
        assert(r as real > a - 1real);
        assert(r >= src);
        src
    } else {
        assert(0real <= exact <= a && p >= 0real) by (nonlinear_arith)
            requires
                0real <= v <= b,
                s >= 0real,
                t >= 0real,
                s * b == a,
                p == v * t,
                exact == v * s,
        ;
        assert(r >= 0);
        assert(((r) as real) < a + 1real);
        assert(r <= src);
        r
    }
}

/// `u` is the whole pixel of a side of `src` pixels where `x`, on a side of `map`,
/// comes to lie: at most about half a pixel away.
pub open spec fn is_pixel_of(u: Val, x: Val, src: int, map: int) -> bool {
    match x {
        Val::Fin(x) => 0real <= x <= map as real ==> (u matches Val::Fin(n) && n == n.floor()
            as real && x * src as real / map as real - 501real / 1000real <= n <= x * src as real
            / map as real + 501real / 1000real),
        _ => true,
    }
}

/// Corner `p` of the detector's output is `c` in the source image.
pub open spec fn is_corner(c: Pt, p: Pt, judge: Judge) -> bool {
    &&& is_pixel_of(c.0@, p.0@, judge.src_w as int, judge.pw as int)
    &&& is_pixel_of(c.1@, p.1@, judge.src_h as int, judge.ph as int)
}

/// The corners of `q` are those of `outer` in the source image.
pub open spec fn is_brought(judge: Judge, q: Quad, outer: Quad) -> bool {
    forall|i: int| #![trigger q@[i]] 0 <= i < 4 ==> is_corner(q@[i], outer@[i], judge)
}

/// `dist` is the area of a box times the ratio, by its outline, to within a
/// thousandth.
pub open spec fn is_offset(dist: Val, area: Val, ratio: Val, perimeter: Val) -> bool {
    match (area, ratio, perimeter) {
        (Val::Fin(a), Val::Fin(k), Val::Fin(p)) => 0real <= a <= 0x4000_0000real && 0real <= k
            <= 64real && p >= 1real ==> (dist matches Val::Fin(d) && a * k / p - 1real / 1000real
            <= d <= a * k / p + 1real / 1000real),
        _ => true,
    }
}

proof fn lemma_offset(a: real, k: real, p: real)
    requires
        0real <= a <= 0x4000_0000real,
        0real <= k <= 64real,
        p >= 1real,
    ensures
        is_offset(
            Val::Fin(a).times(Val::Fin(k), Format::Double).over(Val::Fin(p), Format::Double),
            Val::Fin(a),
            Val::Fin(k),
            Val::Fin(p),
        ),
{
    let ak = a * k;
    let top = 0x10_0000_0000real;
    assert(0real <= ak <= top) by (nonlinear_arith)
        requires
            0real <= a <= 0x4000_0000real,
            0real <= k <= 64real,
            ak == a * k,
            top == 0x4000_0000real * 64real,
    ;
    let x = bounds::lemma_double_error(ak);
    let e = 1real / 4000real;
    assert(ak - e <= x <= ak + e);
    let (q, exact) = (x / p, ak / p);
    assert(exact - e <= q <= exact + e && -1real <= q <= top + 1real) by (nonlinear_arith)
        requires
            p >= 1real,
            q == x / p,
            exact == ak / p,
            ak - e <= x <= ak + e,
            0real <= ak <= top,
            0real <= e <= 1real,
    ;
    let d = bounds::lemma_double_error(q);
}

proof fn lemma_is_offset(area: Val, ratio: Val, perimeter: Val)
    ensures
        is_offset(
            area.times(ratio, Format::Double).over(perimeter, Format::Double),
            area,
            ratio,
            perimeter,
        ),
{
    if let (Val::Fin(a), Val::Fin(k), Val::Fin(p)) = (area, ratio, perimeter) {
        if 0real <= a <= 0x4000_0000real && 0real <= k <= 64real && p >= 1real {
            lemma_offset(a, k, p);
        }
    }
}

proof fn lemma_brought(judge: Judge, q: Quad, outer: Quad)
    requires
        0 < judge.pw < 0x10_0000,
        0 < judge.ph < 0x10_0000,
        judge.src_w < 0x10_0000,
        judge.src_h < 0x10_0000,
        judge.is_scaled(q, outer),
    ensures
        is_brought(judge, q, outer),
{
    assert forall|i: int| #![trigger q@[i]] 0 <= i < 4 implies is_corner(
        q@[i],
        outer@[i],
        judge,
    ) by {
        let p = outer@[i];
        lemma_is_pixel(p.0@, judge.src_w as int, judge.pw as int);
        lemma_is_pixel(p.1@, judge.src_h as int, judge.ph as int);
    }
}

proof fn lemma_is_pixel(x: Val, src: int, map: int)
    requires
        0 <= src < 0x10_0000,
        0 < map < 0x10_0000,
    ensures
        is_pixel_of(to_source(x, src, map), x, src, map),
{
    if let Val::Fin(v) = x {
        if 0real <= v <= map as real {
            let n = law_coordinate_is_scaled(v, src, map);
            let y = n as real;
            assert(y.floor() == n);
        }
    }
}

/// What becomes of a candidate, by what the geometry says of it. It has a box where
/// its rectangle is at least three pixels wide, its score reaches the threshold, its
/// outline has a length, and the rectangle made of the moved sides is at least five
/// pixels wide; the box is that rectangle in the source image. It has none only
/// where one of these fails.
pub proof fn law_candidate_is_judged<G: Geometry>(
    g: &G,
    points: &Vec<Pt>,
    pred: &[F32],
    judge: &Judge,
    r: Option<Quad>,
) -> (m: Measures)
    requires
        0 < judge.pw < 0x10_0000,
        0 < judge.ph < 0x10_0000,
        judge.src_w < 0x10_0000,
        judge.src_h < 0x10_0000,
        call_ensures(candidate_box::<G>, (g, points, pred, judge), r),
    ensures
        call_ensures(G::min_area_rect, (g, points), (m.rect, m.side)),
        r is Some || !m.side@.less(Val::Fin(3real)) ==> call_ensures(
            G::box_score_fast,
            (g, pred, judge.pw, judge.ph, &m.rect),
            m.score,
        ),
        r is Some || !m.side@.less(Val::Fin(3real)) && !m.score@.less(judge.box_thresh@) ==> {
            &&& call_ensures(G::poly_area, (g, &m.rect), m.area)
            &&& call_ensures(G::poly_perimeter, (g, &m.rect), m.perimeter)
        },
        r is Some || !m.side@.less(Val::Fin(3real)) && !m.score@.less(judge.box_thresh@)
            && !m.perimeter@.less(no_outline()@) ==> {
            &&& exists|dist: F64| #[trigger]
                call_ensures(G::unclip_rect, (g, &m.rect, dist), m.grown) && is_offset(
                    dist@,
                    m.area@,
                    judge.unclip_ratio@,
                    m.perimeter@,
                )
            &&& call_ensures(G::min_area_rect, (g, &m.grown), (m.outer, m.outer_side))
        },
        r is None <==> m.side@.less(Val::Fin(3real)) || m.score@.less(judge.box_thresh@)
            || m.perimeter@.less(no_outline()@) || m.outer_side@.less(Val::Fin(5real)),
        r matches Some(q) ==> is_brought(*judge, q, m.outer),
{
    let m = choose|m: Measures| #[trigger] judge.measured(g, points, pred, m) && judge.judged(r, m);
    assert(judge.measured(g, points, pred, m) && judge.judged(r, m));
    lemma_is_offset(m.area@, judge.unclip_ratio@, m.perimeter@);
    if let Some(q) = r {
        lemma_brought(*judge, q, m.outer);
    }
    m
}

/// Of the decisions the boxes are kept, in order, and nothing else is.
pub proof fn law_boxes_that_are_there(a: Seq<Option<Quad>>, b: Seq<Option<Quad>>, q: Quad)
    ensures
        present(a + b) == present(a) + present(b),
        present(seq![None]) == Seq::<Quad>::empty(),
        present(seq![Some(q)]) == seq![q],
    decreases b.len(),
{
    assert(seq![None::<Quad>].drop_last() =~= Seq::<Option<Quad>>::empty());
    assert(seq![Some(q)].drop_last() =~= Seq::<Option<Quad>>::empty());
    assert(present(Seq::<Option<Quad>>::empty()) == Seq::<Quad>::empty());
    assert(present(seq![Some(q)]) =~= seq![q]);
    if b.len() == 0 {
        assert(a + b =~= a);
        assert(present(a) + present(b) =~= present(a));
    } else {
        law_boxes_that_are_there(a, b.drop_last(), q);
        assert((a + b).drop_last() =~= a + b.drop_last());
        assert((a + b).last() == b.last());
        assert(present(a + b) =~= present(a) + present(b));
    }
}

/// The outline that is too short is a millionth long.
pub proof fn law_outline_is_a_millionth() -> (z: real)
    ensures
        no_outline()@ == Val::Fin(z),
        -1real / 1000000000000000real <= z * 1000000real - 1real <= 1real / 1000000000000000real,
{
    let n = 0x3eb0_c6f7_a0b5_ed8dint;
    let (field, frac) = (0x3ebint, 0xc6f7_a0b5_ed8dint);
    vstd::arithmetic::div_mod::lemma_fundamental_div_mod_converse(
        n,
        0x10_0000_0000_0000,
        field,
        frac,
    );
    assert((n / 0x10_0000_0000_0000) % 2048 == field);
    model::lemma_two_pow_nat(72);
    model::lemma_two_pow_add(72, -72);
    vstd::arithmetic::power2::lemma2_to64();
    vstd::arithmetic::power2::lemma2_to64_rest();
    vstd::arithmetic::power2::lemma_pow2_adds(64, 8);
    let (up, p) = (model::two_pow(72), model::two_pow(-72));
    assert(up == 0x100_0000_0000_0000_0000real);
    assert(model::two_pow(0) == 1real);
    let m = (0x10_0000_0000_0000int + frac) as real;
    let z = m * p;
    assert(z == m / up) by (nonlinear_arith)
        requires
            up * p == 1real,
            up > 0real,
            z == m * p,
    ;
    z
}

/// Where the output has the sides of the source image, a coordinate goes to the nearest
/// whole pixel, and from halfway between two to the farther one.
pub proof fn law_halves_go_up(v: F64, x: real, side: int) -> (n: int)
    requires
        v@ == Val::Fin(x),
        model::nearest(Format::Double, x) == Val::Fin(x),
        0real <= x <= side as real,
        0 < side < 0x10_0000,
    ensures
        to_source(v@, side, side) == Val::Fin(n as real),
        n as real - 1real / 2real <= x && x < n as real + 1real / 2real,
{
    let s = side as real;
    bounds::lemma_whole(Format::Double, side);
    bounds::lemma_whole(Format::Double, 1);
    assert(s / s == 1real) by (nonlinear_arith)
        requires
            s >= 1real,
    ;
    bounds::lemma_quotient(Format::Double, s, s, 1real);
    assert(x * 1real == x) by (nonlinear_arith);
    bounds::lemma_product(Format::Double, x, 1real, x);
    let y = x + 1real / 2real;
    let n = y.floor();
    assert(n as real <= y && y < n as real + 1real);
    assert(0 <= n <= side) by {
        assert(((n) as real) < s + 1real);
    }
    n
}

} // verus!
