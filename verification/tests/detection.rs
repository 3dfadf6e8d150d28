//! The detector's input and output: sizes, maps, regions, boxes, crops.

use faster_paddle::boxes::{order_boxes, quad_to_box4, sort_boxes, Quad};
use faster_paddle::components::{component_extrema, component_runs, Pt};
use faster_paddle::crop::{crop_boxes, crop_quad, keep_crops, order_corners};
use faster_paddle::detect::{det_input, det_resize_dims, det_resize_dims_with_min};
use faster_paddle::engine::{Engine, Env};
use faster_paddle::float::{F32, F64};
use faster_paddle::levels::{image_row, join_rows, Levels, Network};
use faster_paddle::mask::{candidates, dilate_2x2, threshold};
use faster_paddle::postprocess::{candidate_box, db_postprocess, place_boxes, Geometry, Judge};
use faster_paddle::resize::{column_taps, resize_bilinear_rgb, ImageRgb};

fn d(x: f64) -> F64 {
    F64::from_bits(x.to_bits())
}

fn s(x: f32) -> F32 {
    F32::from_bits(x.to_bits())
}

fn f(x: F64) -> f64 {
    f64::from_bits(x.to_bits())
}

fn pt(x: f64, y: f64) -> Pt {
    (d(x), d(y))
}

fn quad(p: [(f64, f64); 4]) -> Quad {
    [
        pt(p[0].0, p[0].1),
        pt(p[1].0, p[1].1),
        pt(p[2].0, p[2].1),
        pt(p[3].0, p[3].1),
    ]
}

fn plain(q: &Quad) -> Vec<(f64, f64)> {
    q.iter().map(|p| (f(p.0), f(p.1))).collect()
}

fn convex_hull(points: &[(f64, f64)]) -> Vec<(f64, f64)> {
    let mut p = points.to_vec();
    p.sort_by(|a, b| a.partial_cmp(b).unwrap());
    p.dedup();
    if p.len() < 3 {
        return p;
    }
    let cross = |o: (f64, f64), a: (f64, f64), b: (f64, f64)| {
        (a.0 - o.0) * (b.1 - o.1) - (a.1 - o.1) * (b.0 - o.0)
    };
    let mut half = |items: Vec<(f64, f64)>| {
        let mut out: Vec<(f64, f64)> = Vec::new();
        for q in items {
            while out.len() >= 2 && cross(out[out.len() - 2], out[out.len() - 1], q) <= 0.0 {
                out.pop();
            }
            out.push(q);
        }
        out.pop();
        out
    };
    let mut lower = half(p.clone());
    p.reverse();
    lower.extend(half(p));
    lower
}

/// The bounding rectangle stands for the smallest one, and a bilinear warp over a
/// translation for the perspective warp.
struct Plane;

impl Geometry for Plane {
    fn min_area_rect(&self, points: &Vec<Pt>) -> (Quad, F64) {
        let xs: Vec<f64> = points.iter().map(|p| f(p.0)).collect();
        let ys: Vec<f64> = points.iter().map(|p| f(p.1)).collect();
        let (l, r) = (
            xs.iter().cloned().fold(f64::INFINITY, f64::min),
            xs.iter().cloned().fold(f64::NEG_INFINITY, f64::max),
        );
        let (t, b) = (
            ys.iter().cloned().fold(f64::INFINITY, f64::min),
            ys.iter().cloned().fold(f64::NEG_INFINITY, f64::max),
        );
        (
            quad([(l, t), (r, t), (r, b), (l, b)]),
            d((r - l).min(b - t)),
        )
    }

    fn box_score_fast(&self, pred: &[F32], _pw: usize, _ph: usize, _quad: &Quad) -> F32 {
        pred[0]
    }

    fn poly_area(&self, quad: &Quad) -> F64 {
        let p = plain(quad);
        d((p[1].0 - p[0].0) * (p[3].1 - p[0].1))
    }

    fn poly_perimeter(&self, quad: &Quad) -> F64 {
        let p = plain(quad);
        d(2.0 * ((p[1].0 - p[0].0) + (p[3].1 - p[0].1)))
    }

    fn unclip_rect(&self, quad: &Quad, dist: F64) -> Vec<Pt> {
        let p = plain(quad);
        let k = f(dist);
        vec![
            pt(p[0].0 - k, p[0].1 - k),
            pt(p[1].0 + k, p[1].1 - k),
            pt(p[2].0 + k, p[2].1 + k),
            pt(p[3].0 - k, p[3].1 + k),
        ]
    }

    fn warp_crop(
        &self,
        data: &Vec<u8>,
        w: usize,
        h: usize,
        quad: &Quad,
        cw: usize,
        ch: usize,
    ) -> Vec<u8> {
        let p = plain(quad);
        warp(data, w, h, &p, cw, ch)
    }

    fn rot90_ccw(&self, data: &Vec<u8>, w: usize, h: usize) -> (Vec<u8>, usize, usize) {
        let mut out = Vec::new();
        for y in 0..w {
            for x in 0..h {
                let at = (x * w + (w - 1 - y)) * 3;
                out.extend_from_slice(&data[at..at + 3]);
            }
        }
        (out, h, w)
    }
}

/// Bilinear sampling along the sides of a parallelogram.
fn warp(data: &[u8], w: usize, h: usize, p: &[(f64, f64)], cw: usize, ch: usize) -> Vec<u8> {
    let ux = ((p[1].0 - p[0].0) / cw as f64, (p[1].1 - p[0].1) / cw as f64);
    let uy = ((p[3].0 - p[0].0) / ch as f64, (p[3].1 - p[0].1) / ch as f64);
    let mut out = Vec::new();
    for y in 0..ch {
        for x in 0..cw {
            let sx = p[0].0 + x as f64 * ux.0 + y as f64 * uy.0;
            let sy = p[0].1 + x as f64 * ux.1 + y as f64 * uy.1;
            let x0 = (sx.floor().max(0.0) as usize).min(w - 1);
            let y0 = (sy.floor().max(0.0) as usize).min(h - 1);
            let (x1, y1) = ((x0 + 1).min(w - 1), (y0 + 1).min(h - 1));
            let (ax, ay) = (sx - sx.floor(), sy - sy.floor());
            for c in 0..3 {
                let at = |x: usize, y: usize| data[(y * w + x) * 3 + c] as f64;
                let top = at(x0, y0) * (1.0 - ax) + at(x1, y0) * ax;
                let bottom = at(x0, y1) * (1.0 - ax) + at(x1, y1) * ax;
                out.push((top * (1.0 - ay) + bottom * ay + 0.5) as u8);
            }
        }
    }
    out
}

#[test]
fn dilation_merges_gapped_components() {
    // two 2x2 blocks with a one-pixel gap stay separate, merge with dilate
    let (w, h) = (5, 2);
    let fg = vec![1, 1, 0, 1, 1, 1, 1, 0, 1, 1];
    assert_eq!(
        component_extrema(&mut fg.clone(), w, h, usize::MAX).len(),
        2
    );
    let d = dilate_2x2(&fg, w, h);
    assert_eq!(component_extrema(&mut d.clone(), w, h, usize::MAX).len(), 1);
    // single pixel expands down-right into a 2x2 block
    let d3 = dilate_2x2(&[1, 0, 0, 0, 0, 0, 0, 0, 0], 3, 3);
    assert_eq!(d3, vec![1, 1, 0, 1, 1, 0, 0, 0, 0]);
}

#[test]
fn scanline_components_preserve_pixel_hulls() {
    // Exhaust every 3x3 map, including diagonal-only 8-connected regions,
    // then larger deterministic maps with holes, bridges and edge runs.
    for sample in 0..560u64 {
        let (w, h) = if sample < 512 { (3, 3) } else { (31, 19) };
        let mut state = sample + 1;
        let pixels: Vec<u8> = (0..w * h)
            .map(|i| {
                if sample < 512 {
                    ((sample >> i) & 1) as u8
                } else {
                    state = state.wrapping_mul(6364136223846793005).wrapping_add(1);
                    ((state >> 32) % 3 != 0) as u8
                }
            })
            .collect();
        let mut visited = vec![false; pixels.len()];
        let mut expected = Vec::new();
        for seed in 0..pixels.len() {
            if visited[seed] || pixels[seed] == 0 {
                continue;
            }
            let mut pending = vec![seed];
            visited[seed] = true;
            let mut points = Vec::new();
            while let Some(at) = pending.pop() {
                let (x, y) = (at % w, at / w);
                points.push((x as f64, y as f64));
                for ny in y.saturating_sub(1)..=(y + 1).min(h - 1) {
                    for nx in x.saturating_sub(1)..=(x + 1).min(w - 1) {
                        let ni = ny * w + nx;
                        if !visited[ni] && pixels[ni] != 0 {
                            visited[ni] = true;
                            pending.push(ni);
                        }
                    }
                }
            }
            if points.len() >= 4 {
                expected.push(convex_hull(&points));
            }
        }
        let actual: Vec<_> = component_extrema(&mut pixels.clone(), w, h, usize::MAX)
            .iter()
            .map(|p| {
                let p: Vec<(f64, f64)> = p.iter().map(|q| (f(q.0), f(q.1))).collect();
                convex_hull(&p)
            })
            .collect();
        assert_eq!(actual, expected, "map {sample}");
        let limited = component_extrema(&mut pixels.clone(), w, h, 1);
        assert_eq!(limited.len(), expected.len().min(1));
    }
}

#[test]
fn regions_come_in_scan_order_and_leave_the_map() {
    let (w, h) = (6, 3);
    let map = vec![
        0, 0, 0, 0, 1, 1, //
        1, 1, 0, 0, 1, 1, //
        1, 1, 0, 0, 0, 1,
    ];
    let mut left = map.clone();
    let runs = component_runs(&mut left, w, h, usize::MAX);
    assert_eq!(
        runs,
        vec![
            vec![(4, 0), (5, 0), (4, 1), (5, 1), (5, 2)],
            vec![(0, 1), (1, 1), (0, 2), (1, 2)],
        ]
    );
    assert_eq!(left, vec![0; 18]);
    // with one region wanted, the second stays in the map
    let mut left = map.clone();
    assert_eq!(component_runs(&mut left, w, h, 1).len(), 1);
    assert_eq!(left.iter().filter(|&&v| v != 0).count(), 4);
    // none wanted: nothing is taken
    let mut left = map.clone();
    assert!(component_runs(&mut left, w, h, 0).is_empty());
    assert_eq!(left, map);
    assert!(component_runs(&mut Vec::new(), 0, 7, 3).is_empty());
}

#[test]
fn runs_are_gathered_above_before_below() {
    // a plus sign: the seed is the top; each run brings the runs beside it
    let (w, h) = (3, 4);
    let mut map = vec![0, 1, 0, 1, 1, 1, 1, 0, 1, 0, 0, 0];
    let runs = component_runs(&mut map, w, h, usize::MAX);
    assert_eq!(runs, vec![vec![(1, 0), (0, 1), (2, 1), (2, 2), (0, 2)]]);
}

#[test]
fn detection_minimum_side_can_be_disabled() {
    assert_eq!(det_resize_dims_with_min(804, 505, 1600, 736), (1184, 736));
    assert_eq!(det_resize_dims_with_min(804, 505, 1600, 0), (800, 512));
    for cap in [32, 33, 63, 1000, 1599] {
        let (w, h) = det_resize_dims_with_min(2480, 3508, cap, 736);
        assert!(w.max(h) <= cap as usize);
        assert!(w % 32 == 0 && h % 32 == 0);
    }
}

#[test]
fn det_resize_caps_long_side() {
    // large image: long side capped near max_side, rounded to a multiple of 32
    let (w, h) = det_resize_dims(2480, 3508, 1600);
    assert!(w.max(h) <= 1600 && w.max(h) >= 1568, "{w}x{h}");
    assert!(w % 32 == 0 && h % 32 == 0);
    // an image already within [736, max]: only /32 rounding, no large rescale
    let (w2, h2) = det_resize_dims(900, 800, 1600);
    assert!((w2 as i64 - 900).abs() <= 32 && (h2 as i64 - 800).abs() <= 32);
    assert!(w2 % 32 == 0 && h2 % 32 == 0);
}

#[test]
fn detector_sides_agree_with_plain_floating_point() {
    let reference = |w: usize, h: usize, max_side: i64, min_side: i64| {
        let (h, w) = (h as i64, w as i64);
        let ratio = if w.min(h) < min_side {
            min_side as f64 / w.min(h) as f64
        } else {
            1.0
        };
        let mut rh = (h as f64 * ratio) as i64;
        let mut rw = (w as f64 * ratio) as i64;
        if rh.max(rw) > max_side {
            let r2 = max_side as f64 / rh.max(rw) as f64;
            rh = (rh as f64 * r2) as i64;
            rw = (rw as f64 * r2) as i64;
        }
        let cap = (max_side / 32).max(1) * 32;
        rh = (((rh as f64 / 32.0).round() as i64) * 32).clamp(32, cap);
        rw = (((rw as f64 / 32.0).round() as i64) * 32).clamp(32, cap);
        (rw as usize, rh as usize)
    };
    for w in [0, 1, 15, 16, 47, 48, 505, 736, 804, 1000, 1601, 4000, 123457] {
        for h in [1, 31, 33, 200, 735, 736, 737, 1599, 3508] {
            for max_side in [0, 5, 32, 700, 960, 1600, 4000] {
                for min_side in [0, 64, 736] {
                    assert_eq!(
                        det_resize_dims_with_min(w, h, max_side, min_side),
                        reference(w, h, max_side, min_side),
                        "{w}x{h} {max_side} {min_side}"
                    );
                }
            }
        }
    }
    // the law that the shorter side is brought up to the least side
    assert_eq!(det_resize_dims_with_min(100, 200, 4000, 736).0, 736);
}

#[test]
fn detector_planes_are_normalized_by_plane() {
    let data: Vec<u8> = (0..4 * 3 * 3).map(|i| (i * 7 % 256) as u8).collect();
    let img = ImageRgb { w: 4, h: 3, data };
    let levels = Levels::new(Network::Detector);
    let mut input = vec![s(5.0); 7];
    det_input(&img, 6, 5, &levels, &mut input);
    let rgb = resize_bilinear_rgb(&img.data, 4, 3, 6, 5);
    let mean = [0.485f32, 0.456, 0.406];
    let std = [0.229f32, 0.224, 0.225];
    assert_eq!(input.len(), 90);
    for c in 0..3 {
        let alpha = 1.0 / (255.0 * std[c]);
        let beta = -mean[c] / std[c];
        for y in 0..5 {
            for x in 0..6 {
                let v = rgb[(y * 6 + x) * 3 + 2 - c];
                let want = v as f32 * alpha + beta;
                let got = f32::from_bits(input[(c * 5 + y) * 6 + x].to_bits());
                assert_eq!(got, want);
            }
        }
    }
}

#[test]
fn threshold_marks_what_is_above() {
    let pred = [s(0.1), s(0.2), s(0.21), s(f32::NAN), s(1.0)];
    assert_eq!(threshold(&pred, s(0.2)), vec![0, 0, 1, 0, 1]);
    assert_eq!(threshold(&[], s(0.2)), Vec::<u8>::new());
}

#[test]
fn dilation_joins_candidates() {
    let pred: Vec<F32> = [1, 1, 0, 1, 1, 1, 1, 0, 1, 1]
        .iter()
        .map(|&v| s(v as f32 * 0.9))
        .collect();
    assert_eq!(candidates(&pred, 5, 2, s(0.2), 10, false).len(), 2);
    assert_eq!(candidates(&pred, 5, 2, s(0.2), 10, true).len(), 1);
    assert_eq!(candidates(&pred, 5, 2, s(0.2), 1, false).len(), 1);
}

fn judge(box_thresh: f32) -> Judge {
    Judge {
        pw: 20,
        ph: 10,
        src_w: 40,
        src_h: 30,
        box_thresh: s(box_thresh),
        unclip_ratio: d(1.4),
    }
}

#[test]
fn candidates_are_grown_and_scaled_to_the_source() {
    let pred = vec![s(0.5); 200];
    let points = vec![pt(4.0, 2.0), pt(14.0, 2.0), pt(14.0, 6.0), pt(4.0, 6.0)];
    let q = candidate_box(&Plane, &points, &pred, &judge(0.4)).unwrap();
    // 10 by 4: moved out by 40 * 1.4 / 28 = 2, then scaled by 2 and 3
    assert_eq!(
        plain(&q),
        vec![(4.0, 0.0), (32.0, 0.0), (32.0, 24.0), (4.0, 24.0)]
    );
    // corners outside the source are brought inside
    let points = vec![pt(0.0, 0.0), pt(19.0, 0.0), pt(19.0, 9.0), pt(0.0, 9.0)];
    let q = candidate_box(&Plane, &points, &pred, &judge(0.4)).unwrap();
    assert_eq!(
        plain(&q),
        vec![(0.0, 0.0), (40.0, 0.0), (40.0, 30.0), (0.0, 30.0)]
    );
}

#[test]
fn poor_candidates_are_turned_down() {
    let pred = vec![s(0.5); 200];
    let flat = vec![pt(4.0, 2.0), pt(14.0, 2.0), pt(14.0, 4.5), pt(4.0, 4.5)];
    assert!(candidate_box(&Plane, &flat, &pred, &judge(0.4)).is_none());
    let good = vec![pt(4.0, 2.0), pt(14.0, 2.0), pt(14.0, 6.0), pt(4.0, 6.0)];
    assert!(candidate_box(&Plane, &good, &pred, &judge(0.6)).is_none());
    assert!(candidate_box(&Plane, &good, &pred, &judge(0.5)).is_some());
    // without growth the rectangle stays below five
    let mut j = judge(0.4);
    j.unclip_ratio = d(0.0);
    assert!(candidate_box(&Plane, &good, &pred, &j).is_none());
}

struct NoOutline;

impl Geometry for NoOutline {
    fn min_area_rect(&self, points: &Vec<Pt>) -> (Quad, F64) {
        Plane.min_area_rect(points)
    }
    fn box_score_fast(&self, _: &[F32], _: usize, _: usize, _: &Quad) -> F32 {
        s(1.0)
    }
    fn poly_area(&self, quad: &Quad) -> F64 {
        Plane.poly_area(quad)
    }
    fn poly_perimeter(&self, _: &Quad) -> F64 {
        d(9e-7)
    }
    fn unclip_rect(&self, quad: &Quad, dist: F64) -> Vec<Pt> {
        Plane.unclip_rect(quad, dist)
    }
    fn warp_crop(
        &self,
        _: &Vec<u8>,
        _: usize,
        _: usize,
        _: &Quad,
        _: usize,
        _: usize,
    ) -> Vec<u8> {
        vec![7]
    }
    fn rot90_ccw(&self, data: &Vec<u8>, w: usize, h: usize) -> (Vec<u8>, usize, usize) {
        (data.clone(), h, w)
    }
}

#[test]
fn a_rectangle_without_outline_is_turned_down() {
    let pred = vec![s(0.5); 200];
    let good = vec![pt(4.0, 2.0), pt(14.0, 2.0), pt(14.0, 6.0), pt(4.0, 6.0)];
    assert!(candidate_box(&NoOutline, &good, &pred, &judge(0.4)).is_none());
}

#[test]
fn boxes_of_a_whole_map() {
    let mut pred = vec![s(0.0); 200];
    for y in 2..7 {
        for x in 3..13 {
            pred[y * 20 + x] = s(0.9);
        }
    }
    pred[0] = s(0.9);
    let boxes = db_postprocess(&Plane, &pred, &judge(0.4), s(0.2), 100, false);
    assert_eq!(boxes.len(), 1);
    assert!(db_postprocess(&Plane, &pred, &judge(0.95), s(0.2), 100, false).is_empty());
    assert!(db_postprocess(&Plane, &pred, &judge(0.4), s(0.2), 0, false).is_empty());
}

#[test]
fn boxes_are_sorted_by_line_and_column() {
    let at = |x: f64, y: f64| quad([(x, y), (x + 1.0, y), (x + 1.0, y + 1.0), (x, y + 1.0)]);
    let order = |v: Vec<(f64, f64)>| -> Vec<(f64, f64)> {
        sort_boxes(v.into_iter().map(|(x, y)| at(x, y)).collect())
            .iter()
            .map(|q| (f(q[0].0), f(q[0].1)))
            .collect()
    };
    // rows apart: top to bottom, then left to right
    assert_eq!(
        order(vec![(50.0, 40.0), (5.0, 20.0), (1.0, 40.0), (9.0, 0.0)]),
        vec![(9.0, 0.0), (5.0, 20.0), (1.0, 40.0), (50.0, 40.0)]
    );
    // rows nine pixels apart are one line
    assert_eq!(
        order(vec![(50.0, 0.0), (10.0, 9.0)]),
        vec![(10.0, 9.0), (50.0, 0.0)]
    );
    // ten apart are two
    assert_eq!(
        order(vec![(50.0, 0.0), (10.0, 10.0)]),
        vec![(50.0, 0.0), (10.0, 10.0)]
    );
    // in a chain of near rows only neighbours count
    assert_eq!(
        order(vec![(30.0, 0.0), (20.0, 6.0), (10.0, 12.0)]),
        vec![(20.0, 6.0), (30.0, 0.0), (10.0, 12.0)]
    );
    assert!(order(vec![]).is_empty());
    assert_eq!(order(vec![(f64::NAN, 0.0)]).len(), 1);
    // several boxes need a place each
    assert!(order_boxes(vec![at(1.0, 0.0), at(0.0, f64::NAN)]).is_none());
    assert!(order_boxes(vec![at(f64::NAN, 0.0), at(0.0, 1.0)]).is_none());
    assert_eq!(order_boxes(vec![at(0.0, f64::NAN)]).unwrap().len(), 1);
    let sorted = order_boxes(vec![at(1.0, 0.0), at(0.0, 0.0)]).unwrap();
    assert_eq!(f(sorted[0][0].0), 0.0);
}

#[test]
fn bounds_of_a_box() {
    let q = quad([(3.7, -2.5), (10.2, 4.0), (8.0, 9.9), (-1.5, 5.0)]);
    assert_eq!(quad_to_box4(&q), [-1, -2, 10, 9]);
    let q = quad([(f64::NAN, 1.0), (2.0, 1.0), (5.0, 3e12), (2.0, f64::NAN)]);
    assert_eq!(quad_to_box4(&q), [2, 1, 5, i32::MAX]);
    let q = quad([(f64::NAN, f64::NAN); 4]);
    assert_eq!(quad_to_box4(&q), [i32::MAX, i32::MAX, i32::MIN, i32::MIN]);
}

#[test]
fn axis_aligned_crop_matches_warp() {
    // deterministic pseudo-random image
    let (w, h) = (64, 40);
    let data: Vec<u8> = (0..w * h * 3).map(|i| ((i * 31 + 7) % 256) as u8).collect();
    let img = ImageRgb { w, h, data };
    // axis-aligned integer quad (any corner order; crop_quad re-orders)
    let corners = [(5.0, 8.0), (37.0, 8.0), (37.0, 20.0), (5.0, 20.0)];
    let fast = crop_quad(&Plane, &img, &quad(corners)).unwrap();
    // reference: force the generic warp on the same ordered quad
    let warped = warp(&img.data, w, h, &corners, 32, 12);
    assert_eq!(fast.w, 32);
    assert_eq!(fast.h, 12);
    assert_eq!(
        fast.data, warped,
        "fast path must equal the perspective warp"
    );
    let mixed = [(37.0, 20.0), (5.0, 8.0), (5.0, 20.0), (37.0, 8.0)];
    assert_eq!(crop_quad(&Plane, &img, &quad(mixed)).unwrap().data, warped);
}

/// Marks what was warped and what was turned.
struct Marks;

impl Geometry for Marks {
    fn min_area_rect(&self, points: &Vec<Pt>) -> (Quad, F64) {
        ([points[0], points[1], points[2], points[3]], d(1.0))
    }
    fn box_score_fast(&self, _: &[F32], _: usize, _: usize, _: &Quad) -> F32 {
        s(0.0)
    }
    fn poly_area(&self, _: &Quad) -> F64 {
        d(0.0)
    }
    fn poly_perimeter(&self, _: &Quad) -> F64 {
        d(0.0)
    }
    fn unclip_rect(&self, _: &Quad, _: F64) -> Vec<Pt> {
        Vec::new()
    }
    fn warp_crop(
        &self,
        _: &Vec<u8>,
        _: usize,
        _: usize,
        quad: &Quad,
        cw: usize,
        ch: usize,
    ) -> Vec<u8> {
        let p = plain(quad);
        vec![1, p[0].0 as u8, p[0].1 as u8, cw as u8, ch as u8]
    }
    fn rot90_ccw(&self, data: &Vec<u8>, w: usize, h: usize) -> (Vec<u8>, usize, usize) {
        (vec![2, data[0]], h, w)
    }
}

#[test]
fn slanted_boxes_are_warped_and_tall_ones_turned() {
    let img = ImageRgb {
        w: 30,
        h: 30,
        data: vec![9; 2700],
    };
    // fractions: warped from the upper left corner
    let q = quad([(2.5, 3.0), (12.5, 3.0), (12.5, 8.0), (2.5, 8.0)]);
    let c = crop_quad(&Marks, &img, &q).unwrap();
    assert_eq!((c.w, c.h, c.data), (10, 5, vec![1, 2, 3, 10, 5]));
    // outside the image: warped
    let q = quad([(25.0, 3.0), (35.0, 3.0), (35.0, 8.0), (25.0, 8.0)]);
    assert_eq!(crop_quad(&Marks, &img, &q).unwrap().data[0], 1);
    // inside: cut out
    let q = quad([(2.0, 3.0), (12.0, 3.0), (12.0, 8.0), (2.0, 8.0)]);
    assert_eq!(crop_quad(&Marks, &img, &q).unwrap().data, vec![9; 150]);
    // one and a half times as high as wide: turned
    let q = quad([(2.0, 3.0), (12.0, 3.0), (12.0, 18.0), (2.0, 18.0)]);
    let c = crop_quad(&Marks, &img, &q).unwrap();
    assert_eq!((c.w, c.h, c.data), (15, 10, vec![2, 9]));
    let q = quad([(2.0, 3.0), (12.0, 3.0), (12.0, 17.0), (2.0, 17.0)]);
    assert_eq!(crop_quad(&Marks, &img, &q).unwrap().h, 14);
    // no width: no crop
    let q = quad([(2.0, 3.0), (2.5, 3.0), (2.5, 8.0), (2.0, 8.0)]);
    assert!(crop_quad(&Marks, &img, &q).is_none());
}

#[test]
fn corners_are_ordered_clockwise() {
    let want = vec![(0.0, 1.0), (9.0, 0.0), (10.0, 5.0), (1.0, 6.0)];
    for turn in 0..4 {
        let mut p = want.clone();
        p.rotate_left(turn);
        let q = quad([p[0], p[1], p[2], p[3]]);
        assert_eq!(plain(&order_corners(&q)), want);
    }
    // an upright rectangle, in every order of its corners
    let want = vec![(2.0, 1.0), (8.0, 1.0), (8.0, 5.0), (2.0, 5.0)];
    for n in 0..256usize {
        let at = [n & 3, n >> 2 & 3, n >> 4 & 3, n >> 6];
        if (0..4).all(|k| at.contains(&k)) {
            let q = quad([want[at[0]], want[at[1]], want[at[2]], want[at[3]]]);
            assert_eq!(plain(&order_corners(&q)), want);
        }
    }
}

#[test]
fn empty_crops_are_left_out_with_their_boxes() {
    let img = |w: usize, h: usize| ImageRgb {
        w,
        h,
        data: vec![0; w * h * 3],
    };
    let at = |x: f64| quad([(x, 0.0); 4]);
    let list = vec![
        (Some(img(2, 3)), at(1.0)),
        (None, at(2.0)),
        (Some(img(0, 3)), at(3.0)),
        (Some(img(4, 1)), at(4.0)),
    ];
    let (crops, boxes) = keep_crops(list);
    let sizes: Vec<(usize, usize)> = crops.iter().map(|c| (c.w, c.h)).collect();
    assert_eq!(sizes, vec![(2, 3), (4, 1)]);
    let xs: Vec<f64> = boxes.iter().map(|q| f(q[0].0)).collect();
    assert_eq!(xs, vec![1.0, 4.0]);
}

fn at(x: f64, y: f64) -> Quad {
    quad([(x, y), (x + 4.0, y), (x + 4.0, y + 2.0), (x, y + 2.0)])
}

#[test]
fn boxes_have_one_order_however_they_come() {
    let places = [(30.0, 0.0), (20.0, 6.0), (10.0, 12.0), (0.0, 40.0), (7.0, 41.0)];
    let first: Vec<Quad> = places.iter().map(|p| at(p.0, p.1)).collect();
    let want: Vec<_> = sort_boxes(first.clone()).iter().map(plain).collect();
    for n in 0..120usize {
        let mut rest = first.clone();
        let mut boxes = Vec::new();
        let mut k = n;
        for m in (1..6usize).rev() {
            boxes.push(rest.remove(k % m));
            k /= m;
        }
        let sorted = sort_boxes(boxes);
        assert_eq!(sorted.iter().map(plain).collect::<Vec<_>>(), want);
        let again = sort_boxes(sorted);
        assert_eq!(again.iter().map(plain).collect::<Vec<_>>(), want);
    }
}

#[test]
fn boxes_ten_pixels_apart_are_read_downwards() {
    // a chain of near rows: what is ten pixels lower still comes later
    let boxes: Vec<Quad> = (0..12).map(|i| at(100.0 - 8.0 * i as f64, 4.0 * i as f64)).collect();
    let sorted = sort_boxes(boxes);
    for j in 0..sorted.len() {
        for i in 0..j {
            assert!(f(sorted[j][0].1) + 10.0 > f(sorted[i][0].1));
        }
    }
}

#[test]
fn a_short_side_is_brought_up_where_the_long_one_fits() {
    assert_eq!(det_resize_dims_with_min(100, 200, 1472, 736), (736, 1472));
    assert_eq!(det_resize_dims_with_min(333, 333, 736, 736), (736, 736));
    assert_eq!(det_resize_dims_with_min(700, 500, 1600, 736).1, 736);
    // one pixel longer, and the long side is cut down
    assert!(det_resize_dims_with_min(100, 220, 1472, 736).0 < 736);
}

fn colours(w: usize, h: usize) -> ImageRgb {
    ImageRgb {
        w,
        h,
        data: (0..w * h * 3).map(|i| (i % 251) as u8).collect(),
    }
}

#[test]
fn boxes_are_cut_out_with_their_own_crops() {
    let img = colours(60, 40);
    let flat = quad([(1.0, 1.0), (1.4, 1.0), (1.4, 3.0), (1.0, 3.0)]);
    let (crops, kept) = crop_boxes(&Plane, &img, &vec![at(8.0, 3.0), flat, at(2.0, 20.0)]);
    assert_eq!(crops.len(), 2);
    assert_eq!(plain(&kept[0]), plain(&at(8.0, 3.0)));
    assert_eq!(plain(&kept[1]), plain(&at(2.0, 20.0)));
    assert_eq!((crops[1].w, crops[1].h), (4, 2));
    assert_eq!(crops[1].data[..12], img.data[(20 * 60 + 2) * 3..(20 * 60 + 6) * 3]);
}

fn engine() -> Engine {
    let env = Env {
        approx_gelu: None,
        mempat: None,
        prepack: None,
        rec_spin: None,
        det_spin: None,
        rayon_threads: None,
        rec_min_width: None,
        rec_budget: None,
        det_min_side: None,
        det_max_candidates: None,
        det_use_dilation: None,
        threads: None,
        det_threads: None,
        rec_pool: None,
        det_thresh: None,
        det_box_thresh: None,
        det_unclip_ratio: None,
        text_score: None,
    };
    let (thresh, ratio) = (s(0.2), d(1.4));
    Engine::from_memory(vec![], 1, 1, 1, s(0.4), thresh, ratio, 100, s(0.0), false, 1, 1600, &env)
}

#[test]
fn the_detectors_output_becomes_crops_in_reading_order() {
    let img = colours(60, 40);
    let mut pred = vec![s(0.0); 60 * 40];
    let mut mark = |x0: usize, y0: usize| {
        for y in y0..y0 + 5 {
            for x in x0..x0 + 10 {
                pred[y * 60 + x] = s(0.9);
            }
        }
    };
    // the right one of the upper line is higher by two rows
    mark(40, 6);
    mark(10, 8);
    mark(20, 28);
    // the stand-in for the score reads the first number
    pred[0] = s(0.9);
    let e = engine();
    let (crops, boxes) = e.detect_crops(&Plane, &img, &pred, 60, 40).unwrap();
    let order: Vec<(f64, f64)> = boxes.iter().map(|b| (f(b[0].0), f(b[0].1))).collect();
    assert_eq!(order, vec![(8.0, 6.0), (38.0, 4.0), (18.0, 26.0)]);
    for (crop, b) in crops.iter().zip(&boxes) {
        let (x, y) = (f(b[0].0) as usize, f(b[0].1) as usize);
        assert_eq!(crop.w, f(b[1].0) as usize - x);
        assert_eq!(crop.h, f(b[3].1) as usize - y);
        assert_eq!(crop.data[..3], img.data[(y * 60 + x) * 3..(y * 60 + x) * 3 + 3]);
    }
    // step by step, as threads do it
    let judge = e.judge(&img, 60, 40);
    let decisions: Vec<Option<Quad>> = e
        .candidates(&pred, 60, 40)
        .iter()
        .map(|points| candidate_box(&Plane, points, &pred, &judge))
        .collect();
    let placed = place_boxes(&decisions).unwrap();
    let list = placed.iter().map(|b| (crop_quad(&Plane, &img, b), *b)).collect();
    let (parts, kept) = keep_crops(list);
    assert_eq!(kept.iter().map(plain).collect::<Vec<_>>(), boxes.iter().map(plain).collect::<Vec<_>>());
    for (a, b) in parts.iter().zip(&crops) {
        assert_eq!((a.w, a.h), (b.w, b.h));
        assert_eq!(a.data, b.data);
    }
    assert_eq!((judge.src_w, judge.src_h, judge.pw, judge.ph), (60, 40, 60, 40));
    // a fainter output has no boxes
    pred[0] = s(0.3);
    assert!(e.detect_crops(&Plane, &img, &pred, 60, 40).unwrap().0.is_empty());
}

#[test]
fn decisions_are_placed_without_those_turned_down() {
    let boxes = place_boxes(&vec![None, Some(at(5.0, 30.0)), None, Some(at(9.0, 1.0))]).unwrap();
    assert_eq!(boxes.iter().map(plain).collect::<Vec<_>>(), vec![
        plain(&at(9.0, 1.0)),
        plain(&at(5.0, 30.0)),
    ]);
    assert!(place_boxes(&vec![None, None]).unwrap().is_empty());
    assert!(place_boxes(&vec![Some(at(f64::NAN, 0.0)), None, Some(at(1.0, 1.0))]).is_none());
}

#[test]
fn rows_made_one_by_one_are_the_detectors_planes() {
    let img = colours(13, 9);
    let levels = Levels::new(Network::Detector);
    let (rw, rh) = (32, 64);
    let mut input = Vec::new();
    det_input(&img, rw, rh, &levels, &mut input);
    let taps = column_taps(img.w, rw);
    let rows: Vec<Vec<F32>> =
        (0..3 * rh).map(|i| image_row(&img, &taps, rh, i, rw, &levels)).collect();
    let joined = join_rows(&rows, rw);
    assert_eq!(joined.len(), input.len());
    assert!(joined.iter().zip(&input).all(|(a, b)| a.to_bits() == b.to_bits()));
}
