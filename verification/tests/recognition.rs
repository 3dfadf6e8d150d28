//! Reading crops: widths, batches, tensors, texts.

use faster_paddle::boxes::Quad;
use faster_paddle::ctc::{can_decode, ctc_decode, decode_batch};
use faster_paddle::float::{F32, F64};
use faster_paddle::levels::{Levels, Network};
use faster_paddle::plan::{plan_rec_batches, plan_recognition, stable_order};
use faster_paddle::recognize::{rec_input, rec_width, rec_widths, REC_MAX_W};
use faster_paddle::resize::{resize_bilinear_rgb, ImageRgb};
use faster_paddle::results::{gather_texts, recognize, split_results};
use faster_paddle::tensor::resize_to_tensor;

fn s(x: f32) -> F32 {
    F32::from_bits(x.to_bits())
}

fn f(x: F32) -> f32 {
    f32::from_bits(x.to_bits())
}

fn singles(v: &[f32]) -> Vec<F32> {
    v.iter().map(|&x| s(x)).collect()
}

#[test]
fn recognition_budget_accounts_for_padding_and_honors_cap() {
    let widths: Vec<_> = [(10, 48), (20, 48), (500, 48)]
        .into_iter()
        .map(|(w, h)| rec_width(w, h, 320))
        .collect();
    assert_eq!(widths, [320, 320, 500]);
    assert_eq!(
        plan_rec_batches(&vec![0, 1, 2], &widths, 800, 4),
        vec![vec![0, 1], vec![2]]
    );
    assert_eq!(
        plan_rec_batches(&vec![0, 1, 2], &widths, 800, 1),
        vec![vec![0], vec![1], vec![2]]
    );
    assert_eq!(rec_width(100000, 1, 64), REC_MAX_W);
    assert_eq!(rec_width(1, 10000, 64), 64);
}

#[test]
fn widths_agree_with_plain_floating_point() {
    for w in [0, 1, 7, 48, 99, 500, 1234, 99999] {
        for h in [0, 1, 3, 7, 31, 48, 100, 4001] {
            let want = ((48.0 * w as f64 / h as f64) as usize).clamp(64, 3200);
            assert_eq!(rec_width(w, h, 64), want, "{w}x{h}");
            if h > 0 {
                assert_eq!(want, (48 * w / h).clamp(64, 3200));
            }
        }
    }
}

#[test]
fn batcher_narrow_crops_group_wide_run_alone() {
    // widths sorted ascending: three narrow (100) then two wide (2000)
    let widths = vec![100usize, 100, 100, 2000, 2000];
    let order: Vec<usize> = (0..widths.len()).collect();
    let b = plan_rec_batches(&order, &widths, 2400, 64);
    // narrow: 2400/100 = up to 24 -> all 3 in one batch; wide: 2400/2000 -> 1 each
    assert_eq!(b[0], vec![0, 1, 2]);
    assert_eq!(b[1], vec![3]);
    assert_eq!(b[2], vec![4]);
}

#[test]
fn batcher_covers_all_indices_once() {
    let widths: Vec<usize> = (0..37).map(|i| 50 + (i * 91) % 1500).collect();
    let mut order: Vec<usize> = (0..widths.len()).collect();
    order.sort_by_key(|&i| widths[i]);
    let b = plan_rec_batches(&order, &widths, 2400, 8);
    let mut seen: Vec<usize> = b.iter().flatten().copied().collect();
    seen.sort();
    assert_eq!(seen, (0..37).collect::<Vec<_>>());
    assert!(b.iter().all(|batch| batch.len() <= 8));
}

#[test]
fn batches_keep_to_the_budget_whatever_it_is() {
    let widths = vec![usize::MAX, 3, usize::MAX];
    let b = plan_rec_batches(&vec![0, 1, 2], &widths, 10, 0);
    assert_eq!(b, vec![vec![0], vec![1], vec![2]]);
    assert!(plan_rec_batches(&Vec::new(), &widths, 10, 4).is_empty());
    // unsorted orders are taken as they come
    let widths = vec![100, 300, 100];
    let b = plan_rec_batches(&vec![1, 0, 2], &widths, 600, 9);
    assert_eq!(b, vec![vec![1, 0], vec![2]]);
}

#[test]
fn sorting_keeps_equal_keys_in_order() {
    assert_eq!(stable_order(&vec![5, 1, 5, 0, 1]), vec![3, 1, 4, 0, 2]);
    assert!(stable_order(&Vec::new()).is_empty());
}

#[test]
fn plans_start_with_the_costliest_batch() {
    let widths = vec![320, 320, 500, 2500, 330];
    let plan = plan_recognition(&widths, 800, 2, 4, 100);
    assert_eq!(
        plan.batches,
        vec![vec![0, 1], vec![4], vec![2], vec![3]]
    );
    assert_eq!(plan.jobs, vec![3, 0, 2, 1]);
    assert!(!plan.wide);
    // wide ones only, and a worker for each
    let widths = vec![2100, 2048];
    assert!(plan_recognition(&widths, 800, 1, 2, 6906).wide);
    assert!(!plan_recognition(&widths, 800, 1, 1, 6906).wide);
    let widths = vec![1024, 2048];
    assert!(!plan_recognition(&widths, 800, 1, 2, 6906).wide);
    assert!(plan_recognition(&widths, 800, 1, 2, 6907).wide);
    let none = plan_recognition(&Vec::new(), 800, 1, 0, 10);
    assert!(none.batches.is_empty() && none.jobs.is_empty() && none.wide);
}

fn picture(w: usize, h: usize) -> ImageRgb {
    ImageRgb {
        w,
        h,
        data: (0..w * h * 3)
            .map(|i| ((i * 37 + 7) % 256) as u8)
            .collect(),
    }
}

#[test]
fn fused_tensor_matches_resize_and_clears_old_padding() {
    let img = ImageRgb {
        w: 29,
        h: 13,
        data: (0..29 * 13 * 3)
            .map(|i| ((i * 37 + 7) % 256) as u8)
            .collect(),
    };
    for (dw, dh) in [(29, 13), (7, 9), (63, 48), (1, 1), (800, 736)] {
        let rgb = resize_bilinear_rgb(&img.data, img.w, img.h, dw, dh);
        let stride = dw + 11;
        let mut actual = vec![s(123.0); 3 * stride * dh];
        let normalize = |v: u8, _: usize| (v as f32 / 255.0 - 0.5) / 0.5;
        resize_to_tensor(&img, dw, dh, stride, &mut actual, |v, c| {
            s(normalize(v, c))
        });
        for c in 0..3 {
            for y in 0..dh {
                for x in 0..stride {
                    let expected = if x < dw {
                        normalize(rgb[(y * dw + x) * 3 + 2 - c], c)
                    } else {
                        0.0
                    };
                    assert_eq!(f(actual[(c * dh + y) * stride + x]), expected);
                }
            }
        }
    }
}

#[test]
fn batch_tensor_holds_each_crop_at_the_common_width() {
    let crops = vec![picture(96, 24), picture(50, 48), picture(3, 200)];
    let levels = Levels::new(Network::Recognizer);
    let mut data = vec![s(9.0); 5];
    let width = rec_input(&crops, &vec![1, 0, 2], 64, &levels, &mut data);
    assert_eq!(width, 192);
    assert_eq!(rec_widths(&crops, 64), vec![192, 64, 64]);
    assert_eq!(data.len(), 3 * 3 * 48 * 192);
    for (b, &i) in [1usize, 0, 2].iter().enumerate() {
        let crop = &crops[i];
        let filled = [192, 50, 1][i];
        let rgb = resize_bilinear_rgb(&crop.data, crop.w, crop.h, filled, 48);
        for c in 0..3 {
            for y in 0..48 {
                for x in 0..192 {
                    let want = if x < filled {
                        (rgb[(y * filled + x) * 3 + 2 - c] as f32 / 255.0 - 0.5) / 0.5
                    } else {
                        0.0
                    };
                    let at = b * 3 * 48 * 192 + (c * 48 + y) * 192 + x;
                    assert_eq!(f(data[at]), want);
                }
            }
        }
    }
    // no crops: an empty tensor of the least width
    assert_eq!(rec_input(&crops, &Vec::new(), 64, &levels, &mut data), 64);
    assert!(data.is_empty());
}

#[test]
fn very_wide_crops_are_squeezed() {
    let crops = vec![picture(700, 1)];
    let levels = Levels::new(Network::Recognizer);
    let mut data = Vec::new();
    assert_eq!(rec_input(&crops, &vec![0], 64, &levels, &mut data), 3200);
    let rgb = resize_bilinear_rgb(&crops[0].data, 700, 1, 3200, 48);
    let last = (rgb[3199 * 3 + 2] as f32 / 255.0 - 0.5) / 0.5;
    assert_eq!(f(data[3199]), last);
}

#[test]
fn ctc_argmax_first_max_wins_ties() {
    // two equal maxima per row: index of the FIRST must win (matches the
    // strict `>` scan it replaced)
    let chars = vec![
        "blank".to_string(),
        "A".to_string(),
        "B".to_string(),
        "C".to_string(),
    ];
    let rows = [
        [0.1f32, 0.8, 0.8, 0.1], // tie A/B -> A
        [0.1, 0.1, 0.9, 0.9],    // tie B/C -> B
    ];
    let logits: Vec<F32> = rows.iter().flatten().copied().map(s).collect();
    let (text, _) = ctc_decode(&chars, &logits, 2, 4);
    assert_eq!(text, "AB");
}

#[test]
fn ctc_decode_removes_repeats_and_blank() {
    // chars: index0=blank, 1='A', 2='B'
    let chars = vec!["blank".to_string(), "A".to_string(), "B".to_string()];
    let cls = 3;
    // timesteps: A A blank B  -> "AB"
    let rows = [
        [0.1f32, 0.8, 0.1], // A
        [0.1, 0.8, 0.1],    // A (dup)
        [0.9, 0.05, 0.05],  // blank
        [0.1, 0.1, 0.8],    // B
    ];
    let logits: Vec<F32> = rows.iter().flatten().copied().map(s).collect();
    let (text, score) = ctc_decode(&chars, &logits, 4, cls);
    assert_eq!(text, "AB");
    assert!(f(score) > 0.7);
}

#[test]
fn ctc_scores_are_means_of_the_read_steps() {
    let chars = vec!["blank".to_string(), "x".to_string(), "yz".to_string()];
    let logits = singles(&[0.0, 0.25, 0.5, 0.9, 0.0, 0.0, 0.1, 0.75, 0.2, 0.1, 0.7, 0.2]);
    let (text, score) = ctc_decode(&chars, &logits, 4, 3);
    assert_eq!(text, "yzx");
    assert_eq!(f(score), ((0.5f64 + 0.75f32 as f64) / 2.0) as f32);
    // a repeat after a blank is read again
    let logits = singles(&[0.0, 1.0, 0.0, 1.0, 0.0, 0.0, 0.0, 1.0, 0.0]);
    assert_eq!(ctc_decode(&chars, &logits, 3, 3).0, "xx");
    // nothing read, no steps, no classes
    let logits = singles(&[1.0, 0.0, 0.0]);
    let (text, score) = ctc_decode(&chars, &logits, 1, 3);
    assert_eq!((text.as_str(), f(score)), ("", 0.0));
    assert_eq!(ctc_decode(&chars, &[], 0, 3).0, "");
    assert_eq!(ctc_decode(&chars, &[], 5, 0).0, "");
    // a row without numbers counts as blank
    let logits = singles(&[f32::NAN, f32::NAN, f32::NAN]);
    assert_eq!(ctc_decode(&chars, &logits, 1, 3).0, "");
    let logits = singles(&[f32::NAN, f32::NEG_INFINITY, f32::NEG_INFINITY]);
    assert_eq!(ctc_decode(&chars, &logits, 1, 3).0, "x");
}

#[test]
fn a_batch_is_decoded_crop_by_crop() {
    let chars = vec!["blank".to_string(), "a".to_string()];
    let preds = singles(&[0.0, 1.0, 1.0, 0.0, 1.0, 0.0, 0.0, 0.5]);
    let out = decode_batch(&chars, &preds, 2, 2, 2).unwrap();
    assert_eq!(out[0].0, "a");
    assert_eq!(f(out[0].1), 1.0);
    assert_eq!(out[1].0, "a");
    assert_eq!(f(out[1].1), 0.5);
    // a class without a text
    let preds = singles(&[0.0, 0.1, 1.0]);
    assert!(!can_decode(2, &preds, 1, 3));
    assert!(can_decode(3, &preds, 1, 3));
    assert!(decode_batch(&chars, &preds, 1, 1, 3).is_none());
    assert!(decode_batch(&chars, &[], 0, 1, 3).unwrap().is_empty());
}

fn read(text: &str, score: f32) -> (String, F32) {
    (text.to_string(), s(score))
}

#[test]
fn every_crop_gets_its_own_text() {
    let batches = vec![vec![3, 0], vec![2], vec![1]];
    // in any order of the answers
    let answers = vec![
        (2, vec![read("one", 0.1)]),
        (0, vec![read("three", 0.3), read("zero", 0.0)]),
        (1, vec![read("two", 0.2)]),
    ];
    let texts = gather_texts(4, &batches, &answers);
    let names: Vec<&str> = texts.iter().map(|t| t.0.as_str()).collect();
    assert_eq!(names, vec!["zero", "one", "two", "three"]);
    assert_eq!(f(texts[3].1), 0.3);
    // unanswered crops stay empty
    let texts = gather_texts(4, &batches, &vec![(1, vec![read("two", 0.2)])]);
    assert_eq!(texts[0].0, "");
    assert_eq!(f(texts[0].1), 0.0);
    assert_eq!(texts[2].0, "two");
}

fn boxes(n: usize) -> Vec<Quad> {
    (0..n)
        .map(|i| {
            let p = (F64::from_u64(i as u64), F64::from_u64(2 * i as u64));
            [p, p, p, p]
        })
        .collect()
}

#[test]
fn poor_texts_are_dropped_under_a_threshold() {
    let texts = vec![
        read("good", 0.9),
        read("poor", 0.4),
        read(" \u{3000}\t", 0.9),
        read("", 0.9),
        read("exact", 0.5),
        read("odd", f32::NAN),
    ];
    let out = recognize(&texts, &boxes(6), s(0.5));
    let names: Vec<&str> = out.iter().map(|r| r.text.as_str()).collect();
    assert_eq!(names, vec!["good", "exact", "odd"]);
    assert_eq!(out[1].box4, [4, 8, 4, 8]);
    assert_eq!(f(out[1].score), 0.5);
    // without a threshold everything is kept, blank texts and negative scores too
    let mut texts = texts;
    texts.push(read("below", -0.5));
    assert_eq!(recognize(&texts, &boxes(7), s(0.0)).len(), 7);
    assert_eq!(recognize(&texts, &boxes(3), s(0.0)).len(), 3);
}

#[test]
fn each_image_keeps_its_own_results() {
    let texts = vec![
        read("a0", 0.1),
        read("a1", 0.9),
        read("c0", 0.9),
        read("c1", 0.2),
        read("c2", 0.8),
    ];
    let out = split_results(&texts, &boxes(5), &vec![2, 0, 3], s(0.5));
    let names: Vec<Vec<&str>> = out
        .iter()
        .map(|v| v.iter().map(|r| r.text.as_str()).collect())
        .collect();
    assert_eq!(names, vec![vec!["a1"], vec![], vec!["c0", "c2"]]);
    let out = split_results(&texts, &boxes(5), &vec![2, 0, 3], s(0.0));
    let sizes: Vec<usize> = out.iter().map(|v| v.len()).collect();
    assert_eq!(sizes, vec![2, 0, 3]);
}

#[test]
fn resize_identity() {
    let src: Vec<u8> = (0..(4 * 3 * 3)).map(|i| (i % 256) as u8).collect();
    let out = resize_bilinear_rgb(&src, 4, 3, 4, 3);
    assert_eq!(out, src);
}

#[test]
fn resize_solid_color_preserved() {
    // a solid color image resized stays the same color everywhere
    let (w, h) = (7, 5);
    let mut src = vec![0u8; w * h * 3];
    for px in src.chunks_mut(3) {
        px[0] = 30;
        px[1] = 100;
        px[2] = 200;
    }
    let out = resize_bilinear_rgb(&src, w, h, 13, 9);
    for px in out.chunks(3) {
        assert_eq!((px[0], px[1], px[2]), (30, 100, 200));
    }
}

#[test]
fn resize_downscale_dims() {
    let src = vec![128u8; 100 * 80 * 3];
    let out = resize_bilinear_rgb(&src, 100, 80, 50, 40);
    assert_eq!(out.len(), 50 * 40 * 3);
}

#[test]
fn resizing_agrees_with_plain_floating_point() {
    let img = picture(11, 7);
    for (dw, dh) in [(1usize, 1usize), (5, 3), (11, 8), (30, 20), (12, 0)] {
        let out = resize_bilinear_rgb(&img.data, 11, 7, dw, dh);
        let (kx, ky) = (11f32 / dw as f32, 7f32 / dh as f32);
        assert_eq!(out.len(), dw * dh * 3);
        for y in 0..dh {
            for x in 0..dw {
                let sx = ((x as f32 + 0.5) * kx - 0.5).max(0.0);
                let sy = ((y as f32 + 0.5) * ky - 0.5).max(0.0);
                let (x0, y0) = ((sx.floor() as usize).min(10), (sy.floor() as usize).min(6));
                let (x1, y1) = ((x0 + 1).min(10), (y0 + 1).min(6));
                let (ax, ay) = (sx - sx.floor(), sy - sy.floor());
                for c in 0..3 {
                    let at = |x: usize, y: usize| img.data[(y * 11 + x) * 3 + c] as f32;
                    let top = at(x0, y0) * (1.0 - ax) + at(x1, y0) * ax;
                    let bot = at(x0, y1) * (1.0 - ax) + at(x1, y1) * ax;
                    let want = (top * (1.0 - ay) + bot * ay + 0.5) as u8;
                    assert_eq!(out[(y * dw + x) * 3 + c], want);
                }
            }
        }
    }
}

#[test]
fn resized_bytes_stay_within_those_of_the_picture() {
    let mut img = picture(9, 8);
    for (k, b) in img.data.iter_mut().enumerate() {
        // red from 3 to 8, green all 255, blue 0 or 1
        *b = [3 + (k % 6) as u8, 255, (k % 2) as u8][k % 3];
    }
    let lo: Vec<u8> = (0..3).map(|c| *img.data.iter().skip(c).step_by(3).min().unwrap()).collect();
    let hi: Vec<u8> = (0..3).map(|c| *img.data.iter().skip(c).step_by(3).max().unwrap()).collect();
    for (dw, dh) in [(1usize, 1usize), (4, 5), (9, 8), (23, 31), (200, 3)] {
        let out = resize_bilinear_rgb(&img.data, 9, 8, dw, dh);
        for (k, &b) in out.iter().enumerate() {
            assert!(lo[k % 3] <= b && b <= hi[k % 3]);
        }
    }
}

#[test]
fn recognizer_levels_lie_between_minus_one_and_one() {
    let levels = Levels::new(Network::Recognizer);
    for v in 0..=255u8 {
        let x = f(levels.of(v, 1));
        assert!((-1.0..=1.0).contains(&x));
        assert_eq!(x, (v as f32 / 255.0 - 0.5) / 0.5);
    }
    assert_eq!(f(levels.of(0, 0)), -1.0);
    assert_eq!(f(levels.of(255, 2)), 1.0);
}

#[test]
fn crops_fill_their_exact_width_rounded_up() {
    let levels = Levels::new(Network::Recognizer);
    for (w, h) in [(1usize, 3usize), (7, 3), (49, 48), (11, 7), (5, 33), (100, 49), (9, 9)] {
        let crops = vec![ImageRgb {
            w,
            h,
            data: vec![255; w * h * 3],
        }];
        let mut data = Vec::new();
        let width = rec_input(&crops, &vec![0], 320, &levels, &mut data);
        assert_eq!(width, 320);
        let want = ((48 * w + h - 1) / h).min(320).max(1);
        // white columns are ones, the padding zeros
        let filled = data[..width].iter().filter(|x| f(**x) == 1.0).count();
        assert_eq!(filled, want, "{w}x{h}");
        assert!(data[want..width].iter().all(|x| f(*x) == 0.0));
    }
}
