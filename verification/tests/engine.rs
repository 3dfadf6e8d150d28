//! Engines, their settings, and what is read from the environment.

use faster_paddle::assets::{asset_url, cache_path, cache_step, is_model, temp_name, CacheStep};
use faster_paddle::batch::{finish_ocr, image_fault, windows, Bound};
use faster_paddle::boxes::Quad;
use faster_paddle::config::{build_engine, plan_engine, ConfigError, ModelSize, Request};
use faster_paddle::dict::{class_list, parse_dict};
use faster_paddle::engine::{Engine, Env};
use faster_paddle::float::{F32, F64};
use faster_paddle::resize::ImageRgb;
use faster_paddle::results::{Answer, OcrResult, Read};
use faster_paddle::run::Pages;
use faster_paddle::values::{
    env_bool, env_flag, env_side, env_usize, parse_i64, parse_usize, same_text,
};

fn s(x: f32) -> F32 {
    F32::from_bits(x.to_bits())
}

fn d(x: f64) -> F64 {
    F64::from_bits(x.to_bits())
}

fn f(x: F64) -> f64 {
    f64::from_bits(x.to_bits())
}

fn no_env() -> Env {
    Env {
        approx_gelu: None,
        mempat: None,
        prepack: None,
        rec_spin: None,
        det_spin: None,
        rayon_threads: None,
        rec_min_width: None,
        rec_budget: None,
        det_min_side: None,
        det_max_candidates: None,
        det_use_dilation: None,
        threads: None,
        det_threads: None,
        rec_pool: None,
        det_thresh: None,
        det_box_thresh: None,
        det_unclip_ratio: None,
        text_score: None,
    }
}

fn request(size: &str) -> Request {
    Request {
        model_size: size.to_string(),
        threads: None,
        rec_batch: None,
        det_max_side: None,
        det_min_side: None,
        rec_min_width: None,
        det_thresh: None,
        det_box_thresh: None,
        det_unclip_ratio: None,
        det_max_candidates: None,
        text_score: None,
        det_use_dilation: None,
    }
}

fn text(v: &str) -> Option<String> {
    Some(v.to_string())
}

fn engine(req: &Request, env: &Env, cores: usize) -> Engine {
    let plan = match plan_engine(req, env, cores) {
        Ok(plan) => plan,
        Err(e) => panic!("{e:?}"),
    };
    match build_engine(&plan, vec!["a".to_string()], req, env) {
        Ok(e) => e,
        Err(e) => panic!("{e:?}"),
    }
}

fn setting(e: &Engine, name: &str) -> usize {
    e.settings().iter().find(|p| p.0 == name).unwrap().1
}

fn refusal(req: &Request, env: &Env) -> ConfigError {
    match plan_engine(req, env, 4) {
        Ok(_) => panic!("accepted"),
        Err(e) => e,
    }
}

#[test]
fn defaults_of_an_engine() {
    let e = engine(&request("tiny"), &no_env(), 16);
    let want = [
        ("threads", 16),
        ("approximate_gelu", 0),
        ("det_spin", 1),
        ("rec_spin", 1),
        ("det_threads", 8),
        ("rec_workers", 16),
        ("rec_threads", 1),
        ("wide_rec_threads", 4),
        ("wide_rec_workers", 4),
        ("rayon_threads", 16),
        ("rec_batch", 1),
        ("rec_budget", 800),
        ("rec_min_width", 64),
        ("det_min_side", 736),
        ("det_max_side", 1600),
        ("det_max_candidates", 3000),
        ("det_use_dilation", 0),
    ];
    assert_eq!(e.settings(), want.to_vec());
    let fractions: Vec<(&str, f64)> = e.det_settings().iter().map(|p| (p.0, f(p.1))).collect();
    assert_eq!(
        fractions,
        vec![
            ("det_thresh", 0.2f32 as f64),
            ("det_box_thresh", 0.4f32 as f64),
            ("det_unclip_ratio", 1.4),
            ("text_score", 0.0),
        ]
    );
    assert_eq!(e.chars, vec!["blank", "a", " "]);
    assert!(!e.mempat && e.prepack);
}

#[test]
fn sizes_have_their_own_defaults() {
    let small = engine(&request("small"), &no_env(), 64);
    assert_eq!(setting(&small, "rec_min_width"), 96);
    assert_eq!(setting(&small, "rec_workers"), 32);
    assert_eq!(setting(&small, "rec_threads"), 2);
    assert_eq!(f(small.det_settings()[1].1), 0.45f32 as f64);
    let medium = engine(&request("medium"), &no_env(), 64);
    assert_eq!(setting(&medium, "rec_min_width"), 320);
    assert_eq!(setting(&medium, "rec_workers"), 8);
    assert_eq!(setting(&medium, "rec_threads"), 8);
    // the sessions have more threads than wide ones would
    assert_eq!(setting(&medium, "wide_rec_workers"), 0);
    assert_eq!(ModelSize::from_name("Tiny"), None);
    assert_eq!(ModelSize::from_name("medium"), Some(ModelSize::Medium));
}

#[test]
fn no_part_uses_more_threads_than_given() {
    for threads in 1..40usize {
        for pool in [1usize, 2, 3, 7, 100] {
            let mut req = request("tiny");
            req.threads = Some(threads);
            let mut env = no_env();
            env.rec_pool = text(&pool.to_string());
            env.rayon_threads = text("1000");
            env.det_threads = text("1000");
            let e = engine(&req, &env, 3);
            assert!(e.rec_workers * e.rec_threads <= threads);
            assert!(e.wide_workers * e.wide_threads <= threads);
            assert!(e.rayon_threads <= threads && e.det_threads <= threads);
            assert!(e.rec_workers >= 1 && e.wide_workers <= 4 && e.wide_threads <= 4);
        }
    }
    // a machine without cores still has one thread
    assert_eq!(setting(&engine(&request("tiny"), &no_env(), 0), "threads"), 1);
}

#[test]
fn the_environment_fills_in_what_is_not_asked_for() {
    let mut env = no_env();
    env.threads = text("6");
    env.det_threads = text("2");
    env.rec_pool = text("3");
    env.rec_budget = text("1200");
    env.rayon_threads = text("5");
    env.rec_min_width = text("10");
    env.det_min_side = text("0");
    env.det_max_candidates = text("77");
    env.det_use_dilation = text("TRUE");
    env.det_thresh = Some(d(0.3));
    env.det_box_thresh = Some(d(0.6));
    env.det_unclip_ratio = Some(d(2.0));
    env.text_score = Some(d(0.5));
    env.approx_gelu = text("1");
    env.mempat = text("");
    env.prepack = text("0");
    env.det_spin = text("0");
    env.rec_spin = text("no");
    let e = engine(&request("tiny"), &env, 32);
    assert_eq!(setting(&e, "threads"), 6);
    assert_eq!(setting(&e, "det_threads"), 2);
    assert_eq!(setting(&e, "rec_workers"), 3);
    assert_eq!(setting(&e, "rec_threads"), 2);
    assert_eq!(setting(&e, "rec_budget"), 1200);
    assert_eq!(setting(&e, "rayon_threads"), 5);
    assert_eq!(setting(&e, "rec_min_width"), 64);
    assert_eq!(setting(&e, "det_min_side"), 0);
    assert_eq!(setting(&e, "det_max_candidates"), 77);
    assert_eq!(setting(&e, "det_use_dilation"), 1);
    assert_eq!(setting(&e, "approximate_gelu"), 1);
    assert_eq!(setting(&e, "det_spin"), 0);
    assert_eq!(setting(&e, "rec_spin"), 1);
    assert!(e.mempat && !e.prepack);
    let fractions: Vec<f64> = e.det_settings().iter().map(|p| f(p.1)).collect();
    assert_eq!(
        fractions,
        vec![0.3f32 as f64, 0.6f32 as f64, 2.0, 0.5f32 as f64]
    );
    // what is asked for goes before the environment
    let mut req = request("tiny");
    req.threads = Some(4);
    req.rec_batch = Some(9);
    req.det_max_side = Some(-1);
    req.det_min_side = Some(100);
    req.rec_min_width = Some(200);
    req.det_thresh = Some(s(0.7));
    req.det_box_thresh = Some(s(0.8));
    req.det_unclip_ratio = Some(d(3.0));
    req.det_max_candidates = Some(5);
    req.text_score = Some(s(0.25));
    req.det_use_dilation = Some(false);
    let e = engine(&req, &env, 32);
    assert_eq!(setting(&e, "threads"), 4);
    assert_eq!(setting(&e, "rec_batch"), 9);
    assert_eq!(setting(&e, "det_max_side"), 4000);
    assert_eq!(setting(&e, "det_min_side"), 100);
    assert_eq!(setting(&e, "rec_min_width"), 200);
    assert_eq!(setting(&e, "det_max_candidates"), 5);
    assert_eq!(setting(&e, "det_use_dilation"), 0);
    let fractions: Vec<f64> = e.det_settings().iter().map(|p| f(p.1)).collect();
    assert_eq!(
        fractions,
        vec![0.7f32 as f64, 0.8f32 as f64, 3.0, 0.25]
    );
}

#[test]
fn every_refusal_has_its_reason() {
    let env = no_env();
    let mut req = request("tiny");
    req.threads = Some(0);
    assert_eq!(refusal(&req, &env), ConfigError::Counts);
    let mut req = request("tiny");
    req.rec_batch = Some(0);
    assert_eq!(refusal(&req, &env), ConfigError::Counts);
    let mut req = request("tiny");
    req.det_max_side = Some(31);
    assert_eq!(refusal(&req, &env), ConfigError::Sides);
    let mut req = request("tiny");
    req.det_min_side = Some(-1);
    assert_eq!(refusal(&req, &env), ConfigError::Sides);
    for w in [63, 3201] {
        let mut req = request("tiny");
        req.rec_min_width = Some(w);
        assert_eq!(refusal(&req, &env), ConfigError::RecMinWidth);
    }
    for v in [-0.1f32, 1.1, f32::NAN, f32::INFINITY] {
        let mut req = request("tiny");
        req.det_thresh = Some(s(v));
        assert_eq!(refusal(&req, &env), ConfigError::DetThresh);
        let mut req = request("tiny");
        req.text_score = Some(s(v));
        assert_eq!(refusal(&req, &env), ConfigError::TextScore);
        let mut req = request("tiny");
        req.det_box_thresh = Some(s(v));
        let plan = plan_engine(&req, &env, 4).ok().unwrap();
        match build_engine(&plan, Vec::new(), &req, &env) {
            Ok(_) => panic!("accepted"),
            Err(e) => assert_eq!(e, ConfigError::BoxThresh),
        }
    }
    let mut req = request("tiny");
    req.det_unclip_ratio = Some(d(5.5));
    assert_eq!(refusal(&req, &env), ConfigError::UnclipRatio);
    for n in [0, 10001] {
        let mut req = request("tiny");
        req.det_max_candidates = Some(n);
        assert_eq!(refusal(&req, &env), ConfigError::MaxCandidates);
    }
    assert_eq!(refusal(&request("huge"), &env), ConfigError::ModelSize);
    // the first fault counts
    let mut req = request("huge");
    req.threads = Some(0);
    assert_eq!(refusal(&req, &env), ConfigError::Counts);
    // faults of the environment count too
    let mut env = no_env();
    env.det_thresh = Some(d(1.5));
    assert_eq!(refusal(&request("tiny"), &env), ConfigError::DetThresh);
    assert_eq!(
        ConfigError::Counts.message(),
        Some("threads and rec_batch must be positive")
    );
    assert_eq!(ConfigError::ModelSize.message(), None);
    assert!(ConfigError::Sides.message().unwrap().starts_with("det_max_side"));
    assert!(ConfigError::RecMinWidth.message().unwrap().contains("64 and 3200"));
    assert!(ConfigError::DetThresh.message().unwrap().starts_with("det_thresh"));
    assert!(ConfigError::UnclipRatio.message().unwrap().contains("5.0"));
    assert!(ConfigError::MaxCandidates.message().unwrap().contains("10000"));
    assert!(ConfigError::TextScore.message().unwrap().starts_with("text_score"));
    assert!(ConfigError::BoxThresh.message().unwrap().starts_with("det_box"));
}

#[test]
fn input_limits_can_be_changed_later() {
    let mut e = engine(&request("tiny"), &no_env(), 4);
    e.set_input_limits(Some(64), None);
    assert_eq!(setting(&e, "det_min_side"), 64);
    assert_eq!(setting(&e, "rec_min_width"), 64);
    e.set_input_limits(None, Some(320));
    assert_eq!(setting(&e, "det_min_side"), 64);
    assert_eq!(setting(&e, "rec_min_width"), 320);
    e.set_input_limits(None, None);
    assert_eq!(setting(&e, "rec_min_width"), 320);
}

#[test]
fn settings_from_counts_that_are_out_of_range() {
    let e = Engine::from_memory(
        Vec::new(),
        0,
        0,
        0,
        s(0.4),
        s(0.2),
        d(1.4),
        10,
        s(0.0),
        true,
        0,
        0,
        &no_env(),
    );
    assert_eq!((e.rec_workers, e.rec_threads, e.rayon_threads), (1, 1, 1));
    assert_eq!((e.wide_workers, e.wide_threads), (0, 1));
    assert_eq!((e.rec_batch, e.det_max_side), (1, 4000));
    assert_eq!(e.rec_min_width, 320);
    assert_eq!(e.chars, vec!["blank", " "]);
}

#[test]
fn numbers_are_parsed_as_the_machine_does() {
    let long = "0".repeat(50) + "12";
    let list = [
        "",
        "0",
        "7",
        "+7",
        "-7",
        "+",
        "-",
        "--1",
        "+-1",
        "007",
        " 7",
        "7 ",
        "1_000",
        "1e3",
        "0x10",
        "18446744073709551615",
        "18446744073709551616",
        "99999999999999999999999",
        "9223372036854775807",
        "9223372036854775808",
        "-9223372036854775808",
        "-9223372036854775809",
        "-0",
        "\u{663}",
        long.as_str(),
    ];
    for v in list {
        assert_eq!(parse_usize(v), v.parse::<usize>().ok(), "{v:?}");
        assert_eq!(parse_i64(v), v.parse::<i64>().ok(), "{v:?}");
    }
    assert_eq!(env_usize(&text("0")), None);
    assert_eq!(env_usize(&text("12")), Some(12));
    assert_eq!(env_usize(&text("x")), None);
    assert_eq!(env_usize(&None), None);
    assert_eq!(env_side(&text("-1")), None);
    assert_eq!(env_side(&text("-0")), Some(0));
    assert_eq!(env_side(&text("5")), Some(5));
    assert_eq!(env_side(&None), None);
}

#[test]
fn switches_of_the_environment() {
    for v in ["1", "true", "TRUE", "True", "tRuE"] {
        assert_eq!(env_bool(&text(v)), Some(true), "{v}");
    }
    for v in ["", "0", "yes", "true ", "t", "11", "TRUEE", "\u{1e97}rue"] {
        assert_eq!(env_bool(&text(v)), Some(false), "{v}");
    }
    assert_eq!(env_bool(&None), None);
    assert!(!env_flag(&text("0"), true));
    assert!(env_flag(&text("00"), false));
    assert!(env_flag(&text(""), false));
    assert!(env_flag(&None, true));
    assert!(!env_flag(&None, false));
    assert!(same_text("größe", "größe"));
    assert!(!same_text("grösse", "größe"));
    assert!(!same_text("a", "b") && !same_text("", "b"));
}

#[test]
fn dictionaries_are_arrays_of_strings() {
    let dict = parse_dict("[\"a\", \"\\u00e9\", \"\"]").unwrap();
    assert_eq!(dict, vec!["a", "é", ""]);
    assert_eq!(class_list(dict), vec!["blank", "a", "é", "", " "]);
    assert!(parse_dict("[1]").is_none());
    assert!(parse_dict("{}").is_none());
    assert!(parse_dict("[\"a\"").is_none());
    assert!(parse_dict("[]").unwrap().is_empty());
}

#[test]
fn images_are_read_in_windows() {
    assert_eq!(windows(10, 4), vec![(0, 4), (4, 8), (8, 10)]);
    assert_eq!(windows(8, 4), vec![(0, 4), (4, 8)]);
    assert_eq!(windows(3, 100), vec![(0, 3)]);
    assert_eq!(windows(2, usize::MAX), vec![(0, 2)]);
    assert!(windows(0, 4).is_empty());
    for n in 0..20usize {
        for size in 1..6usize {
            let all: Vec<usize> = windows(n, size).iter().flat_map(|w| w.0..w.1).collect();
            assert_eq!(all, (0..n).collect::<Vec<_>>());
        }
    }
}

#[test]
fn a_fault_names_its_image() {
    assert_eq!(image_fault(0, 0, "broken"), "image 0: broken");
    assert_eq!(image_fault(4, 3, ""), "image 7: ");
    assert_eq!(image_fault(1200, 34, "no such format"), "image 1234: no such format");
    let last = format!("image {}: x", usize::MAX);
    assert_eq!(image_fault(usize::MAX - 1, 1, "x"), last);
}

fn line(w: usize) -> ImageRgb {
    ImageRgb {
        w,
        h: 48,
        data: vec![0; w * 48 * 3],
    }
}

fn boxes(from: usize, to: usize) -> Vec<Quad> {
    (from..to)
        .map(|i| {
            let p = (F64::from_u64(i as u64), F64::from_u64(10 * i as u64));
            [p, p, p, p]
        })
        .collect()
}

/// A worker's answer: each crop is read as its number and its width.
fn answer(crops: &[ImageRgb], batches: &[Vec<usize>], b: usize) -> Answer {
    let reads = batches[b]
        .iter()
        .map(|&i| (format!("{i}:{}", crops[i].w), s(i as f32 / 10.0)))
        .collect();
    (b, reads)
}

fn names(results: &[OcrResult]) -> Vec<String> {
    results.iter().map(|r| r.text.clone()).collect()
}

#[test]
fn images_read_together_get_their_own_texts() {
    let mut req = request("small");
    req.rec_batch = Some(3);
    req.text_score = Some(0.15).map(s);
    let e = engine(&req, &no_env(), 4);
    let mut pages = Pages::new();
    pages.add(vec![line(400), line(90)], boxes(0, 2));
    pages.add(vec![], vec![]);
    pages.add(vec![line(100), line(3000), line(97)], boxes(2, 5));
    assert_eq!(pages.counts, vec![2, 0, 3]);
    let plan = e.plan(&pages.crops);
    // by width: 96, 97, 100, 400, 3000
    assert_eq!(plan.batches, vec![vec![1, 4, 2], vec![0], vec![3]]);
    assert_eq!(plan.jobs, vec![2, 1, 0]);
    assert!(!plan.wide);
    // the answers come in the order in which the jobs are done
    let answers: Vec<Answer> =
        [1, 2, 0].iter().map(|&b| answer(&pages.crops, &plan.batches, b)).collect();
    let texts: Vec<Read> = e.rec(&pages.crops, &plan, &answers);
    let read: Vec<&str> = texts.iter().map(|t| t.0.as_str()).collect();
    assert_eq!(read, vec!["0:400", "1:90", "2:100", "3:3000", "4:97"]);
    let out = e.run_many(&pages, &texts);
    let all: Vec<Vec<String>> = out.iter().map(|r| names(r)).collect();
    assert_eq!(all[0], Vec::<String>::new());
    assert_eq!(all[1], Vec::<String>::new());
    assert_eq!(all[2], vec!["2:100", "3:3000", "4:97"]);
    assert_eq!(out[2][1].box4, [3, 30, 3, 30]);
    // each image alone
    let alone = e.run(&texts[2..].to_vec(), &boxes(2, 5));
    assert_eq!(names(&alone), all[2]);
    assert!(e.run(&texts[..2].to_vec(), &boxes(0, 2)).is_empty());
}

#[test]
fn few_wide_lines_go_to_the_wide_workers() {
    let e = engine(&request("tiny"), &no_env(), 16);
    assert!(e.plan(&vec![line(2500), line(2048)]).wide);
    assert!(!e.plan(&vec![line(2500), line(2047)]).wide);
    let many: Vec<ImageRgb> = (0..5).map(|_| line(2500)).collect();
    assert!(!e.plan(&many).wide);
    // no crops, no batches
    assert!(e.plan(&vec![]).batches.is_empty());
    assert!(e.rec(&vec![], &e.plan(&vec![]), &vec![]).is_empty());
}

#[test]
fn boxes_are_reported_by_their_bounds() {
    let e = engine(&request("tiny"), &no_env(), 1);
    let p = |x: f64, y: f64| (d(x), d(y));
    let quad = [p(3.9, 5.0), p(9.2, -1.5), p(8.0, 7.7), p(2.5, 6.0)];
    assert_eq!(e.det(&vec![quad]), vec![[2, -1, 9, 7]]);
    assert!(e.det(&vec![]).is_empty());
}

#[test]
fn bounds_are_mapped_back() {
    let bounds = vec![
        (
            0,
            Bound {
                top_left: [1, 2],
                bottom_right: [3, 4],
                text: "one".to_string(),
                confidence: s(0.5),
            },
        ),
        (
            7,
            Bound {
                top_left: [5, 6],
                bottom_right: [7, 8],
                text: "two".to_string(),
                confidence: s(0.25),
            },
        ),
    ];
    let items = finish_ocr(&bounds, |b| [b[0] * 2, b[1] * 2, b[2] * 2, b[3] * 2]);
    assert_eq!(items.len(), 2);
    assert_eq!((items[0].0, items[0].1, items[0].2), (0, [2, 4], [6, 8]));
    assert_eq!((items[1].0, items[1].1, items[1].2), (7, [10, 12], [14, 16]));
    assert_eq!(items[1].3, "two");
    assert_eq!(items[1].4.to_bits(), 0.25f32.to_bits());
}

#[test]
fn models_are_fetched_once() {
    assert_eq!(cache_step(None), CacheStep::Fetch);
    assert_eq!(cache_step(Some(1024)), CacheStep::Fetch);
    assert_eq!(cache_step(Some(1025)), CacheStep::Use);
    assert!(is_model(1025) && !is_model(1024));
    assert_eq!(
        asset_url("1.0.4", "ppocrv6_medium_det.onnx"),
        "https://github.com/cnmoro/faster-paddle/releases/download/v1.0.4/ppocrv6_medium_det.onnx"
    );
    assert_eq!(temp_name("det.onnx"), "det.onnx.tmp");
    let (a, b, c) = cache_path("1.0.4");
    assert_eq!((a.as_str(), b.as_str(), c.as_str()), ("faster_paddle", "v1.0.4", "medium"));
}
