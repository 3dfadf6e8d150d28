//! The settings of an engine: how the processors are shared out, and by which
//! limits and thresholds images are read.

use crate::detect;
use crate::dict;
use crate::dict::class_list;
use crate::float::model::Val;
use crate::float::{F32, F64};
use crate::recognize::REC_MAX_W;
use crate::values;
use crate::values::{env_flag, env_side, env_usize};
use vstd::prelude::*;

verus! {

/// Crops of a batch, unless another cap is asked for.
pub const DEFAULT_REC_BATCH: usize = 1;

/// What the crops of a batch may come to: their count times the greatest width.
pub const REC_BATCH_BUDGET: usize = 800;

/// The environment variables that an engine heeds. Those that hold fractions come
/// as numbers, without those that do not parse.
pub struct Env {
    pub approx_gelu: Option<String>,
    pub mempat: Option<String>,
    pub prepack: Option<String>,
    pub rec_spin: Option<String>,
    pub det_spin: Option<String>,
    pub rayon_threads: Option<String>,
    pub rec_min_width: Option<String>,
    pub rec_budget: Option<String>,
    pub det_min_side: Option<String>,
    pub det_max_candidates: Option<String>,
    pub det_use_dilation: Option<String>,
    pub threads: Option<String>,
    pub det_threads: Option<String>,
    pub rec_pool: Option<String>,
    pub det_thresh: Option<F64>,
    pub det_box_thresh: Option<F64>,
    pub det_unclip_ratio: Option<F64>,
    pub text_score: Option<F64>,
}

/// The settings of an engine.
pub struct Engine {
    /// Sessions of the recognizer, and the threads of each.
    pub rec_workers: usize,
    pub rec_threads: usize,
    /// Sessions for a few wide batches, and the threads of each.
    pub wide_workers: usize,
    pub wide_threads: usize,
    pub approximate_gelu: bool,
    pub mempat: bool,
    pub prepack: bool,
    pub det_spin: bool,
    pub rec_spin: bool,
    pub rayon_threads: usize,
    pub rec_min_width: usize,
    pub rec_budget: usize,
    pub det_min_side: i64,
    pub det_threads: usize,
    pub threads: usize,
    pub chars: Vec<String>,
    pub rec_batch: usize,
    pub box_thresh: F32,
    pub det_thresh: F32,
    pub det_unclip_ratio: F64,
    pub det_max_candidates: usize,
    pub text_score: F32,
    pub det_use_dilation: bool,
    pub det_max_side: i64,
}

pub open spec fn or_else(v: Option<int>, usual: int) -> int {
    match v {
        Some(n) => n,
        None => usual,
    }
}

/// Sessions of the recognizer: as many as asked for, at most one a thread.
pub open spec fn pool_size(rec_pool: int, threads: int) -> int {
    detect::clamped(rec_pool, 1, detect::most(threads, 1))
}

/// Threads of each session of the recognizer.
pub open spec fn threads_each(rec_pool: int, threads: int) -> int {
    detect::most(threads / pool_size(rec_pool, threads), 1)
}

/// Threads of each session for wide batches.
pub open spec fn wide_each(threads: int) -> int {
    detect::most(detect::least(threads, 4), 1)
}

/// Sessions for wide batches: none where the others have as many threads.
pub open spec fn wide_pool(rec_pool: int, threads: int) -> int {
    if wide_each(threads) > threads_each(rec_pool, threads) {
        detect::clamped(threads / wide_each(threads), 1, 4)
    } else {
        0
    }
}

/// Threads for image work.
pub open spec fn image_threads(env: Env, threads: int) -> int {
    detect::most(
        detect::least(
            or_else(values::positive(values::value(env.rayon_threads)), threads),
            threads,
        ),
        1,
    )
}

/// The side limit: that asked for, or the usual one where it is not positive.
pub open spec fn side_limit(det_max_side: int) -> int {
    if det_max_side <= 0 {
        detect::MAX_SIDE_LIMIT as int
    } else {
        det_max_side
    }
}

pub(crate) fn clamp(n: usize, lo: usize, hi: usize) -> (r: usize)
    ensures
        r == detect::clamped(n as int, lo as int, hi as int),
{
    if n < lo {
        lo
    } else if n > hi {
        hi
    } else {
        n
    }
}

pub(crate) fn at_least(n: usize, lo: usize) -> (r: usize)
    ensures
        r == detect::most(n as int, lo as int),
{
    if n > lo {
        n
    } else {
        lo
    }
}

pub(crate) fn at_most(n: usize, hi: usize) -> (r: usize)
    ensures
        r == detect::least(n as int, hi as int),
{
    if n < hi {
        n
    } else {
        hi
    }
}

impl Engine {
    /// The settings for a character dictionary, thread counts, thresholds and
    /// limits, and for the environment.
    pub fn from_memory(
        char_dict: Vec<String>,
        threads: usize,
        det_threads: usize,
        rec_batch: usize,
        box_thresh: F32,
        det_thresh: F32,
        det_unclip_ratio: F64,
        det_max_candidates: usize,
        text_score: F32,
        det_use_dilation: bool,
        rec_pool: usize,
        det_max_side: i64,
        env: &Env,
    ) -> (e: Engine)
        ensures
            e.rec_workers == pool_size(rec_pool as int, threads as int),
            e.rec_threads == threads_each(rec_pool as int, threads as int),
            e.wide_workers == wide_pool(rec_pool as int, threads as int),
            e.wide_threads == wide_each(threads as int),
            e.approximate_gelu == values::enabled(values::value(env.approx_gelu), false),
            e.mempat == values::enabled(values::value(env.mempat), false),
            e.prepack == values::enabled(values::value(env.prepack), true),
            e.det_spin == values::enabled(values::value(env.det_spin), true),
            e.rec_spin == values::enabled(values::value(env.rec_spin), true),
            e.rayon_threads == image_threads(*env, threads as int),
            e.rec_min_width == detect::clamped(
                or_else(values::positive(values::value(env.rec_min_width)), 320),
                64,
                REC_MAX_W as int,
            ),
            e.rec_budget == or_else(
                values::positive(values::value(env.rec_budget)),
                REC_BATCH_BUDGET as int,
            ),
            e.det_min_side == or_else(
                values::not_negative(values::value(env.det_min_side)),
                detect::LIMIT_SIDE_LEN as int,
            ),
            e.det_threads == det_threads,
            e.threads == threads,
            dict::texts(e.chars@) == dict::class_texts(dict::texts(char_dict@)),
            e.rec_batch == detect::most(rec_batch as int, 1),
            e.box_thresh == box_thresh,
            e.det_thresh == det_thresh,
            e.det_unclip_ratio == det_unclip_ratio,
            e.det_max_candidates == det_max_candidates,
            e.text_score == text_score,
            e.det_use_dilation == det_use_dilation,
            e.det_max_side == side_limit(det_max_side as int),
    {
        let pool: usize = clamp(rec_pool, 1, at_least(threads, 1));
        let per: usize = at_least(threads / pool, 1);
        let wide_threads: usize = at_least(at_most(threads, 4), 1);
        let wide_workers: usize = if wide_threads > per {
            clamp(threads / wide_threads, 1, 4)
        } else {
            0
        };
        let rayon: usize = match env_usize(&env.rayon_threads) {
            Some(n) => n,
            None => threads,
        };
        let min_width: usize = match env_usize(&env.rec_min_width) {
            Some(n) => n,
            None => 320,
        };
        let budget: usize = match env_usize(&env.rec_budget) {
            Some(n) => n,
            None => REC_BATCH_BUDGET,
        };
        let min_side: i64 = match env_side(&env.det_min_side) {
            Some(n) => n,
            None => detect::LIMIT_SIDE_LEN,
        };
        Engine {
            rec_workers: pool,
            rec_threads: per,
            wide_workers,
            wide_threads,
            approximate_gelu: env_flag(&env.approx_gelu, false),
            mempat: env_flag(&env.mempat, false),
            prepack: env_flag(&env.prepack, true),
            det_spin: env_flag(&env.det_spin, true),
            rec_spin: env_flag(&env.rec_spin, true),
            rayon_threads: at_least(at_most(rayon, threads), 1),
            rec_min_width: clamp(min_width, 64, REC_MAX_W),
            rec_budget: budget,
            det_min_side: min_side,
            det_threads,
            threads,
            chars: class_list(char_dict),
            rec_batch: at_least(rec_batch, 1),
            box_thresh,
            det_thresh,
            det_unclip_ratio,
            det_max_candidates,
            text_score,
            det_use_dilation,
            det_max_side: if det_max_side <= 0 {
                detect::MAX_SIDE_LIMIT
            } else {
                det_max_side
            },
        }
    }

    /// Changes the least side of the detector's input and the least width of the
    /// recognizer's, as far as they are given.
    pub fn set_input_limits(&mut self, det_min: Option<i64>, rec_min: Option<usize>)
        ensures
            *final(self) == (Engine {
                det_min_side: match det_min {
                    Some(v) => v,
                    None => old(self).det_min_side,
                },
                rec_min_width: match rec_min {
                    Some(v) => v,
                    None => old(self).rec_min_width,
                },
                ..*old(self)
            }),
    {
        if let Some(v) = det_min {
            self.det_min_side = v;
        }
        if let Some(v) = rec_min {
            self.rec_min_width = v;
        }
    }

    /// The counts and limits, by name.
    pub open spec fn setting_list(self) -> Seq<(&'static str, usize)> {
        seq![
            ("threads", self.threads),
            ("approximate_gelu", bit(self.approximate_gelu)),
            ("det_spin", bit(self.det_spin)),
            ("rec_spin", bit(self.rec_spin)),
            ("det_threads", self.det_threads),
            ("rec_workers", self.rec_workers),
            ("rec_threads", self.rec_threads),
            ("wide_rec_threads", self.wide_threads),
            ("wide_rec_workers", self.wide_workers),
            ("rayon_threads", self.rayon_threads),
            ("rec_batch", self.rec_batch),
            ("rec_budget", self.rec_budget),
            ("rec_min_width", self.rec_min_width),
            ("det_min_side", self.det_min_side as usize),
            ("det_max_side", self.det_max_side as usize),
            ("det_max_candidates", self.det_max_candidates),
            ("det_use_dilation", bit(self.det_use_dilation)),
        ]
    }

    /// The counts and limits of the engine, by name.
    pub fn settings(&self) -> (r: Vec<(&'static str, usize)>)
        ensures
            r@ == self.setting_list(),
    {
        let min_side: usize = #[verifier::truncate] (self.det_min_side as usize);
        let max_side: usize = #[verifier::truncate] (self.det_max_side as usize);
        let r: Vec<(&'static str, usize)> = vec![
            ("threads", self.threads),
            ("approximate_gelu", as_count(self.approximate_gelu)),
            ("det_spin", as_count(self.det_spin)),
            ("rec_spin", as_count(self.rec_spin)),
            ("det_threads", self.det_threads),
            ("rec_workers", self.rec_workers),
            ("rec_threads", self.rec_threads),
            ("wide_rec_threads", self.wide_threads),
            ("wide_rec_workers", self.wide_workers),
            ("rayon_threads", self.rayon_threads),
            ("rec_batch", self.rec_batch),
            ("rec_budget", self.rec_budget),
            ("rec_min_width", self.rec_min_width),
            ("det_min_side", min_side),
            ("det_max_side", max_side),
            ("det_max_candidates", self.det_max_candidates),
            ("det_use_dilation", as_count(self.det_use_dilation)),
        ];
        assert(r@ =~= self.setting_list());
        r
    }

    /// The thresholds and ratios, by name.
    pub open spec fn det_setting_list(self) -> Seq<(&'static str, Val)> {
        seq![
            ("det_thresh", self.det_thresh@),
            ("det_box_thresh", self.box_thresh@),
            ("det_unclip_ratio", self.det_unclip_ratio@),
            ("text_score", self.text_score@),
        ]
    }

    /// The thresholds and ratios of the engine, by name.
    pub fn det_settings(&self) -> (r: Vec<(&'static str, F64)>)
        ensures
            r@.map_values(|p: (&'static str, F64)| (p.0, p.1@)) == self.det_setting_list(),
    {
        let r: Vec<(&'static str, F64)> = vec![
            ("det_thresh", self.det_thresh.to_double()),
            ("det_box_thresh", self.box_thresh.to_double()),
            ("det_unclip_ratio", self.det_unclip_ratio),
            ("text_score", self.text_score.to_double()),
        ];
        assert(r@.map_values(|p: (&'static str, F64)| (p.0, p.1@)) =~= self.det_setting_list());
        r
    }
}

/// One for yes, zero for no.
pub open spec fn bit(b: bool) -> usize {
    if b {
        1
    } else {
        0
    }
}

fn as_count(b: bool) -> (r: usize)
    ensures
        r == bit(b),
{
    if b {
        1
    } else {
        0
    }
}

// ---- laws ----

/// No part of an engine uses more threads than it was given.
pub proof fn law_threads_stay_within_budget(rec_pool: int, threads: int, env: Env)
    requires
        threads >= 0,
        rec_pool >= 0,
    ensures
        pool_size(rec_pool, threads) * threads_each(rec_pool, threads) <= detect::most(threads, 1),
        wide_pool(rec_pool, threads) * wide_each(threads) <= detect::most(threads, 1),
        image_threads(env, threads) <= detect::most(threads, 1),
        1 <= pool_size(rec_pool, threads),
        1 <= image_threads(env, threads),
        wide_pool(rec_pool, threads) <= 4,
        wide_each(threads) <= 4,
{
    let p = pool_size(rec_pool, threads);
    let t = threads / p;
    assert(p * t <= threads && t >= 0 && (t == 0 ==> threads < p)) by (nonlinear_arith)
        requires
            p >= 1,
            t == threads / p,
            threads >= 0,
    ;
    let w = wide_each(threads);
    let c = threads / w;
    assert(w * c <= threads && c >= 0 && (c == 0 ==> threads < w)) by (nonlinear_arith)
        requires
            w >= 1,
            c == threads / w,
            threads >= 0,
    ;
    let n = wide_pool(rec_pool, threads);
    if n > 0 {
        assert(n * w <= c * w) by (nonlinear_arith)
            requires
                0 <= n <= c,
                w >= 1,
        ;
        assert(c * w == w * c) by (nonlinear_arith);
    } else {
        assert(n * w == 0) by (nonlinear_arith)
            requires
                n == 0,
        ;
    }
    let e = threads_each(rec_pool, threads);
    if t >= 1 {
        assert(e == t);
    } else {
        assert(p * 1 == p);
    }
}

/// Every count and limit stands under its own name.
pub proof fn law_settings_are_named(e: &Engine, r: Vec<(&'static str, usize)>)
    requires
        call_ensures(Engine::settings, (e,), r),
        e.det_min_side <= usize::MAX,
        e.det_max_side <= usize::MAX,
    ensures
        r@.len() == 17,
        exists|i: int|
            0 <= i < r@.len() && (#[trigger] r@[i]).0 == "threads" && r@[i].1 == e.threads,
        exists|i: int|
            0 <= i < r@.len() && (#[trigger] r@[i]).0 == "approximate_gelu" && r@[i].1 == if e.approximate_gelu {
                1int
            } else {
                0int
            },
        exists|i: int|
            0 <= i < r@.len() && (#[trigger] r@[i]).0 == "det_spin" && r@[i].1 == if e.det_spin {
                1int
            } else {
                0int
            },
        exists|i: int|
            0 <= i < r@.len() && (#[trigger] r@[i]).0 == "rec_spin" && r@[i].1 == if e.rec_spin {
                1int
            } else {
                0int
            },
        exists|i: int|
            0 <= i < r@.len() && (#[trigger] r@[i]).0 == "det_threads" && r@[i].1 == e.det_threads,
        exists|i: int|
            0 <= i < r@.len() && (#[trigger] r@[i]).0 == "rec_workers" && r@[i].1 == e.rec_workers,
        exists|i: int|
            0 <= i < r@.len() && (#[trigger] r@[i]).0 == "rec_threads" && r@[i].1 == e.rec_threads,
        exists|i: int|
            0 <= i < r@.len() && (#[trigger] r@[i]).0 == "wide_rec_threads" && r@[i].1 == e.wide_threads,
        exists|i: int|
            0 <= i < r@.len() && (#[trigger] r@[i]).0 == "wide_rec_workers" && r@[i].1 == e.wide_workers,
        exists|i: int|
            0 <= i < r@.len() && (#[trigger] r@[i]).0 == "rayon_threads" && r@[i].1 == e.rayon_threads,
        exists|i: int|
            0 <= i < r@.len() && (#[trigger] r@[i]).0 == "rec_batch" && r@[i].1 == e.rec_batch,
        exists|i: int|
            0 <= i < r@.len() && (#[trigger] r@[i]).0 == "rec_budget" && r@[i].1 == e.rec_budget,
        exists|i: int|
            0 <= i < r@.len() && (#[trigger] r@[i]).0 == "rec_min_width" && r@[i].1 == e.rec_min_width,
        e.det_min_side >= 0 ==> exists|i: int|
            0 <= i < r@.len() && (#[trigger] r@[i]).0 == "det_min_side" && r@[i].1 == e.det_min_side,
        e.det_max_side >= 0 ==> exists|i: int|
            0 <= i < r@.len() && (#[trigger] r@[i]).0 == "det_max_side" && r@[i].1 == e.det_max_side,
        exists|i: int|
            0 <= i < r@.len() && (#[trigger] r@[i]).0 == "det_max_candidates" && r@[i].1 == e.det_max_candidates,
        exists|i: int|
            0 <= i < r@.len() && (#[trigger] r@[i]).0 == "det_use_dilation" && r@[i].1 == if e.det_use_dilation {
                1int
            } else {
                0int
            },
{
    let list = e.setting_list();
    assert(r@ == list);
    assert(r@[0].0 == "threads");
    assert(r@[1].0 == "approximate_gelu");
    assert(r@[2].0 == "det_spin");
    assert(r@[3].0 == "rec_spin");
    assert(r@[4].0 == "det_threads");
    assert(r@[5].0 == "rec_workers");
    assert(r@[6].0 == "rec_threads");
    assert(r@[7].0 == "wide_rec_threads");
    assert(r@[8].0 == "wide_rec_workers");
    assert(r@[9].0 == "rayon_threads");
    assert(r@[10].0 == "rec_batch");
    assert(r@[11].0 == "rec_budget");
    assert(r@[12].0 == "rec_min_width");
    assert(r@[13].0 == "det_min_side");
    assert(r@[14].0 == "det_max_side");
    assert(r@[15].0 == "det_max_candidates");
    assert(r@[16].0 == "det_use_dilation");
}

/// Every threshold and ratio stands under its own name, with its own value.
pub proof fn law_thresholds_are_named(e: &Engine, r: Vec<(&'static str, F64)>)
    requires
        call_ensures(Engine::det_settings, (e,), r),
    ensures
        r@.len() == 4,
        r@[0].0 == "det_thresh" && r@[0].1@ == e.det_thresh@,
        r@[1].0 == "det_box_thresh" && r@[1].1@ == e.box_thresh@,
        r@[2].0 == "det_unclip_ratio" && r@[2].1@ == e.det_unclip_ratio@,
        r@[3].0 == "text_score" && r@[3].1@ == e.text_score@,
{
    let list = e.det_setting_list();
    let all = r@.map_values(|p: (&'static str, F64)| (p.0, p.1@));
    assert(all == list);
    assert(all.len() == 4);
    assert(all[0] == list[0] && all[1] == list[1] && all[2] == list[2] && all[3] == list[3]);
}

/// Without a word from the environment an engine reads at widths from 320 on, with a
/// budget of 800 columns, and looks for text at a least side of 736; it has the counts
/// and thresholds that it is given.
pub proof fn law_engine_has_what_it_is_given(
    char_dict: Vec<String>,
    threads: usize,
    det_threads: usize,
    rec_batch: usize,
    box_thresh: F32,
    det_thresh: F32,
    det_unclip_ratio: F64,
    det_max_candidates: usize,
    text_score: F32,
    det_use_dilation: bool,
    rec_pool: usize,
    det_max_side: i64,
    env: &Env,
    e: Engine,
)
    requires
        call_ensures(
            Engine::from_memory,
            (
                char_dict,
                threads,
                det_threads,
                rec_batch,
                box_thresh,
                det_thresh,
                det_unclip_ratio,
                det_max_candidates,
                text_score,
                det_use_dilation,
                rec_pool,
                det_max_side,
                env,
            ),
            e,
        ),
    ensures
        env.rec_min_width is None ==> e.rec_min_width == 320,
        env.rec_budget is None ==> e.rec_budget == 800,
        env.det_min_side is None ==> e.det_min_side == 736,
        64 <= e.rec_min_width <= 3200,
        e.threads == threads,
        e.det_threads == det_threads,
        rec_batch >= 1 ==> e.rec_batch == rec_batch,
        e.box_thresh == box_thresh,
        e.det_thresh == det_thresh,
        e.det_unclip_ratio == det_unclip_ratio,
        e.det_max_candidates == det_max_candidates,
        e.text_score == text_score,
        e.det_use_dilation == det_use_dilation,
        det_max_side > 0 ==> e.det_max_side == det_max_side,
        det_max_side <= 0 ==> e.det_max_side == 4000,
        1 <= rec_pool <= threads ==> e.rec_workers == rec_pool,
        e.chars@.len() == char_dict@.len() + 2,
{
    assert(dict::texts(e.chars@).len() == e.chars@.len());
    assert(dict::class_texts(dict::texts(char_dict@)).len() == char_dict@.len() + 2);
}

} // verus!
