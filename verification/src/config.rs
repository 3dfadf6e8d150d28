//! Making an engine: what may be asked for, and what stands where nothing is.

use crate::detect;
use crate::dict;
use crate::engine;
use crate::engine::{at_least, at_most, clamp, Engine, Env, DEFAULT_REC_BATCH};
use crate::float::bounds;
use crate::float::laws;
use crate::float::model;
use crate::float::model::{Format, Val};
use crate::float::{F32, F64};
use crate::levels;
use crate::values;
use crate::values::{env_bool, env_usize, same_text};
use vstd::prelude::*;

verus! {

/// The three sizes of the models.
#[derive(Clone, Copy, Debug, PartialEq, Eq, Structural)]
pub enum ModelSize {
    Tiny,
    Small,
    Medium,
}

impl ModelSize {
    /// The size of that name.
    pub open spec fn named(s: Seq<char>) -> Option<ModelSize> {
        if s == "tiny"@ {
            Some(ModelSize::Tiny)
        } else if s == "small"@ {
            Some(ModelSize::Small)
        } else if s == "medium"@ {
            Some(ModelSize::Medium)
        } else {
            None
        }
    }

    /// The size of that name.
    pub fn from_name(s: &str) -> (r: Option<ModelSize>)
        ensures
            r == ModelSize::named(s@),
    {
        if same_text(s, "tiny") {
            Some(ModelSize::Tiny)
        } else if same_text(s, "small") {
            Some(ModelSize::Small)
        } else if same_text(s, "medium") {
            Some(ModelSize::Medium)
        } else {
            None
        }
    }

    /// The box threshold that goes with the detector of this size: 0.40 for the
    /// tiny one, 0.45 for the others.
    pub open spec fn usual_box_thresh(self) -> F32 {
        match self {
            ModelSize::Tiny => F32 { bits: 0x3ecc_cccd },
            _ => F32 { bits: 0x3ee6_6666 },
        }
    }

    pub fn box_thresh(self) -> (r: F32)
        ensures
            r == self.usual_box_thresh(),
    {
        match self {
            ModelSize::Tiny => F32 { bits: 0x3ecc_cccd },
            _ => F32 { bits: 0x3ee6_6666 },
        }
    }

    /// The least width at which the recognizer of this size reads.
    pub open spec fn usual_rec_width(self) -> int {
        match self {
            ModelSize::Tiny => 64,
            ModelSize::Small => 96,
            ModelSize::Medium => 320,
        }
    }

    /// The most sessions of the recognizer of this size.
    pub open spec fn most_sessions(self) -> int {
        match self {
            ModelSize::Medium => 8,
            _ => 32,
        }
    }
}

/// What is asked of an engine, as far as anything is.
pub struct Request {
    pub model_size: String,
    pub threads: Option<usize>,
    pub rec_batch: Option<usize>,
    pub det_max_side: Option<i64>,
    pub det_min_side: Option<i64>,
    pub rec_min_width: Option<usize>,
    pub det_thresh: Option<F32>,
    pub det_box_thresh: Option<F32>,
    pub det_unclip_ratio: Option<F64>,
    pub det_max_candidates: Option<usize>,
    pub text_score: Option<F32>,
    pub det_use_dilation: Option<bool>,
}

/// Why no engine is made.
#[derive(Clone, Copy, Debug, PartialEq, Eq, Structural)]
pub enum ConfigError {
    Counts,
    Sides,
    RecMinWidth,
    DetThresh,
    UnclipRatio,
    MaxCandidates,
    TextScore,
    ModelSize,
    BoxThresh,
}

impl ConfigError {
    /// The message; none for an unknown model size, whose message names it.
    pub open spec fn text(self) -> Option<&'static str> {
        match self {
            ConfigError::Counts => Some("threads and rec_batch must be positive"),
            ConfigError::Sides => Some(
                "det_max_side must be at least 32 (or <=0 for 4000); det_min_side must be nonnegative",
            ),
            ConfigError::RecMinWidth => Some("rec_min_width must be between 64 and 3200"),
            ConfigError::DetThresh => Some("det_thresh must be between 0.0 and 1.0"),
            ConfigError::UnclipRatio => Some("det_unclip_ratio must be between 0.0 and 5.0"),
            ConfigError::MaxCandidates => Some("det_max_candidates must be between 1 and 10000"),
            ConfigError::TextScore => Some("text_score must be between 0.0 and 1.0"),
            ConfigError::ModelSize => None,
            ConfigError::BoxThresh => Some("det_box_thresh must be between 0.0 and 1.0"),
        }
    }

    /// The message; none for an unknown model size, whose message names it.
    pub fn message(&self) -> (r: Option<&'static str>)
        ensures
            r == self.text(),
    {
        match self {
            ConfigError::Counts => Some("threads and rec_batch must be positive"),
            ConfigError::Sides => Some(
                "det_max_side must be at least 32 (or <=0 for 4000); det_min_side must be nonnegative",
            ),
            ConfigError::RecMinWidth => Some("rec_min_width must be between 64 and 3200"),
            ConfigError::DetThresh => Some("det_thresh must be between 0.0 and 1.0"),
            ConfigError::UnclipRatio => Some("det_unclip_ratio must be between 0.0 and 5.0"),
            ConfigError::MaxCandidates => Some("det_max_candidates must be between 1 and 10000"),
            ConfigError::TextScore => Some("text_score must be between 0.0 and 1.0"),
            ConfigError::ModelSize => None,
            ConfigError::BoxThresh => Some("det_box_thresh must be between 0.0 and 1.0"),
        }
    }
}

/// A number from zero to `top`.
pub open spec fn is_within(v: Val, top: real) -> bool {
    !(v is Nan) && !v.less(Val::Fin(0real)) && !Val::Fin(top).less(v)
}

/// A fraction: that asked for, else that of the environment, else the usual one.
pub open spec fn single_of(asked: Option<F32>, env: Option<F64>, usual: F32) -> Val {
    match asked {
        Some(v) => v@,
        None => match env {
            Some(v) => v@.fitted(Format::Single),
            None => usual@,
        },
    }
}

pub open spec fn double_of(asked: Option<F64>, env: Option<F64>, usual: F64) -> Val {
    match asked {
        Some(v) => v@,
        None => match env {
            Some(v) => v@,
            None => usual@,
        },
    }
}

/// A count: that asked for, else that of the environment, else the usual one.
pub open spec fn count_of(asked: Option<usize>, env: Option<String>, usual: int) -> int {
    match asked {
        Some(v) => v as int,
        None => engine::or_else(values::positive(values::value(env)), usual),
    }
}

/// The detector's threshold, unless another is asked for: 0.2.
pub const DET_THRESH: u32 = 0x3e4c_cccd;

/// How far boxes are grown, unless otherwise asked for: 1.4.
pub const DET_UNCLIP_RATIO: u64 = 0x3ff6_6666_6666_6666;

/// The most candidates, unless another number is asked for.
pub const DET_MAX_CANDIDATES: usize = 3000;

/// The least score of a text, unless another is asked for: zero.
pub const TEXT_SCORE: u32 = 0;

impl Request {
    pub open spec fn chosen_det_thresh(self, env: Env) -> Val {
        single_of(self.det_thresh, env.det_thresh, F32 { bits: DET_THRESH })
    }

    pub open spec fn chosen_unclip_ratio(self, env: Env) -> Val {
        double_of(self.det_unclip_ratio, env.det_unclip_ratio, F64 { bits: DET_UNCLIP_RATIO })
    }

    pub open spec fn chosen_candidates(self, env: Env) -> int {
        count_of(self.det_max_candidates, env.det_max_candidates, DET_MAX_CANDIDATES as int)
    }

    pub open spec fn chosen_text_score(self, env: Env) -> Val {
        single_of(self.text_score, env.text_score, F32 { bits: TEXT_SCORE })
    }

    pub open spec fn chosen_dilation(self, env: Env) -> bool {
        match self.det_use_dilation {
            Some(b) => b,
            None => match values::switched(values::value(env.det_use_dilation)) {
                Some(b) => b,
                None => false,
            },
        }
    }

    /// All the threads of the engine: at least one.
    pub open spec fn chosen_threads(self, env: Env, cores: int) -> int {
        detect::most(count_of(self.threads, env.threads, cores), 1)
    }

    /// Threads of the detector: eight where the environment does not say, and no
    /// more than there are.
    pub open spec fn chosen_det_threads(self, env: Env, cores: int) -> int {
        let t = self.chosen_threads(env, cores);
        detect::clamped(
            engine::or_else(
                values::positive(values::value(env.det_threads)),
                detect::least(t, 8),
            ),
            1,
            t,
        )
    }

    /// Sessions of the recognizer: as many as the size admits where the
    /// environment does not say, and no more than there are threads.
    pub open spec fn chosen_pool(self, env: Env, cores: int, size: ModelSize) -> int {
        let t = self.chosen_threads(env, cores);
        detect::clamped(
            engine::or_else(
                values::positive(values::value(env.rec_pool)),
                detect::least(t, size.most_sessions()),
            ),
            1,
            t,
        )
    }

    /// What is wrong with the request, before any model is at hand.
    pub open spec fn fault(self, env: Env) -> Option<ConfigError> {
        if self.threads == Some(0usize) || self.rec_batch == Some(0usize) {
            Some(ConfigError::Counts)
        } else if (self.det_max_side matches Some(v) && 0 < v && v < 32) || (
        self.det_min_side matches Some(v) && v < 0) {
            Some(ConfigError::Sides)
        } else if self.rec_min_width matches Some(v) && !(64 <= v && v <= 3200) {
            Some(ConfigError::RecMinWidth)
        } else if !is_within(self.chosen_det_thresh(env), 1real) {
            Some(ConfigError::DetThresh)
        } else if !is_within(self.chosen_unclip_ratio(env), 5real) {
            Some(ConfigError::UnclipRatio)
        } else if !(1 <= self.chosen_candidates(env) <= 10000) {
            Some(ConfigError::MaxCandidates)
        } else if !is_within(self.chosen_text_score(env), 1real) {
            Some(ConfigError::TextScore)
        } else if ModelSize::named(self.model_size@) is None {
            Some(ConfigError::ModelSize)
        } else {
            None
        }
    }
}

/// A request that has been found in order.
pub struct EnginePlan {
    pub size: ModelSize,
    pub threads: usize,
    pub det_threads: usize,
    pub rec_batch: usize,
    pub det_max_side: i64,
    pub pool: usize,
    pub det_thresh: F32,
    pub det_unclip_ratio: F64,
    pub det_max_candidates: usize,
    pub text_score: F32,
    pub det_use_dilation: bool,
}

impl EnginePlan {
    /// The plan that a request leads to.
    pub open spec fn is_for(self, req: Request, env: Env, cores: int) -> bool {
        &&& ModelSize::named(req.model_size@) == Some(self.size)
        &&& self.threads == req.chosen_threads(env, cores)
        &&& self.det_threads == req.chosen_det_threads(env, cores)
        &&& self.rec_batch == match req.rec_batch {
            Some(n) => n,
            None => DEFAULT_REC_BATCH,
        }
        &&& self.det_max_side == match req.det_max_side {
            Some(n) => n,
            None => detect::DEFAULT_DET_MAX_SIDE,
        }
        &&& self.pool == req.chosen_pool(env, cores, self.size)
        &&& self.det_thresh@ == req.chosen_det_thresh(env)
        &&& self.det_unclip_ratio@ == req.chosen_unclip_ratio(env)
        &&& self.det_max_candidates == req.chosen_candidates(env)
        &&& self.text_score@ == req.chosen_text_score(env)
        &&& self.det_use_dilation == req.chosen_dilation(env)
    }
}

fn within(v: F64, top: u16) -> (r: bool)
    ensures
        r == is_within(v@, top as real),
{
    !v.is_nan() && !v.less(F64::from_u16(0)) && !F64::from_u16(top).less(v)
}

fn choose_single(asked: Option<F32>, env: Option<F64>, usual: F32) -> (r: F32)
    ensures
        r@ == single_of(asked, env, usual),
{
    match asked {
        Some(v) => v,
        None => match env {
            Some(v) => v.to_single(),
            None => usual,
        },
    }
}

fn choose_double(asked: Option<F64>, env: Option<F64>, usual: F64) -> (r: F64)
    ensures
        r@ == double_of(asked, env, usual),
{
    match asked {
        Some(v) => v,
        None => match env {
            Some(v) => v,
            None => usual,
        },
    }
}

fn choose_count(asked: Option<usize>, env: &Option<String>, usual: usize) -> (r: usize)
    ensures
        r == count_of(asked, *env, usual as int),
{
    match asked {
        Some(v) => v,
        None => match env_usize(env) {
            Some(n) => n,
            None => usual,
        },
    }
}

fn checked_first(req: &Request) -> (r: Option<ConfigError>)
    ensures
        r == if req.threads == Some(0usize) || req.rec_batch == Some(0usize) {
            Some(ConfigError::Counts)
        } else if (req.det_max_side matches Some(v) && 0 < v && v < 32) || (
        req.det_min_side matches Some(v) && v < 0) {
            Some(ConfigError::Sides)
        } else if req.rec_min_width matches Some(v) && !(64 <= v && v <= 3200) {
            Some(ConfigError::RecMinWidth)
        } else {
            None
        },
{
    let no_threads: bool = match req.threads {
        Some(n) => n == 0,
        None => false,
    };
    let no_batch: bool = match req.rec_batch {
        Some(n) => n == 0,
        None => false,
    };
    if no_threads || no_batch {
        return Some(ConfigError::Counts);
    }
    let low_max: bool = match req.det_max_side {
        Some(v) => 0 < v && v < 32,
        None => false,
    };
    let low_min: bool = match req.det_min_side {
        Some(v) => v < 0,
        None => false,
    };
    if low_max || low_min {
        return Some(ConfigError::Sides);
    }
    match req.rec_min_width {
        Some(v) => if v < 64 || v > 3200 {
            Some(ConfigError::RecMinWidth)
        } else {
            None
        },
        None => None,
    }
}

/// Checks a request against the environment and a machine of `cores` cores, and
/// fills in what was not asked for.
pub fn plan_engine(req: &Request, env: &Env, cores: usize) -> (r: Result<EnginePlan, ConfigError>)
    ensures
        match r {
            Ok(plan) => req.fault(*env) is None && plan.is_for(*req, *env, cores as int),
            Err(e) => req.fault(*env) == Some(e),
        },
{
    if let Some(e) = checked_first(req) {
        return Err(e);
    }
    let det_thresh: F32 = choose_single(
        req.det_thresh,
        env.det_thresh,
        F32::from_bits(DET_THRESH),
    );
    if !within(det_thresh.to_double(), 1) {
        return Err(ConfigError::DetThresh);
    }
    let det_unclip_ratio: F64 = choose_double(
        req.det_unclip_ratio,
        env.det_unclip_ratio,
        F64::from_bits(DET_UNCLIP_RATIO),
    );
    if !within(det_unclip_ratio, 5) {
        return Err(ConfigError::UnclipRatio);
    }
    let det_max_candidates: usize = choose_count(
        req.det_max_candidates,
        &env.det_max_candidates,
        DET_MAX_CANDIDATES,
    );
    if det_max_candidates < 1 || det_max_candidates > 10000 {
        return Err(ConfigError::MaxCandidates);
    }
    let text_score: F32 = choose_single(
        req.text_score,
        env.text_score,
        F32::from_bits(TEXT_SCORE),
    );
    if !within(text_score.to_double(), 1) {
        return Err(ConfigError::TextScore);
    }
    let size: ModelSize = match ModelSize::from_name(req.model_size.as_str()) {
        Some(size) => size,
        None => {
            return Err(ConfigError::ModelSize);
        },
    };
    let det_use_dilation: bool = match req.det_use_dilation {
        Some(b) => b,
        None => match env_bool(&env.det_use_dilation) {
            Some(b) => b,
            None => false,
        },
    };
    let threads: usize = at_least(choose_count(req.threads, &env.threads, cores), 1);
    let most: usize = match size {
        ModelSize::Medium => 8,
        _ => 32,
    };
    Ok(
        EnginePlan {
            size,
            threads,
            det_threads: clamp(
                choose_count(None, &env.det_threads, at_most(threads, 8)),
                1,
                threads,
            ),
            rec_batch: match req.rec_batch {
                Some(n) => n,
                None => DEFAULT_REC_BATCH,
            },
            det_max_side: match req.det_max_side {
                Some(n) => n,
                None => detect::DEFAULT_DET_MAX_SIDE,
            },
            pool: clamp(choose_count(None, &env.rec_pool, at_most(threads, most)), 1, threads),
            det_thresh,
            det_unclip_ratio,
            det_max_candidates,
            text_score,
            det_use_dilation,
        },
    )
}

/// The box threshold of an engine.
pub open spec fn chosen_box_thresh(req: Request, env: Env, size: ModelSize) -> Val {
    single_of(req.det_box_thresh, env.det_box_thresh, size.usual_box_thresh())
}

/// The least width at which the engine reads.
pub open spec fn chosen_rec_width(req: Request, env: Env, size: ModelSize) -> int {
    detect::clamped(
        count_of(req.rec_min_width, env.rec_min_width, size.usual_rec_width()),
        64,
        3200,
    )
}

/// The least side of the detector's input.
pub open spec fn chosen_min_side(req: Request, env: Env) -> int {
    match req.det_min_side {
        Some(v) => v as int,
        None => engine::or_else(
            values::not_negative(values::value(env.det_min_side)),
            detect::LIMIT_SIDE_LEN as int,
        ),
    }
}

/// The engine of a plan, once the dictionary of its model is at hand.
pub fn build_engine(
    plan: &EnginePlan,
    dictionary: Vec<String>,
    req: &Request,
    env: &Env,
) -> (r: Result<Engine, ConfigError>)
    ensures
        r is Err <==> !is_within(chosen_box_thresh(*req, *env, plan.size), 1real),
        r matches Err(e) ==> e == ConfigError::BoxThresh,
        r matches Ok(e) ==> {
            &&& e.rec_workers == engine::pool_size(plan.pool as int, plan.threads as int)
            &&& e.rec_threads == engine::threads_each(plan.pool as int, plan.threads as int)
            &&& e.wide_workers == engine::wide_pool(plan.pool as int, plan.threads as int)
            &&& e.wide_threads == engine::wide_each(plan.threads as int)
            &&& e.approximate_gelu == values::enabled(values::value(env.approx_gelu), false)
            &&& e.mempat == values::enabled(values::value(env.mempat), false)
            &&& e.prepack == values::enabled(values::value(env.prepack), true)
            &&& e.det_spin == values::enabled(values::value(env.det_spin), true)
            &&& e.rec_spin == values::enabled(values::value(env.rec_spin), true)
            &&& e.rayon_threads == engine::image_threads(*env, plan.threads as int)
            &&& e.rec_min_width == chosen_rec_width(*req, *env, plan.size)
            &&& e.rec_budget == engine::or_else(
                values::positive(values::value(env.rec_budget)),
                engine::REC_BATCH_BUDGET as int,
            )
            &&& e.det_min_side == chosen_min_side(*req, *env)
            &&& e.det_threads == plan.det_threads
            &&& e.threads == plan.threads
            &&& dict::texts(e.chars@) == dict::class_texts(dict::texts(dictionary@))
            &&& e.rec_batch == detect::most(plan.rec_batch as int, 1)
            &&& e.box_thresh@ == chosen_box_thresh(*req, *env, plan.size)
            &&& e.det_thresh == plan.det_thresh
            &&& e.det_unclip_ratio == plan.det_unclip_ratio
            &&& e.det_max_candidates == plan.det_max_candidates
            &&& e.text_score == plan.text_score
            &&& e.det_use_dilation == plan.det_use_dilation
            &&& e.det_max_side == engine::side_limit(plan.det_max_side as int)
        },
{
    let box_thresh: F32 = choose_single(
        req.det_box_thresh,
        env.det_box_thresh,
        plan.size.box_thresh(),
    );
    if !within(box_thresh.to_double(), 1) {
        return Err(ConfigError::BoxThresh);
    }
    let mut e: Engine = Engine::from_memory(
        dictionary,
        plan.threads,
        plan.det_threads,
        plan.rec_batch,
        box_thresh,
        plan.det_thresh,
        plan.det_unclip_ratio,
        plan.det_max_candidates,
        plan.text_score,
        plan.det_use_dilation,
        plan.pool,
        plan.det_max_side,
        env,
    );
    let usual: usize = match plan.size {
        ModelSize::Tiny => 64,
        ModelSize::Small => 96,
        ModelSize::Medium => 320,
    };
    let width: usize = clamp(choose_count(req.rec_min_width, &env.rec_min_width, usual), 64, 3200);
    e.set_input_limits(req.det_min_side, Some(width));
    Ok(e)
}

// ---- laws ----

/// What is asked for stands, whatever the environment says.
pub proof fn law_arguments_precede_environment(
    req: Request,
    a: Env,
    b: Env,
    cores: int,
    size: ModelSize,
)
    ensures
        req.threads is Some ==> req.chosen_threads(a, cores) == req.chosen_threads(b, cores),
        req.det_thresh is Some ==> req.chosen_det_thresh(a) == req.chosen_det_thresh(b),
        req.det_unclip_ratio is Some ==> req.chosen_unclip_ratio(a) == req.chosen_unclip_ratio(b),
        req.det_max_candidates is Some ==> req.chosen_candidates(a) == req.chosen_candidates(b),
        req.text_score is Some ==> req.chosen_text_score(a) == req.chosen_text_score(b),
        req.det_use_dilation is Some ==> req.chosen_dilation(a) == req.chosen_dilation(b),
        req.det_box_thresh is Some ==> chosen_box_thresh(req, a, size) == chosen_box_thresh(
            req,
            b,
            size,
        ),
        req.rec_min_width is Some ==> chosen_rec_width(req, a, size) == chosen_rec_width(
            req,
            b,
            size,
        ),
        req.det_min_side is Some ==> chosen_min_side(req, a) == chosen_min_side(req, b),
{
}

/// The detector's threads and the recognizer's sessions are at least one and no
/// more than the threads of the engine, and without a word from the environment no
/// more than eight, and than the size admits.
pub proof fn law_counts_stay_within_budget(req: Request, env: Env, cores: int, size: ModelSize)
    ensures
        1 <= req.chosen_det_threads(env, cores) <= req.chosen_threads(env, cores),
        1 <= req.chosen_pool(env, cores, size) <= req.chosen_threads(env, cores),
        values::positive(values::value(env.det_threads)) is None ==> req.chosen_det_threads(
            env,
            cores,
        ) <= 8,
        values::positive(values::value(env.rec_pool)) is None ==> req.chosen_pool(env, cores, size)
            <= size.most_sessions(),
{
}

/// The width at which an engine reads is always one that the recognizer takes.
pub proof fn law_rec_width_is_admitted(req: Request, env: Env, size: ModelSize)
    ensures
        64 <= chosen_rec_width(req, env, size) <= 3200,
{
}

/// A number from zero to `top`, in so many words.
pub open spec fn is_fraction(v: Val, top: real) -> bool {
    v matches Val::Fin(x) && 0real <= x <= top
}

/// The request itself is in order, as far as it asks for anything.
pub open spec fn is_in_order(req: Request) -> bool {
    &&& req.threads matches Some(n) ==> n >= 1
    &&& req.rec_batch matches Some(m) ==> m >= 1
    &&& req.det_max_side matches Some(a) ==> a <= 0 || a >= 32
    &&& req.det_min_side matches Some(b) ==> b >= 0
    &&& req.rec_min_width matches Some(w) ==> 64 <= w <= 3200
    &&& req.det_thresh matches Some(x) ==> is_fraction(x@, 1real)
    &&& req.det_unclip_ratio matches Some(y) ==> is_fraction(y@, 5real)
    &&& req.det_max_candidates matches Some(k) ==> 1 <= k <= 10000
    &&& req.text_score matches Some(z) ==> is_fraction(z@, 1real)
    &&& req.model_size@ == "tiny"@ || req.model_size@ == "small"@ || req.model_size@ == "medium"@
}

/// The environment says nothing of what a request is checked for.
pub open spec fn is_silent(env: Env) -> bool {
    &&& env.det_thresh is None
    &&& env.det_unclip_ratio is None
    &&& env.det_max_candidates is None
    &&& env.text_score is None
    &&& env.det_use_dilation is None
    &&& env.threads is None
    &&& env.det_threads is None
    &&& env.rec_pool is None
}

proof fn lemma_fraction(v: Val, top: real)
    requires
        top >= 0real,
    ensures
        is_within(v, top) <==> is_fraction(v, top),
{
}

proof fn lemma_usual_values() -> (r: (real, real))
    ensures
        (F32 { bits: DET_THRESH })@ == Val::Fin(r.0),
        -1real / 100000000real <= r.0 - 2real / 10real <= 1real / 100000000real,
        (F64 { bits: DET_UNCLIP_RATIO })@ == Val::Fin(r.1),
        -1real / 1000000000000000real <= r.1 - 14real / 10real <= 1real / 1000000000000000real,
        (F32 { bits: TEXT_SCORE })@ == Val::Fin(0real),
{
    levels::lemma_single_value(0x3e4c_cccd, 124, 0x4c_cccd, 26);
    let n = 0x3ff6_6666_6666_6666int;
    vstd::arithmetic::div_mod::lemma_fundamental_div_mod_converse(
        n,
        0x10_0000_0000_0000,
        0x3ff,
        0x6_6666_6666_6666,
    );
    assert((n / 0x10_0000_0000_0000) % 2048 == 0x3ff);
    model::lemma_two_pow_nat(52);
    model::lemma_two_pow_add(52, -52);
    vstd::arithmetic::power2::lemma2_to64();
    vstd::arithmetic::power2::lemma2_to64_rest();
    let (up, p) = (model::two_pow(52), model::two_pow(-52));
    assert(up == 0x10_0000_0000_0000real);
    assert(model::two_pow(0) == 1real);
    let m = 0x16_6666_6666_6666int as real;
    let z = m * p;
    assert(z == m / up) by (nonlinear_arith)
        requires
            up * p == 1real,
            up > 0real,
            z == m * p,
    ;
    assert((F32 { bits: TEXT_SCORE })@ == Val::Fin(0real)) by {
        let q = model::two_pow(-149);
        assert(0real * q == 0real) by (nonlinear_arith);
    }
    ((F32 { bits: DET_THRESH })@->Fin_0, z)
}

/// A request is accepted where each thing that it asks for is within its limits, and
/// refused where one is not.
pub proof fn law_request_in_order_is_accepted(
    req: &Request,
    env: &Env,
    cores: usize,
    r: Result<EnginePlan, ConfigError>,
)
    requires
        call_ensures(plan_engine, (req, env, cores), r),
    ensures
        r is Ok ==> is_in_order(*req),
        is_silent(*env) && is_in_order(*req) ==> r is Ok,
{
    lemma_usual_values();
    lemma_fraction(req.chosen_det_thresh(*env), 1real);
    lemma_fraction(req.chosen_unclip_ratio(*env), 5real);
    lemma_fraction(req.chosen_text_score(*env), 1real);
    if let Some(s) = env.det_max_candidates {
    } else {
        assert(values::positive(values::value(env.det_max_candidates)) is None);
    }
}

/// A refusal says what is wrong: where the environment is silent, it is the very thing
/// that the request asks for.
pub proof fn law_refusal_says_what_is_wrong(
    req: &Request,
    env: &Env,
    cores: usize,
    r: Result<EnginePlan, ConfigError>,
    e: ConfigError,
)
    requires
        call_ensures(plan_engine, (req, env, cores), r),
        is_silent(*env),
        r == Err::<EnginePlan, ConfigError>(e),
    ensures
        e == ConfigError::Counts <==> req.threads == Some(0usize) || req.rec_batch == Some(0usize),
        e == ConfigError::Sides ==> (req.det_max_side is Some && 0 < req.det_max_side->0 < 32) || (
        req.det_min_side is Some && req.det_min_side->0 < 0),
        e == ConfigError::RecMinWidth ==> req.rec_min_width is Some && !(64
            <= req.rec_min_width->0 <= 3200),
        e == ConfigError::DetThresh ==> req.det_thresh is Some && !is_fraction(
            req.det_thresh->0@,
            1real,
        ),
        e == ConfigError::UnclipRatio ==> req.det_unclip_ratio is Some && !is_fraction(
            req.det_unclip_ratio->0@,
            5real,
        ),
        e == ConfigError::MaxCandidates ==> req.det_max_candidates is Some && !(1
            <= req.det_max_candidates->0 <= 10000),
        e == ConfigError::TextScore ==> req.text_score is Some && !is_fraction(
            req.text_score->0@,
            1real,
        ),
        e == ConfigError::ModelSize ==> req.model_size@ != "tiny"@ && req.model_size@ != "small"@
            && req.model_size@ != "medium"@,
        e != ConfigError::BoxThresh,
{
    lemma_usual_values();
    lemma_fraction(req.chosen_det_thresh(*env), 1real);
    lemma_fraction(req.chosen_unclip_ratio(*env), 5real);
    lemma_fraction(req.chosen_text_score(*env), 1real);
}

/// A plan has what was asked for, as it was asked for.
pub proof fn law_plan_has_what_was_asked_for(
    req: &Request,
    env: &Env,
    cores: usize,
    plan: EnginePlan,
)
    requires
        call_ensures(plan_engine, (req, env, cores), Ok::<EnginePlan, ConfigError>(plan)),
    ensures
        req.model_size@ == "tiny"@ ==> plan.size == ModelSize::Tiny,
        req.model_size@ == "small"@ ==> plan.size == ModelSize::Small,
        req.model_size@ == "medium"@ ==> plan.size == ModelSize::Medium,
        req.threads is Some ==> plan.threads == req.threads->0,
        req.rec_batch is Some ==> plan.rec_batch == req.rec_batch->0,
        req.det_max_side is Some ==> plan.det_max_side == req.det_max_side->0,
        req.det_thresh is Some ==> plan.det_thresh@ == req.det_thresh->0@,
        req.det_unclip_ratio is Some ==> plan.det_unclip_ratio@ == req.det_unclip_ratio->0@,
        req.det_max_candidates is Some ==> plan.det_max_candidates == req.det_max_candidates->0,
        req.text_score is Some ==> plan.text_score@ == req.text_score->0@,
        req.det_use_dilation is Some ==> plan.det_use_dilation == req.det_use_dilation->0,
{
    reveal_strlit("tiny");
    reveal_strlit("small");
    reveal_strlit("medium");
    assert("tiny"@.len() == 4 && "small"@.len() == 5 && "medium"@.len() == 6);
}

/// What neither the request nor the environment speaks of is as usual: a thread for
/// each core, eight of them at most for the detector, and as many sessions of the
/// recognizer as threads, but 8 at most with the medium model and 32 with the others;
/// one crop in a batch, sides up to 1600, a threshold of 0.2, a ratio of 1.4, 3000
/// candidates, texts of any score, and no dilation.
pub proof fn law_plan_has_the_usual_values(
    req: &Request,
    env: &Env,
    cores: usize,
    plan: EnginePlan,
)
    requires
        call_ensures(plan_engine, (req, env, cores), Ok::<EnginePlan, ConfigError>(plan)),
        is_silent(*env),
    ensures
        req.threads is None ==> plan.threads == if cores >= 1 {
            cores
        } else {
            1
        },
        plan.threads <= 8 ==> plan.det_threads == plan.threads,
        plan.threads >= 8 ==> plan.det_threads == 8,
        plan.size == ModelSize::Medium && plan.threads > 8 ==> plan.pool == 8,
        plan.size != ModelSize::Medium && plan.threads > 32 ==> plan.pool == 32,
        plan.threads <= 8 || (plan.size != ModelSize::Medium && plan.threads <= 32) ==> plan.pool
            == plan.threads,
        req.rec_batch is None ==> plan.rec_batch == 1,
        req.det_max_side is None ==> plan.det_max_side == 1600,
        req.det_thresh is None ==> (plan.det_thresh@ matches Val::Fin(x) && -1real / 100000000real
            <= x - 2real / 10real <= 1real / 100000000real),
        req.det_unclip_ratio is None ==> (plan.det_unclip_ratio@ matches Val::Fin(x) && -1real
            / 1000000000000000real <= x - 14real / 10real <= 1real / 1000000000000000real),
        req.det_max_candidates is None ==> plan.det_max_candidates == 3000,
        req.text_score is None ==> plan.text_score@ == Val::Fin(0real),
        req.det_use_dilation is None ==> !plan.det_use_dilation,
{
    lemma_usual_values();
    assert(req.threads matches Some(n) ==> n >= 1);
}

/// The environment's counts are taken where the request says nothing: the threads as
/// they are, those of the detector and the sessions of the recognizer up to the
/// threads that there are.
pub proof fn law_environment_is_heeded(
    req: &Request,
    env: &Env,
    cores: usize,
    plan: EnginePlan,
    n: int,
)
    requires
        call_ensures(plan_engine, (req, env, cores), Ok::<EnginePlan, ConfigError>(plan)),
        n >= 1,
    ensures
        req.threads is None && env.threads is Some && values::usize_in(env.threads->0@) == Some(n)
            ==> plan.threads == n,
        env.det_threads is Some && values::usize_in(env.det_threads->0@) == Some(n)
            ==> plan.det_threads == if n < plan.threads {
            n
        } else {
            plan.threads as int
        },
        env.rec_pool is Some && values::usize_in(env.rec_pool->0@) == Some(n) ==> plan.pool == if n
            < plan.threads {
            n
        } else {
            plan.threads as int
        },
        req.det_max_candidates is None && env.det_max_candidates is Some && values::usize_in(
            env.det_max_candidates->0@,
        ) == Some(n) ==> plan.det_max_candidates == n,
        req.det_unclip_ratio is None && env.det_unclip_ratio is Some ==> plan.det_unclip_ratio@
            == env.det_unclip_ratio->0@,
{
}

/// An engine is made unless its box threshold is no number from zero to one, and what
/// the plan and the request hold is what it has.
pub proof fn law_engine_has_what_was_asked_for(
    plan: &EnginePlan,
    dictionary: Vec<String>,
    req: &Request,
    env: &Env,
    r: Result<Engine, ConfigError>,
)
    requires
        call_ensures(build_engine, (plan, dictionary, req, env), r),
    ensures
        req.det_box_thresh matches Some(x) ==> (r is Ok <==> is_fraction(x@, 1real)),
        req.det_box_thresh is None && env.det_box_thresh is None ==> r is Ok,
        r is Err ==> r == Err::<Engine, ConfigError>(ConfigError::BoxThresh),
        r matches Ok(e) ==> {
            &&& e.threads == plan.threads
            &&& e.det_threads == plan.det_threads
            &&& e.det_thresh == plan.det_thresh
            &&& e.det_unclip_ratio == plan.det_unclip_ratio
            &&& e.det_max_candidates == plan.det_max_candidates
            &&& e.text_score == plan.text_score
            &&& e.det_use_dilation == plan.det_use_dilation
            &&& plan.rec_batch >= 1 ==> e.rec_batch == plan.rec_batch
            &&& plan.rec_batch == 0 ==> e.rec_batch == 1
            &&& plan.det_max_side > 0 ==> e.det_max_side == plan.det_max_side
            &&& plan.det_max_side <= 0 ==> e.det_max_side == 4000
            &&& req.det_box_thresh is Some ==> e.box_thresh@ == req.det_box_thresh->0@
            &&& req.det_min_side is Some ==> e.det_min_side == req.det_min_side->0
            &&& req.rec_min_width is Some && 64 <= req.rec_min_width->0 <= 3200 ==> e.rec_min_width
                == req.rec_min_width->0
        },
{
    lemma_usual_box_thresh(plan.size);
    lemma_fraction(chosen_box_thresh(*req, *env, plan.size), 1real);
}

proof fn lemma_usual_box_thresh(size: ModelSize) -> (x: real)
    ensures
        size.usual_box_thresh()@ == Val::Fin(x),
        size == ModelSize::Tiny ==> -1real / 10000000real <= x - 40real / 100real <= 1real
            / 10000000real,
        size != ModelSize::Tiny ==> -1real / 10000000real <= x - 45real / 100real <= 1real
            / 10000000real,
{
    levels::lemma_single_value(0x3ecc_cccd, 125, 0x4c_cccd, 25);
    levels::lemma_single_value(0x3ee6_6666, 125, 0x66_6666, 25);
    size.usual_box_thresh()@->Fin_0
}

/// What neither the request nor the environment speaks of is as usual: a box threshold
/// of 0.40 with the tiny model and 0.45 with the others, a least side of 736, a least
/// width of 64, 96 or 320, a budget of 800 columns, and the switches as they stand.
pub proof fn law_engine_has_the_usual_settings(
    plan: &EnginePlan,
    dictionary: Vec<String>,
    req: &Request,
    env: &Env,
    e: Engine,
)
    requires
        call_ensures(build_engine, (plan, dictionary, req, env), Ok::<Engine, ConfigError>(e)),
    ensures
        req.det_box_thresh is None && env.det_box_thresh is None ==> (e.box_thresh@ matches Val::Fin(
            x,
        ) && -1real / 10000000real <= x - (if plan.size == ModelSize::Tiny {
            40real
        } else {
            45real
        }) / 100real <= 1real / 10000000real),
        req.det_min_side is None && env.det_min_side is None ==> e.det_min_side == 736,
        req.rec_min_width is None && env.rec_min_width is None ==> e.rec_min_width == match plan.size {
            ModelSize::Tiny => 64int,
            ModelSize::Small => 96int,
            ModelSize::Medium => 320int,
        },
        env.rec_budget is None ==> e.rec_budget == 800,
        env.approx_gelu is None ==> !e.approximate_gelu,
        env.mempat is None ==> !e.mempat,
        env.prepack is None ==> e.prepack,
        env.det_spin is None ==> e.det_spin,
        env.rec_spin is None ==> e.rec_spin,
        env.rayon_threads is None && plan.threads >= 1 ==> e.rayon_threads == plan.threads,
{
    lemma_usual_box_thresh(plan.size);
}

/// The environment's settings are taken: the switches unless they are "0", the counts
/// where they are positive, the least width from 64 to 3200, and no more threads for
/// image work than there are.
pub proof fn law_engine_heeds_the_environment(
    plan: &EnginePlan,
    dictionary: Vec<String>,
    req: &Request,
    env: &Env,
    e: Engine,
    n: int,
)
    requires
        call_ensures(build_engine, (plan, dictionary, req, env), Ok::<Engine, ConfigError>(e)),
        n >= 1,
        plan.threads >= 1,
    ensures
        env.approx_gelu is Some ==> (!e.approximate_gelu <==> env.approx_gelu->0@ =~= seq!['0']),
        env.mempat is Some ==> (!e.mempat <==> env.mempat->0@ =~= seq!['0']),
        env.prepack is Some ==> (!e.prepack <==> env.prepack->0@ =~= seq!['0']),
        env.det_spin is Some ==> (!e.det_spin <==> env.det_spin->0@ =~= seq!['0']),
        env.rec_spin is Some ==> (!e.rec_spin <==> env.rec_spin->0@ =~= seq!['0']),
        env.rec_budget is Some && values::usize_in(env.rec_budget->0@) == Some(n) ==> e.rec_budget
            == n,
        env.rayon_threads is Some && values::usize_in(env.rayon_threads->0@) == Some(n)
            ==> e.rayon_threads == if n < plan.threads {
            n
        } else {
            plan.threads as int
        },
        req.rec_min_width is None && env.rec_min_width is Some && values::usize_in(
            env.rec_min_width->0@,
        ) == Some(n) ==> e.rec_min_width == if n < 64 {
            64
        } else if n > 3200 {
            3200
        } else {
            n
        },
        req.det_min_side is None && env.det_min_side is Some && values::i64_in(
            env.det_min_side->0@,
        ) == Some(n) ==> e.det_min_side == n,
{
}

/// The threads are shared out: each of the recognizer's sessions has as many as go
/// into all of them; a session for wide batches has four, or all where there are
/// fewer; and there are such sessions, four at most and as many as the threads admit,
/// only where they have more threads than the others.
pub proof fn law_threads_are_shared_out(
    plan: &EnginePlan,
    dictionary: Vec<String>,
    req: &Request,
    env: &Env,
    e: Engine,
)
    requires
        call_ensures(build_engine, (plan, dictionary, req, env), Ok::<Engine, ConfigError>(e)),
        1 <= plan.pool <= plan.threads,
    ensures
        e.rec_workers == plan.pool,
        e.rec_workers * e.rec_threads <= plan.threads,
        plan.threads < e.rec_workers * (e.rec_threads + 1),
        plan.threads >= 4 ==> e.wide_threads == 4,
        plan.threads < 4 ==> e.wide_threads == plan.threads,
        e.wide_workers == 0 <==> e.wide_threads <= e.rec_threads,
        e.wide_workers > 0 ==> e.wide_workers * e.wide_threads <= plan.threads,
        e.wide_workers > 0 ==> e.wide_workers == 4 || (e.wide_workers < 4 && plan.threads
            < e.wide_threads * (e.wide_workers + 1)),
{
    let (t, p) = (plan.threads as int, plan.pool as int);
    let each = t / p;
    assert(p * each <= t && t < p * (each + 1) && each >= 1) by (nonlinear_arith)
        requires
            1 <= p <= t,
            each == t / p,
    ;
    let w = e.wide_threads as int;
    let c = t / w;
    assert(w * c <= t && t < w * (c + 1) && c >= 1) by (nonlinear_arith)
        requires
            1 <= w <= t,
            c == t / w,
    ;
    if c > 4 {
        assert(4 * w <= w * c) by (nonlinear_arith)
            requires
                c > 4,
                w >= 1,
        ;
    } else {
        assert(c * w == w * c) by (nonlinear_arith);
    }
}

/// The engine's classes are the blank, the entries of the dictionary in order, and the
/// space.
pub proof fn law_classes_are_the_dictionary(
    plan: &EnginePlan,
    dictionary: Vec<String>,
    req: &Request,
    env: &Env,
    e: Engine,
)
    requires
        call_ensures(build_engine, (plan, dictionary, req, env), Ok::<Engine, ConfigError>(e)),
    ensures
        e.chars@.len() == dictionary@.len() + 2,
        forall|i: int| 0 <= i < dictionary@.len() ==> #[trigger] dictionary@[i]@ == e.chars@[i + 1]@,
        e.chars@[(dictionary@.len() + 1) as int]@ =~= seq![' '],
{
    let all = dict::class_texts(dict::texts(dictionary@));
    let n = dictionary@.len() as int;
    assert(dict::texts(e.chars@).len() == e.chars@.len());
    assert(all.len() == n + 2);
    assert forall|i: int| 0 <= i < n implies #[trigger] dictionary@[i]@ == e.chars@[i + 1]@ by {
        assert(all[i + 1] == dict::texts(dictionary@)[i]);
        assert(dict::texts(e.chars@)[i + 1] == e.chars@[i + 1]@);
    }
    assert(all[n + 1] == " "@);
    assert(dict::texts(e.chars@)[n + 1] == e.chars@[n + 1]@);
    reveal_strlit(" ");
}

/// Whatever comes from the environment, the settings of an accepted plan are within
/// their limits.
pub proof fn law_accepted_plan_is_within_limits(
    req: &Request,
    env: &Env,
    cores: usize,
    plan: EnginePlan,
)
    requires
        call_ensures(plan_engine, (req, env, cores), Ok::<EnginePlan, ConfigError>(plan)),
    ensures
        is_fraction(plan.det_thresh@, 1real),
        is_fraction(plan.det_unclip_ratio@, 5real),
        is_fraction(plan.text_score@, 1real),
        1 <= plan.det_max_candidates <= 10000,
        plan.threads >= 1,
        plan.rec_batch >= 1,
        1 <= plan.det_threads <= plan.threads,
        1 <= plan.pool <= plan.threads,
        plan.det_max_side <= 0 || plan.det_max_side >= 32,
{
    lemma_fraction(req.chosen_det_thresh(*env), 1real);
    lemma_fraction(req.chosen_unclip_ratio(*env), 5real);
    lemma_fraction(req.chosen_text_score(*env), 1real);
}

/// The environment's fractions and its word on dilation are taken where the request
/// says nothing, the fractions in single digits.
pub proof fn law_environment_fractions_are_heeded(
    req: &Request,
    env: &Env,
    cores: usize,
    plan: EnginePlan,
    x: real,
)
    requires
        call_ensures(plan_engine, (req, env, cores), Ok::<EnginePlan, ConfigError>(plan)),
        0real <= x <= 1real,
    ensures
        req.det_thresh is None && env.det_thresh is Some && env.det_thresh->0@ == Val::Fin(x)
            ==> laws::is_near(Format::Single, plan.det_thresh@, x),
        req.text_score is None && env.text_score is Some && env.text_score->0@ == Val::Fin(x)
            ==> laws::is_near(Format::Single, plan.text_score@, x),
        req.det_use_dilation is None && env.det_use_dilation is Some ==> (plan.det_use_dilation
            <==> values::says_yes(env.det_use_dilation->0@)),
{
    bounds::lemma_single_error(x);
}

/// The environment's box threshold is taken where the request says nothing.
pub proof fn law_environment_box_threshold_is_heeded(
    plan: &EnginePlan,
    dictionary: Vec<String>,
    req: &Request,
    env: &Env,
    e: Engine,
    x: real,
)
    requires
        call_ensures(build_engine, (plan, dictionary, req, env), Ok::<Engine, ConfigError>(e)),
        0real <= x <= 1real,
    ensures
        req.det_box_thresh is None && env.det_box_thresh is Some && env.det_box_thresh->0@
            == Val::Fin(x) ==> laws::is_near(Format::Single, e.box_thresh@, x),
        is_fraction(e.box_thresh@, 1real),
{
    bounds::lemma_single_error(x);
    lemma_fraction(chosen_box_thresh(*req, *env, plan.size), 1real);
}

} // verus!
