//! Images on their way through the networks: the detector's output gives the crops,
//! the crops of all images are put together and read in batches, and each image gets
//! its own texts back.

use crate::boxes;
use crate::boxes::{order_boxes, quad_to_box4, Quad};
use crate::components::Pt;
use crate::crop;
use crate::crop::crop_boxes;
use crate::engine::Engine;
use crate::float::model::Val;
use crate::float::F32;
use crate::mask;
use crate::mask::candidates;
use crate::plan;
use crate::plan::{plan_recognition, RecPlan};
use crate::postprocess;
use crate::postprocess::{db_postprocess, Geometry, Judge};
use crate::recognize;
use crate::recognize::{rec_widths, REC_MAX_W};
use crate::resize::ImageRgb;
use crate::results;
use crate::results::{gather_texts, recognize, split_results, Answer, OcrResult, Read};
use vstd::prelude::*;

verus! {

/// The crops of several images, one image after the other.
pub struct Pages {
    pub crops: Vec<ImageRgb>,
    /// The box of each crop.
    pub boxes: Vec<Quad>,
    /// How many crops each image has.
    pub counts: Vec<usize>,
}

impl Pages {
    /// Each crop has a box and belongs to an image.
    pub open spec fn wf(&self) -> bool {
        &&& self.boxes@.len() == self.crops@.len()
        &&& results::start_of(self.counts@, self.counts@.len() as int) == self.crops@.len()
    }

    pub fn new() -> (r: Pages)
        ensures
            r.wf(),
            r.crops@.len() == 0,
            r.counts@.len() == 0,
    {
        Pages { crops: Vec::new(), boxes: Vec::new(), counts: Vec::new() }
    }

    /// Adds an image with its crops and their boxes.
    pub fn add(&mut self, crops: Vec<ImageRgb>, quads: Vec<Quad>)
        requires
            old(self).wf(),
            crops@.len() == quads@.len(),
        ensures
            final(self).wf(),
            final(self).crops@ == old(self).crops@ + crops@,
            final(self).boxes@ == old(self).boxes@ + quads@,
            final(self).counts@ == old(self).counts@.push(crops@.len() as usize),
    {
        let ghost before = self.counts@;
        let mut crops: Vec<ImageRgb> = crops;
        let mut quads: Vec<Quad> = quads;
        self.counts.push(crops.len());
        self.crops.append(&mut crops);
        self.boxes.append(&mut quads);
        proof {
            assert(before =~= self.counts@.take(before.len() as int));
            lemma_start_before(before, self.counts@, before.len() as int);
        }
    }
}

proof fn lemma_start_before(a: Seq<usize>, b: Seq<usize>, n: int)
    requires
        0 <= n <= a.len() <= b.len(),
        a == b.take(a.len() as int),
    ensures
        results::start_of(a, n) == results::start_of(b, n),
    decreases n,
{
    if n > 0 {
        lemma_start_before(a, b, n - 1);
        assert(a[n - 1] == b[n - 1]);
    }
}

/// The widths at which the crops are read.
pub open spec fn widths_of(crops: Seq<ImageRgb>, min_width: int) -> Seq<usize> {
    Seq::new(crops.len(), |i: int| recognize::crop_width(crops, i, min_width) as usize)
}

/// Each answer is to a batch of the plan.
pub open spec fn are_answers(answers: Seq<Answer>, plan: RecPlan) -> bool {
    forall|a: int| 0 <= a < answers.len() ==> (#[trigger] answers[a]).0 < plan.batches@.len()
}

/// The batches of a plan hold every crop in one place, and nothing else.
proof fn lemma_plan_holds_crops(e: Engine, crops: Seq<ImageRgb>, plan: RecPlan)
    requires
        e.plans(crops, plan),
    ensures
        ({
            let batches = plan::views(plan.batches@);
            &&& forall|j: usize| j < crops.len() ==> #[trigger] plan::is_held(batches, j)
            &&& results::apart(batches)
            &&& forall|b: int, k: int|
                0 <= b < batches.len() && 0 <= k < batches[b].len() ==> (#[trigger] batches[b][k])
                    < crops.len()
        }),
{
    let widths = widths_of(crops, e.rec_min_width as int);
    let keys = plan::keys_of(widths);
    let batches = plan::views(plan.batches@);
    let (budget, cap) = (e.rec_budget as int, e.rec_batch as int);
    let order = choose|order: Seq<usize>| #[trigger]
        plan::is_stable_order(keys, order) && plan::is_plan(batches, order, widths, budget, cap);
    plan::law_batches_hold_every_crop_once(batches, keys, order, widths, budget, cap);
}

impl Engine {
    /// The sizes and settings by which this engine judges candidates.
    pub open spec fn judges(&self, img: ImageRgb, pw: usize, ph: usize) -> Judge {
        Judge {
            pw,
            ph,
            src_w: img.w,
            src_h: img.h,
            box_thresh: self.box_thresh,
            unclip_ratio: self.det_unclip_ratio,
        }
    }

    /// The sizes and settings by which this engine judges candidates.
    pub fn judge(&self, img: &ImageRgb, pw: usize, ph: usize) -> (r: Judge)
        ensures
            r == self.judges(*img, pw, ph),
    {
        Judge {
            pw,
            ph,
            src_w: img.w,
            src_h: img.h,
            box_thresh: self.box_thresh,
            unclip_ratio: self.det_unclip_ratio,
        }
    }

    /// The boxes that the detector's output for an image gives.
    pub open spec fn detects<G: Geometry>(
        &self,
        boxes: Seq<Quad>,
        g: &G,
        img: ImageRgb,
        pred: &[F32],
        pw: usize,
        ph: usize,
    ) -> bool {
        postprocess::are_boxes(
            boxes,
            g,
            self.map_of(pred@, pw as int, ph as int),
            self.det_max_candidates as int,
            pred,
            self.judges(img, pw, ph),
        )
    }

    /// The crops and boxes that the detector's output for an image gives: the boxes in
    /// reading order, each with its crop, without those that have no pixels. None
    /// where there are two boxes or more and one of them has no place.
    pub open spec fn is_detected<G: Geometry>(
        &self,
        r: Option<(Seq<ImageRgb>, Seq<Quad>)>,
        g: &G,
        img: &ImageRgb,
        pred: &[F32],
        pw: usize,
        ph: usize,
    ) -> bool {
        exists|quads: Seq<Quad>|
            {
                &&& #[trigger] self.detects(quads, g, *img, pred, pw, ph)
                &&& match r {
                    None => !postprocess::is_placeable(quads),
                    Some((crops, kept)) => {
                        &&& postprocess::is_placeable(quads)
                        &&& exists|list: Seq<(Option<ImageRgb>, Quad)>| #[trigger]
                            crop::are_crops(list, g, img, boxes::reading_order(quads))
                                && crop::are_kept(crops, kept, list)
                    },
                }
            }
    }

    /// The map of the detector's output.
    pub open spec fn map_of(&self, pred: Seq<F32>, pw: int, ph: int) -> Seq<u8> {
        mask::mask(pred, self.det_thresh@, pw, ph, self.det_use_dilation)
    }

    /// The candidates for text in the detector's output.
    pub fn candidates(&self, pred: &[F32], pw: usize, ph: usize) -> (r: Vec<Vec<Pt>>)
        requires
            pred@.len() == pw * ph,
        ensures
            mask::are_candidates(
                r@,
                self.map_of(pred@, pw as int, ph as int),
                pw as int,
                ph as int,
                self.det_max_candidates as int,
            ),
    {
        candidates(
            pred,
            pw,
            ph,
            self.det_thresh,
            self.det_max_candidates,
            self.det_use_dilation,
        )
    }

    /// The crops of an image and their boxes, from the detector's output of `pw` by
    /// `ph` numbers.
    pub fn detect_crops<G: Geometry>(
        &self,
        g: &G,
        img: &ImageRgb,
        pred: &[F32],
        pw: usize,
        ph: usize,
    ) -> (r: Option<(Vec<ImageRgb>, Vec<Quad>)>)
        requires
            img.wf(),
            pred@.len() == pw * ph,
        ensures
            self.is_detected(
                match r {
                    Some((crops, kept)) => Some((crops@, kept@)),
                    None => None,
                },
                g,
                img,
                pred,
                pw,
                ph,
            ),
    {
        let judge: Judge = self.judge(img, pw, ph);
        let quads: Vec<Quad> = db_postprocess(
            g,
            pred,
            &judge,
            self.det_thresh,
            self.det_max_candidates,
            self.det_use_dilation,
        );
        let ghost found = quads@;
        assert(self.detects(found, g, *img, pred, pw, ph));
        match order_boxes(quads) {
            Some(sorted) => Some(crop_boxes(g, img, &sorted)),
            None => None,
        }
    }

    /// The plan by which this engine reads the crops.
    pub open spec fn plans(&self, crops: Seq<ImageRgb>, plan: RecPlan) -> bool {
        plan.is_for(
            widths_of(crops, self.rec_min_width as int),
            self.rec_budget as int,
            self.rec_batch as int,
            self.wide_workers as int,
            self.chars@.len() as int,
        )
    }

    /// Plans the reading of the crops.
    pub fn plan(&self, crops: &Vec<ImageRgb>) -> (r: RecPlan)
        requires
            self.rec_min_width <= REC_MAX_W,
        ensures
            self.plans(crops@, r),
    {
        let widths: Vec<usize> = rec_widths(crops, self.rec_min_width);
        assert(widths@ =~= widths_of(crops@, self.rec_min_width as int));
        plan_recognition(
            &widths,
            self.rec_budget,
            self.rec_batch,
            self.wide_workers,
            self.chars.len(),
        )
    }

    /// The text of each crop, from what was read of the batches of the plan.
    pub fn rec(&self, crops: &Vec<ImageRgb>, plan: &RecPlan, answers: &Vec<Answer>) -> (r: Vec<
        Read,
    >)
        requires
            self.plans(crops@, *plan),
            are_answers(answers@, *plan),
        ensures
            r@.len() == crops@.len(),
            results::read_vals(r@) == results::taken_in(
                crops@.len() as int,
                plan::views(plan.batches@),
                answers@,
            ),
    {
        let ghost batches = plan::views(plan.batches@);
        proof {
            lemma_plan_holds_crops(*self, crops@, *plan);
            assert forall|b: int, k: int|
                0 <= b < plan.batches@.len() && 0 <= k < plan.batches@[b]@.len() implies (
            #[trigger] plan.batches@[b]@[k]) < crops@.len() by {
                assert(batches[b][k] == plan.batches@[b]@[k]);
            }
        }
        gather_texts(crops.len(), &plan.batches, answers)
    }

    /// The bounds of the boxes of an image: left, top, right, bottom.
    pub fn det(&self, quads: &Vec<Quad>) -> (r: Vec<[i32; 4]>)
        ensures
            r@.len() == quads@.len(),
            forall|i: int|
                0 <= i < quads@.len() ==> boxes::are(#[trigger] r@[i], boxes::bounds(quads@[i])),
    {
        let mut out: Vec<[i32; 4]> = Vec::new();
        let mut i: usize = 0;
        while i < quads.len()
            invariant
                i <= quads@.len(),
                out@.len() == i,
                forall|k: int|
                    0 <= k < i ==> boxes::are(#[trigger] out@[k], boxes::bounds(quads@[k])),
            decreases quads@.len() - i,
        {
            out.push(quad_to_box4(&quads[i]));
            i = i + 1;
        }
        out
    }

    /// The results of an image: the texts of its boxes that the engine keeps.
    pub fn run(&self, texts: &Vec<Read>, quads: &Vec<Quad>) -> (r: Vec<OcrResult>)
        requires
            texts@.len() == quads@.len(),
        ensures
            results::are_results(
                r@,
                texts@,
                quads@,
                self.text_score@,
                0,
                texts@.len() as int,
            ),
    {
        recognize(texts, quads, self.text_score)
    }

    /// The results of several images, in the order of the images.
    pub fn run_many(&self, pages: &Pages, texts: &Vec<Read>) -> (r: Vec<Vec<OcrResult>>)
        requires
            pages.wf(),
            texts@.len() == pages.crops@.len(),
        ensures
            r@.len() == pages.counts@.len(),
            forall|i: int|
                0 <= i < r@.len() ==> results::are_results(
                    #[trigger] r@[i]@,
                    texts@,
                    pages.boxes@,
                    self.text_score@,
                    results::start_of(pages.counts@, i),
                    results::start_of(pages.counts@, i + 1),
                ),
    {
        split_results(texts, &pages.boxes, &pages.counts, self.text_score)
    }
}

// ---- laws ----

/// Where the candidates are judged one by one, their boxes put into order, and these
/// cut out one by one, by whichever threads, the crops and boxes that are kept are
/// those that the detector's output gives.
pub proof fn law_parts_make_the_whole<G: Geometry>(
    e: Engine,
    g: &G,
    img: &ImageRgb,
    pred: &[F32],
    pw: usize,
    ph: usize,
    cands: Seq<Vec<Pt>>,
    decisions: Seq<Option<Quad>>,
    list: Seq<(Option<ImageRgb>, Quad)>,
    crops: Seq<ImageRgb>,
    kept: Seq<Quad>,
)
    requires
        mask::are_candidates(
            cands,
            e.map_of(pred@, pw as int, ph as int),
            pw as int,
            ph as int,
            e.det_max_candidates as int,
        ),
        postprocess::are_decided(decisions, g, cands, pred, e.judges(*img, pw, ph)),
        postprocess::is_placeable(postprocess::present(decisions)),
        crop::are_crops(
            list,
            g,
            img,
            boxes::reading_order(postprocess::present(decisions)),
        ),
        crop::are_kept(crops, kept, list),
    ensures
        e.is_detected(Some((crops, kept)), g, img, pred, pw, ph),
{
    assert(e.detects(postprocess::present(decisions), g, *img, pred, pw, ph));
}

/// Every batch of the plan has been answered once, with a text for each of its
/// crops.
pub open spec fn is_answered(plan: RecPlan, answers: Seq<Answer>) -> bool {
    &&& are_answers(answers, plan)
    &&& forall|b: int| 0 <= b < plan.batches@.len() ==> #[trigger] is_answered_at(answers, b)
    &&& forall|a: int, c: int|
        0 <= a < c < answers.len() ==> (#[trigger] answers[a]).0 != (#[trigger] answers[c]).0
    &&& forall|a: int|
        0 <= a < answers.len() ==> (#[trigger] answers[a]).1@.len()
            == plan.batches@[answers[a].0 as int]@.len()
}

/// Some answer is to batch `b`.
pub open spec fn is_answered_at(answers: Seq<Answer>, b: int) -> bool {
    exists|a: int| 0 <= a < answers.len() && (#[trigger] answers[a]).0 == b
}

/// Text `k` of answer `a` was read from crop `j`.
pub open spec fn is_read_from(
    plan: RecPlan,
    answers: Seq<Answer>,
    a: int,
    k: int,
    j: usize,
) -> bool {
    &&& 0 <= a < answers.len()
    &&& 0 <= k < answers[a].1@.len()
    &&& plan.batches@[answers[a].0 as int]@[k] == j
}

/// Once every batch has been answered, each crop has the text that was read from
/// it, whichever workers read the batches and in whatever order.
pub proof fn law_every_crop_is_read(
    e: Engine,
    crops: Seq<ImageRgb>,
    plan: RecPlan,
    answers: Seq<Answer>,
    j: usize,
)
    requires
        e.plans(crops, plan),
        is_answered(plan, answers),
        j < crops.len(),
    ensures
        exists|a: int, k: int| #[trigger]
            is_read_from(plan, answers, a, k, j) && results::taken_in(
                crops.len() as int,
                plan::views(plan.batches@),
                answers,
            )[j as int] == results::read_val(answers[a].1@[k]),
{
    let batches = plan::views(plan.batches@);
    lemma_plan_holds_crops(e, crops, plan);
    assert(plan::is_held(batches, j));
    let (b, k) = choose|b: int, k: int|
        0 <= b < batches.len() && 0 <= k < batches[b].len() && #[trigger] batches[b][k]
            == j;
    assert(batches[b] == plan.batches@[b]@);
    assert(is_answered_at(answers, b));
    let a = choose|a: int| 0 <= a < answers.len() && (#[trigger] answers[a]).0 == b;
    assert(results::answers_fit(crops.len() as int, batches, answers)) by {
        assert forall|c: int| 0 <= c < answers.len() implies (#[trigger] answers[c]).0
            < batches.len() && answers[c].1@.len() == batches[answers[c].0 as int].len() by {
            assert(batches[answers[c].0 as int] == plan.batches@[answers[c].0 as int]@);
        }
    }
    results::law_each_crop_gets_its_own_text(crops.len() as int, batches, answers, a, k);
    assert(is_read_from(plan, answers, a, k, j));
}

proof fn lemma_kept_of_part(
    texts: Seq<Read>,
    thresh: Val,
    from: int,
    to: int,
    n: int,
)
    requires
        0 <= from <= to <= texts.len(),
        0 <= n <= to - from,
    ensures
        ({
            let all = results::kept_between(texts, thresh, from, from + n);
            let own = results::kept_between(texts.subrange(from, to), thresh, 0, n);
            &&& all.len() == own.len()
            &&& forall|i: int| 0 <= i < own.len() ==> #[trigger] own[i] == all[i] - from
            &&& forall|i: int| 0 <= i < own.len() ==> 0 <= #[trigger] own[i] < n
        }),
    decreases n,
{
    if n > 0 {
        lemma_kept_of_part(texts, thresh, from, to, n - 1);
        assert(texts.subrange(from, to)[n - 1] == texts[from + n - 1]);
    }
}

/// An image read together with others gets the results that it would get alone,
/// for the same texts: `run_many` gives each image what `run` gives it.
pub proof fn law_image_is_read_as_if_alone(
    out: Seq<OcrResult>,
    texts: Seq<Read>,
    quads: Seq<Quad>,
    thresh: Val,
    from: int,
    to: int,
)
    requires
        0 <= from <= to <= texts.len(),
        texts.len() == quads.len(),
        results::are_results(out, texts, quads, thresh, from, to),
    ensures
        results::are_results(
            out,
            texts.subrange(from, to),
            quads.subrange(from, to),
            thresh,
            0,
            to - from,
        ),
{
    lemma_kept_of_part(texts, thresh, from, to, to - from);
    let all = results::kept_between(texts, thresh, from, to);
    let part = texts.subrange(from, to);
    let own = results::kept_between(part, thresh, 0, to - from);
    assert forall|i: int| 0 <= i < out.len() implies results::is_result(
        #[trigger] out[i],
        part,
        quads.subrange(from, to),
        own[i],
    ) by {
        assert(results::is_result(out[i], texts, quads, all[i]));
        assert(own[i] == all[i] - from);
    }
}

/// An engine's results for an image are the good texts by its own threshold, each once,
/// in the order of the boxes, and each with bounds that go round its own box.
pub proof fn law_run_gives_the_good_texts(
    e: &Engine,
    texts: &Vec<Read>,
    quads: &Vec<Quad>,
    r: Vec<OcrResult>,
) -> (at: Seq<int>)
    requires
        call_ensures(Engine::run, (e, texts, quads), r),
        texts@.len() == quads@.len(),
    ensures
        results::are_good_texts(
            r@,
            texts@,
            quads@,
            e.text_score@,
            0,
            texts@.len() as int,
            at,
        ),
        forall|k: int|
            0 <= k < r@.len() && boxes::is_in_reach(quads@[at[k]]) ==> boxes::goes_round(
                (#[trigger] r@[k]).box4,
                quads@[at[k]],
            ),
{
    let n = texts@.len() as int;
    results::lemma_good_texts(r@, texts@, quads@, e.text_score@, 0, n);
    let at = results::kept_between(texts@, e.text_score@, 0, n);
    assert forall|k: int|
        0 <= k < r@.len() && boxes::is_in_reach(quads@[at[k]]) implies boxes::goes_round(
        (#[trigger] r@[k]).box4,
        quads@[at[k]],
    ) by {
        assert(at[k] >= 0);
        boxes::lemma_goes_round(&quads@[at[k]], r@[k].box4);
    }
    at
}

/// An engine's results for several images are for each image its own good texts:
/// those of image `i` run from `starts[i]` to `starts[i + 1]`.
pub proof fn law_run_many_gives_each_image_its_texts(
    e: &Engine,
    pages: &Pages,
    texts: &Vec<Read>,
    r: Vec<Vec<OcrResult>>,
    starts: Seq<int>,
    i: int,
) -> (at: Seq<int>)
    requires
        call_ensures(Engine::run_many, (e, pages, texts), r),
        starts.len() == pages.counts@.len() + 1,
        starts[0] == 0,
        forall|k: int|
            0 <= k < pages.counts@.len() ==> #[trigger] starts[k + 1] == starts[k]
                + pages.counts@[k],
        0 <= i < pages.counts@.len(),
    ensures
        r@.len() == pages.counts@.len(),
        results::are_good_texts(
            r@[i]@,
            texts@,
            pages.boxes@,
            e.text_score@,
            starts[i],
            starts[i + 1],
            at,
        ),
{
    results::lemma_starts(pages.counts@, starts, i);
    results::lemma_starts(pages.counts@, starts, i + 1);
    assert(results::are_results(
        r@[i]@,
        texts@,
        pages.boxes@,
        e.text_score@,
        results::start_of(pages.counts@, i),
        results::start_of(pages.counts@, i + 1),
    ));
    results::lemma_good_texts(
        r@[i]@,
        texts@,
        pages.boxes@,
        e.text_score@,
        starts[i],
        starts[i + 1],
    );
    results::kept_between(texts@, e.text_score@, starts[i], starts[i + 1])
}

/// Without recognition an engine gives bounds for each of the boxes, in order, that go
/// round it.
pub proof fn law_det_goes_round_every_box(
    e: &Engine,
    quads: &Vec<Quad>,
    r: Vec<[i32; 4]>,
    i: int,
)
    requires
        call_ensures(Engine::det, (e, quads), r),
        0 <= i < quads@.len(),
        boxes::is_in_reach(quads@[i]),
    ensures
        r@.len() == quads@.len(),
        boxes::goes_round(r@[i], quads@[i]),
{
    assert(boxes::are(r@[i], boxes::bounds(quads@[i])));
    boxes::lemma_goes_round(&quads@[i], r@[i]);
}

/// A candidate is judged by the sides of the image and of the detector's output, and by
/// the engine's own box threshold and ratio.
pub proof fn law_judge_has_the_sides_and_settings(
    e: &Engine,
    img: &ImageRgb,
    pw: usize,
    ph: usize,
    r: Judge,
)
    requires
        call_ensures(Engine::judge, (e, img, pw, ph), r),
    ensures
        r.pw == pw,
        r.ph == ph,
        r.src_w == img.w,
        r.src_h == img.h,
        r.box_thresh == e.box_thresh,
        r.unclip_ratio == e.det_unclip_ratio,
{
}

/// An engine reads its crops by a plan for their widths at a height of 48, with its own
/// least width, budget and cap.
pub proof fn law_engine_plans_by_width(e: &Engine, crops: &Vec<ImageRgb>, r: RecPlan) -> (widths:
    Seq<usize>)
    requires
        call_ensures(Engine::plan, (e, crops), r),
        e.rec_min_width <= 3200,
        forall|i: int|
            0 <= i < crops@.len() ==> (#[trigger] crops@[i]).w < 0x400_0000 && 0 < crops@[i].h
                < 0x400_0000,
    ensures
        widths.len() == crops@.len(),
        forall|i: int|
            0 <= i < crops@.len() ==> recognize::is_read_width(
                #[trigger] widths[i] as int,
                crops@[i].w as int,
                crops@[i].h as int,
                e.rec_min_width as int,
            ),
        plan::is_planned(
            r,
            widths,
            e.rec_budget as int,
            e.rec_batch as int,
            e.wide_workers as int,
            e.chars@.len() as int,
        ),
{
    let widths = widths_of(crops@, e.rec_min_width as int);
    assert forall|i: int| 0 <= i < crops@.len() implies recognize::is_read_width(
        #[trigger] widths[i] as int,
        crops@[i].w as int,
        crops@[i].h as int,
        e.rec_min_width as int,
    ) by {
        let crop = crops@[i];
        recognize::lemma_read_width(crop.w as int, crop.h as int, e.rec_min_width as int);
    }
    plan::lemma_planned(
        r,
        widths,
        e.rec_budget as int,
        e.rec_batch as int,
        e.wide_workers as int,
        e.chars@.len() as int,
    );
    widths
}

/// An engine's candidates are those regions, by its own threshold, limit and dilation.
pub proof fn law_engine_takes_the_large_regions(
    e: &Engine,
    pred: &[F32],
    pw: usize,
    ph: usize,
    r: Vec<Vec<Pt>>,
) -> (seeds: Seq<int>)
    requires
        call_ensures(Engine::candidates, (e, pred, pw, ph), r),
        pred@.len() == pw * ph,
        0 < pw,
        pred@.len() <= usize::MAX,
        pred@.len() < 0x10_0000_0000_0000,
    ensures
        mask::are_large_regions(
            r@,
            mask::mask(pred@, e.det_thresh@, pw as int, ph as int, e.det_use_dilation),
            pw as int,
            e.det_max_candidates as int,
            seeds,
        ),
{
    mask::lemma_large_regions(
        r@,
        mask::mask(pred@, e.det_thresh@, pw as int, ph as int, e.det_use_dilation),
        pw as int,
        ph as int,
        e.det_max_candidates as int,
    )
}

} // verus!
