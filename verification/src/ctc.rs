//! Reading the recognizer's output: the likeliest class of each step, without
//! repeats and blanks.

use crate::float::bounds;
use crate::float::model::{Format, Val};
use crate::float::{F32, F64};
use vstd::prelude::*;
use vstd::slice::*;
use vstd::string::*;

verus! {

/// The greatest of the numbers; a NaN counts for nothing.
pub open spec fn peak_value(row: Seq<F32>) -> Val
    decreases row.len(),
{
    if row.len() == 0 {
        Val::NegInf
    } else {
        peak_value(row.drop_last()).larger(row.last()@)
    }
}

/// `v` is a number and not below `top`.
pub open spec fn reaches(v: Val, top: Val) -> bool {
    !(v is Nan) && !v.less(top)
}

/// `i` is the first place of `row` that reaches its greatest number; zero where
/// none does.
pub open spec fn is_peak(row: Seq<F32>, i: int) -> bool {
    let top = peak_value(row);
    ||| {
        &&& 0 <= i < row.len()
        &&& reaches(row[i]@, top)
        &&& forall|k: int| 0 <= k < i ==> !reaches(#[trigger] row[k]@, top)
    }
    ||| {
        &&& i == 0
        &&& forall|k: int| 0 <= k < row.len() ==> !reaches(#[trigger] row[k]@, top)
    }
}

/// The likeliest class of a step.
pub open spec fn peak(row: Seq<F32>) -> int {
    choose|i: int| is_peak(row, i)
}

/// The numbers of step `ti`.
pub open spec fn step(logits: Seq<F32>, cls: int, ti: int) -> Seq<F32> {
    logits.subrange(ti * cls, (ti + 1) * cls)
}

/// The likeliest class of step `ti`.
pub open spec fn class(logits: Seq<F32>, cls: int, ti: int) -> int {
    peak(step(logits, cls, ti))
}

/// Step `ti` is read: its class is not blank, and not that of the step before.
pub open spec fn is_read(logits: Seq<F32>, cls: int, ti: int) -> bool {
    let c = class(logits, cls, ti);
    c != 0 && (ti == 0 || c != class(logits, cls, ti - 1))
}

/// The steps below `t` that are read.
pub open spec fn read_steps(logits: Seq<F32>, cls: int, t: int) -> Seq<int>
    decreases t,
{
    if t <= 0 {
        Seq::empty()
    } else {
        let rest = read_steps(logits, cls, t - 1);
        if is_read(logits, cls, t - 1) {
            rest.push(t - 1)
        } else {
            rest
        }
    }
}

/// The text of the given steps.
pub open spec fn text_of(
    chars: Seq<String>,
    logits: Seq<F32>,
    cls: int,
    steps: Seq<int>,
) -> Seq<char>
    decreases steps.len(),
{
    if steps.len() == 0 {
        Seq::empty()
    } else {
        text_of(chars, logits, cls, steps.drop_last()) + chars[class(
            logits,
            cls,
            steps.last(),
        )]@
    }
}

/// The greatest numbers of the given steps, added up in doubles.
pub open spec fn sum_of(logits: Seq<F32>, cls: int, steps: Seq<int>) -> Val
    decreases steps.len(),
{
    if steps.len() == 0 {
        Val::Fin(0real)
    } else {
        sum_of(logits, cls, steps.drop_last()).plus(
            peak_value(step(logits, cls, steps.last())),
            Format::Double,
        )
    }
}

/// The mean of the greatest numbers of the given steps, as a single; zero
/// without any.
pub open spec fn score_of(logits: Seq<F32>, cls: int, steps: Seq<int>) -> Val {
    if steps.len() == 0 {
        Val::Fin(0real)
    } else {
        sum_of(logits, cls, steps).over(
            crate::detect::num(steps.len() as int),
            Format::Double,
        ).fitted(Format::Single)
    }
}

/// Every class that is read has a text.
pub open spec fn has_texts(chars: int, logits: Seq<F32>, cls: int, t: int) -> bool {
    forall|ti: int|
        0 <= ti < t && #[trigger] is_read(logits, cls, ti) ==> class(logits, cls, ti) < chars
}

proof fn lemma_one_peak(row: Seq<F32>, i: int)
    requires
        is_peak(row, i),
    ensures
        peak(row) == i,
{
    let j = peak(row);
    assert(is_peak(row, j));
    if i < j {
        assert(!reaches(row[i]@, peak_value(row)));
    } else if j < i {
        assert(!reaches(row[j]@, peak_value(row)));
    }
}

proof fn lemma_peak_value_attained(row: Seq<F32>)
    ensures
        !(peak_value(row) is Nan),
    decreases row.len(),
{
    if row.len() > 0 {
        lemma_peak_value_attained(row.drop_last());
    }
}

/// The likeliest class of step `ti`, and its number.
fn best(logits: &[F32], cls: usize, ti: usize) -> (r: (usize, F32))
    requires
        (ti + 1) * cls <= logits@.len(),
    ensures
        r.0 == class(logits@, cls as int, ti as int),
        r.1@ == peak_value(step(logits@, cls as int, ti as int)),
{
    let size: usize = logits.len();
    let ghost row = step(logits@, cls as int, ti as int);
    proof {
        assert((ti + 1) * cls == ti * cls + cls && 0 <= ti * cls) by (nonlinear_arith)
            requires
                ti >= 0,
                cls >= 0,
        ;
    }
    let base: usize = ti * cls;
    let mut top: F32 = F32::from_u16(1).over(F32::from_u16(0)).negate();
    let mut i: usize = 0;
    proof {
        assert(row.take(0) =~= Seq::<F32>::empty());
    }
    while i < cls
        invariant
            i <= cls,
            row == step(logits@, cls as int, ti as int),
            row.len() == cls,
            base == ti * cls,
            (ti + 1) * cls == ti * cls + cls,
            base + cls <= logits@.len(),
            size == logits@.len(),
            top@ == peak_value(row.take(i as int)),
        decreases cls - i,
    {
        let v: F32 = logits[base + i];
        proof {
            assert(row.take(i + 1).drop_last() =~= row.take(i as int));
            assert(row.take(i + 1).last() == v);
        }
        top = top.larger(v);
        i = i + 1;
    }
    proof {
        assert(row.take(i as int) =~= row);
        lemma_peak_value_attained(row);
    }
    let mut k: usize = 0;
    while k < cls
        invariant
            k <= cls,
            row == step(logits@, cls as int, ti as int),
            row.len() == cls,
            base == ti * cls,
            (ti + 1) * cls == ti * cls + cls,
            base + cls <= logits@.len(),
            size == logits@.len(),
            top@ == peak_value(row),
            forall|j: int| 0 <= j < k ==> !reaches(#[trigger] row[j]@, top@),
        decreases cls - k,
    {
        let v: F32 = logits[base + k];
        assert(v == row[k as int]);
        if !v.is_nan() && !v.less(top) {
            proof {
                assert(is_peak(row, k as int));
                lemma_one_peak(row, k as int);
            }
            return (k, top);
        }
        k = k + 1;
    }
    proof {
        assert(is_peak(row, 0));
        lemma_one_peak(row, 0);
    }
    (0, top)
}

/// The text that the recognizer's output stands for, and its score: `t` steps of
/// `cls` numbers each, one for each class, the first class being blank.
pub fn ctc_decode(chars: &Vec<String>, logits: &[F32], t: usize, cls: usize) -> (r: (String, F32))
    requires
        t * cls <= logits@.len(),
        has_texts(chars@.len() as int, logits@, cls as int, t as int),
    ensures
        ({
            let steps = read_steps(logits@, cls as int, t as int);
            &&& r.0@ == text_of(chars@, logits@, cls as int, steps)
            &&& r.1@ == score_of(logits@, cls as int, steps)
        }),
{
    let ghost all = logits@;
    let ghost n = cls as int;
    let mut text: String = String::new();
    let mut sum: F64 = F64::from_u16(0);
    let mut count: usize = 0;
    let mut last: Option<usize> = None;
    let mut ti: usize = 0;
    while ti < t
        invariant
            ti <= t,
            t * cls <= logits@.len(),
            all == logits@,
            n == cls,
            has_texts(chars@.len() as int, all, n, t as int),
            text@ == text_of(chars@, all, n, read_steps(all, n, ti as int)),
            sum@ == sum_of(all, n, read_steps(all, n, ti as int)),
            count == read_steps(all, n, ti as int).len(),
            count <= ti,
            ti == 0 ==> last is None,
            ti > 0 ==> last == Some(class(all, n, ti - 1) as usize) && 0 <= class(all, n, ti - 1)
                <= usize::MAX,
        decreases t - ti,
    {
        proof {
            assert((ti + 1) * cls <= t * cls) by (nonlinear_arith)
                requires
                    ti < t,
                    cls >= 0,
            ;
        }
        let (c, top): (usize, F32) = best(logits, cls, ti);
        let fresh: bool = match last {
            None => true,
            Some(l) => l != c,
        };
        let ghost steps = read_steps(all, n, ti as int);
        if fresh && c != 0 {
            proof {
                assert(is_read(all, n, ti as int));
                assert(steps.push(ti as int).drop_last() =~= steps);
            }
            text.append(chars[c].as_str());
            sum = sum.plus(top.to_double());
            count = count + 1;
        }
        last = Some(c);
        ti = ti + 1;
    }
    let score: F32 = if count > 0 {
        sum.over(F64::from_u64(count as u64)).to_single()
    } else {
        F32::from_u16(0)
    };
    (text, score)
}

/// Whether every class that is read has a text, among `chars` of them.
pub fn can_decode(chars: usize, logits: &[F32], t: usize, cls: usize) -> (r: bool)
    requires
        t * cls <= logits@.len(),
    ensures
        r == has_texts(chars as int, logits@, cls as int, t as int),
{
    let mut last: Option<usize> = None;
    let mut ti: usize = 0;
    while ti < t
        invariant
            ti <= t,
            t * cls <= logits@.len(),
            has_texts(chars as int, logits@, cls as int, ti as int),
            ti == 0 ==> last is None,
            ti > 0 ==> last == Some(class(logits@, cls as int, ti - 1) as usize) && 0 <= class(
                logits@,
                cls as int,
                ti - 1,
            ) <= usize::MAX,
        decreases t - ti,
    {
        proof {
            assert((ti + 1) * cls <= t * cls) by (nonlinear_arith)
                requires
                    ti < t,
                    cls >= 0,
            ;
        }
        let (c, _top): (usize, F32) = best(logits, cls, ti);
        let fresh: bool = match last {
            None => true,
            Some(l) => l != c,
        };
        if fresh && c != 0 && c >= chars {
            assert(is_read(logits@, cls as int, ti as int));
            return false;
        }
        last = Some(c);
        ti = ti + 1;
    }
    true
}

/// The output for crop `b` of a batch.
pub open spec fn rows(preds: Seq<F32>, b: int, size: int) -> Seq<F32> {
    preds.subrange(b * size, (b + 1) * size)
}

/// The text and the score that an output stands for.
pub open spec fn is_decoded(
    r: (String, F32),
    chars: Seq<String>,
    logits: Seq<F32>,
    t: int,
    cls: int,
) -> bool {
    let steps = read_steps(logits, cls, t);
    r.0@ == text_of(chars, logits, cls, steps) && r.1@ == score_of(logits, cls, steps)
}

/// The texts and scores of a batch of `n` crops; none where some class that is read
/// has no text.
pub fn decode_batch(chars: &Vec<String>, preds: &[F32], n: usize, t: usize, cls: usize) -> (r: Option<
    Vec<(String, F32)>,
>)
    requires
        n * (t * cls) <= preds@.len(),
        t * cls <= usize::MAX,
    ensures
        match r {
            Some(out) => out@.len() == n && forall|b: int|
                0 <= b < n ==> is_decoded(
                    #[trigger] out@[b],
                    chars@,
                    rows(preds@, b, t * cls),
                    t as int,
                    cls as int,
                ),
            None => exists|b: int|
                0 <= b < n && !has_texts(
                    chars@.len() as int,
                    #[trigger] rows(preds@, b, t * cls),
                    cls as int,
                    t as int,
                ),
        },
{
    let total: usize = preds.len();
    proof {
        assert(0 <= t * cls) by (nonlinear_arith)
            requires
                t >= 0,
                cls >= 0,
        ;
    }
    let size: usize = t * cls;
    let mut out: Vec<(String, F32)> = Vec::new();
    let mut b: usize = 0;
    while b < n
        invariant
            b <= n,
            size == t * cls,
            n * size <= total,
            total == preds@.len(),
            out@.len() == b,
            forall|k: int|
                0 <= k < b ==> is_decoded(
                    #[trigger] out@[k],
                    chars@,
                    rows(preds@, k, size as int),
                    t as int,
                    cls as int,
                ),
        decreases n - b,
    {
        proof {
            assert(0 <= b * size && (b + 1) * size == b * size + size && (b + 1) * size <= n * size)
                by (nonlinear_arith)
                requires
                    0 <= b < n,
                    size >= 0,
            ;
        }
        let part: &[F32] = slice_subrange(preds, b * size, (b + 1) * size);
        assert(part@ == rows(preds@, b as int, size as int));
        if !can_decode(chars.len(), part, t, cls) {
            return None;
        }
        out.push(ctc_decode(chars, part, t, cls));
        b = b + 1;
    }
    Some(out)
}

// ---- laws ----

/// No number of the row is above its greatest one, and one of them is that, unless
/// all are NaN or the row is empty.
proof fn lemma_peak_value_bounds(row: Seq<F32>)
    ensures
        forall|k: int| 0 <= k < row.len() ==> !peak_value(row).less((#[trigger] row[k])@),
        peak_value(row) == Val::NegInf || exists|k: int|
            0 <= k < row.len() && (#[trigger] row[k])@ == peak_value(row),
    decreases row.len(),
{
    if row.len() > 0 {
        let rest = row.drop_last();
        lemma_peak_value_bounds(rest);
        lemma_peak_value_attained(rest);
        let top = peak_value(rest);
        assert forall|k: int| 0 <= k < row.len() implies !peak_value(row).less(
            (#[trigger] row[k])@,
        ) by {
            if k < rest.len() {
                assert(rest[k] == row[k]);
            }
        }
        if peak_value(row) == top {
            if top != Val::NegInf {
                let k = choose|k: int| 0 <= k < rest.len() && (#[trigger] rest[k])@ == top;
                assert(row[k]@ == top);
            }
        } else {
            assert(row[row.len() - 1]@ == peak_value(row));
        }
    }
}

/// The likeliest class of a step is the first of those with the greatest number:
/// of equal ones the first wins.
pub proof fn law_first_greatest_wins(row: Seq<F32>, i: int)
    requires
        0 <= i < row.len(),
        !(row[i]@ is Nan),
        forall|k: int| 0 <= k < row.len() ==> !row[i]@.less((#[trigger] row[k])@),
        forall|k: int| 0 <= k < i ==> #[trigger] row[k]@ != row[i]@,
    ensures
        peak(row) == i,
        peak_value(row) == row[i]@,
{
    lemma_peak_value_bounds(row);
    lemma_peak_value_attained(row);
    let top = peak_value(row);
    assert(!top.less(row[i]@));
    if top != Val::NegInf {
        let k = choose|k: int| 0 <= k < row.len() && (#[trigger] row[k])@ == top;
        assert(!row[i]@.less(row[k]@));
    }
    assert(top == row[i]@);
    assert forall|k: int| 0 <= k < i implies !reaches(#[trigger] row[k]@, top) by {
        assert(!row[i]@.less(row[k]@));
    }
    assert(is_peak(row, i));
    lemma_one_peak(row, i);
}

/// Blanks are not read, and of steps in a row with one class only the first is.
pub proof fn law_repeats_and_blanks_are_not_read(
    logits: Seq<F32>,
    cls: int,
    first: int,
    last: int,
)
    requires
        0 <= first <= last,
        forall|k: int|
            first <= k <= last ==> #[trigger] class(logits, cls, k) == class(logits, cls, first),
    ensures
        class(logits, cls, first) == 0 ==> !is_read(logits, cls, first),
        forall|k: int| first < k <= last ==> !#[trigger] is_read(logits, cls, k),
{
    assert forall|k: int| first < k <= last implies !#[trigger] is_read(logits, cls, k) by {
        assert(class(logits, cls, k) == class(logits, cls, first));
        assert(class(logits, cls, k - 1) == class(logits, cls, first));
    }
}

/// Class `b` is the likeliest of step `ti`: no class of the step has a greater
/// number, and none before it has the same.
pub open spec fn is_best(logits: Seq<F32>, cls: int, ti: int, b: int) -> bool {
    let at = ti * cls;
    &&& 0 <= b < cls
    &&& !(logits[at + b]@ is Nan)
    &&& forall|k: int| at <= k < at + cls ==> !logits[at + b]@.less((#[trigger] logits[k])@)
    &&& forall|k: int| at <= k < at + b ==> (#[trigger] logits[k])@ != logits[at + b]@
}

/// `best` has the likeliest class of each of the first `t` steps.
pub open spec fn are_best(logits: Seq<F32>, cls: int, t: int, best: Seq<int>) -> bool {
    best.len() == t && forall|ti: int| 0 <= ti < t ==> is_best(logits, cls, ti, #[trigger] best[ti])
}

/// `steps` has, in rising order, the steps whose class is neither the blank nor
/// that of the step before.
pub open spec fn are_fresh(best: Seq<int>, steps: Seq<int>) -> bool {
    &&& forall|i: int, j: int| 0 <= i < j < steps.len() ==> #[trigger] steps[i] < #[trigger] steps[j]
    &&& forall|i: int|
        0 <= i < steps.len() ==> 0 <= #[trigger] steps[i] < best.len() && best[steps[i]] != 0 && (
        steps[i] == 0 || best[steps[i]] != best[steps[i] - 1])
    &&& forall|ti: int|
        0 <= ti < best.len() && #[trigger] best[ti] != 0 && (ti == 0 || best[ti] != best[ti - 1])
            ==> steps.contains(ti)
}

proof fn lemma_best(logits: Seq<F32>, cls: int, t: int, ti: int, b: int)
    requires
        is_best(logits, cls, ti, b),
        0 <= ti < t,
        t * cls <= logits.len(),
    ensures
        class(logits, cls, ti) == b,
        peak_value(step(logits, cls, ti)) == logits[ti * cls + b]@,
{
    let at = ti * cls;
    assert(0 <= at && (ti + 1) * cls == at + cls && (ti + 1) * cls <= t * cls) by (nonlinear_arith)
        requires
            0 <= ti < t,
            cls >= 0,
            at == ti * cls,
    ;
    let row = step(logits, cls, ti);
    assert(row.len() == cls);
    assert(row[b] == logits[at + b]);
    assert forall|k: int| 0 <= k < row.len() implies !row[b]@.less((#[trigger] row[k])@) by {
        assert(row[k] == logits[at + k]);
    }
    assert forall|k: int| 0 <= k < b implies #[trigger] row[k]@ != row[b]@ by {
        assert(row[k] == logits[at + k]);
    }
    law_first_greatest_wins(row, b);
}

/// The steps that are read are the fresh ones.
proof fn lemma_read_steps(logits: Seq<F32>, cls: int, t: int, best: Seq<int>, n: int)
    requires
        are_best(logits, cls, t, best),
        0 <= n <= t,
        t * cls <= logits.len(),
    ensures
        are_fresh(best.take(n), read_steps(logits, cls, n)),
    decreases n,
{
    if n > 0 {
        let ti = n - 1;
        lemma_read_steps(logits, cls, t, best, ti);
        assert(is_best(logits, cls, ti, best[ti]));
        lemma_best(logits, cls, t, ti, best[ti]);
        if ti > 0 {
            assert(is_best(logits, cls, ti - 1, best[ti - 1]));
            lemma_best(logits, cls, t, ti - 1, best[ti - 1]);
        }
        let (less, more) = (best.take(ti), best.take(n));
        let rest = read_steps(logits, cls, ti);
        let steps = read_steps(logits, cls, n);
        assert forall|k: int| 0 <= k < ti implies #[trigger] less[k] == more[k] by {}
        assert forall|i: int| 0 <= i < steps.len() implies 0 <= #[trigger] steps[i] < more.len()
            && more[steps[i]] != 0 && (steps[i] == 0 || more[steps[i]] != more[steps[i] - 1]) by {
            if i < rest.len() {
                assert(steps[i] == rest[i]);
            }
        }
        assert forall|i: int, j: int| 0 <= i < j < steps.len() implies #[trigger] steps[i]
            < #[trigger] steps[j] by {
            assert(steps[i] == rest[i]);
            if j < rest.len() {
                assert(steps[j] == rest[j]);
            }
        }
        assert forall|k: int|
            0 <= k < more.len() && #[trigger] more[k] != 0 && (k == 0 || more[k] != more[k
                - 1]) implies steps.contains(k) by {
            if k < ti {
                assert(less[k] == more[k]);
                assert(rest.contains(k));
                let i = choose|i: int| 0 <= i < rest.len() && rest[i] == k;
                assert(steps[i] == k);
            } else {
                assert(is_read(logits, cls, ti));
                assert(steps[steps.len() - 1] == k);
            }
        }
    }
}

/// The fresh steps are determined.
proof fn lemma_fresh_once(best: Seq<int>, a: Seq<int>, b: Seq<int>, n: int)
    requires
        are_fresh(best, a),
        are_fresh(best, b),
        0 <= n <= a.len(),
    ensures
        n <= b.len(),
        forall|i: int| 0 <= i < n ==> a[i] == #[trigger] b[i],
    decreases n,
{
    if n > 0 {
        lemma_fresh_once(best, a, b, n - 1);
        let k = n - 1;
        assert(best[a[k]] != 0);
        assert(b.contains(a[k]));
        let m = choose|m: int| 0 <= m < b.len() && b[m] == a[k];
        if m < k {
            assert(b[m] == a[m]);
            assert(a[m] < a[k]);
        }
        assert(k < b.len());
        if m > k {
            assert(b[k] < b[m]);
            assert(best[b[k]] != 0);
            assert(a.contains(b[k]));
            let q = choose|q: int| 0 <= q < a.len() && a[q] == b[k];
            if q < k {
                assert(b[q] == a[q]);
                assert(b[q] < b[k]);
            } else if q > k {
                assert(a[k] < a[q]);
            }
        }
    }
}

proof fn lemma_fresh_same(best: Seq<int>, a: Seq<int>, b: Seq<int>)
    requires
        are_fresh(best, a),
        are_fresh(best, b),
    ensures
        a == b,
{
    lemma_fresh_once(best, a, b, a.len() as int);
    lemma_fresh_once(best, b, a, b.len() as int);
    assert(a =~= b);
}

proof fn lemma_text(
    chars: Seq<String>,
    logits: Seq<F32>,
    cls: int,
    t: int,
    best: Seq<int>,
    steps: Seq<int>,
)
    requires
        are_best(logits, cls, t, best),
        t * cls <= logits.len(),
        forall|i: int| 0 <= i < steps.len() ==> 0 <= #[trigger] steps[i] < t,
    ensures
        text_of(chars, logits, cls, steps) == steps.map_values(
            |ti: int| chars[best[ti]]@,
        ).flatten(),
        (forall|i: int| 0 <= i < steps.len() ==> chars[best[#[trigger] steps[i]]]@.len() == 1)
            ==> text_of(chars, logits, cls, steps) == steps.map_values(
            |ti: int| chars[best[ti]]@[0],
        ),
    decreases steps.len(),
{
    let words = steps.map_values(|ti: int| chars[best[ti]]@);
    let letters = steps.map_values(|ti: int| chars[best[ti]]@[0]);
    words.lemma_flatten_and_flatten_alt_are_equivalent();
    if steps.len() > 0 {
        let rest = steps.drop_last();
        let ti = steps[steps.len() - 1];
        assert forall|i: int| 0 <= i < rest.len() implies 0 <= #[trigger] rest[i] < t by {
            assert(rest[i] == steps[i]);
        }
        lemma_text(chars, logits, cls, t, best, rest);
        assert(is_best(logits, cls, ti, best[ti]));
        lemma_best(logits, cls, t, ti, best[ti]);
        let fewer = rest.map_values(|ti: int| chars[best[ti]]@);
        fewer.lemma_flatten_and_flatten_alt_are_equivalent();
        assert(words.drop_last() =~= fewer);
        assert(words.last() == chars[best[ti]]@);
        if forall|i: int| 0 <= i < steps.len() ==> chars[best[#[trigger] steps[i]]]@.len() == 1 {
            assert forall|i: int| 0 <= i < rest.len() implies chars[best[#[trigger] rest[i]]]@.len()
                == 1 by {
                assert(rest[i] == steps[i]);
            }
            assert(chars[best[ti]]@.len() == 1);
            assert(rest.map_values(|ti: int| chars[best[ti]]@[0]) + chars[best[ti]]@ =~= letters);
        }
    } else {
        assert(words.flatten_alt() =~= Seq::<char>::empty());
        assert(letters =~= Seq::<char>::empty());
    }
}

/// The text is that of the likeliest classes of the steps, one after the other, without
/// blanks and without the class of the step before. Where every class has a text of one
/// character, the text has one character for each step that is read.
pub open spec fn is_text_of(
    text: Seq<char>,
    chars: Seq<String>,
    best: Seq<int>,
    steps: Seq<int>,
) -> bool {
    &&& text == steps.map_values(|ti: int| chars[best[ti]]@).flatten()
    &&& (forall|c: int| 0 <= c < chars.len() ==> (#[trigger] chars[c])@.len() == 1) && (forall|
        ti: int,
    |
        0 <= ti < best.len() ==> #[trigger] best[ti] < chars.len()) ==> text.len() == steps.len()
        && forall|k: int|
        0 <= k < steps.len() ==> #[trigger] text[k] == chars[best[steps[k]]]@[0]
}

proof fn lemma_decoded_text(
    chars: Seq<String>,
    all: Seq<F32>,
    t: int,
    n: int,
    best: Seq<int>,
    steps: Seq<int>,
)
    requires
        0 <= t,
        t * n <= all.len(),
        are_best(all, n, t, best),
        are_fresh(best, steps),
    ensures
        read_steps(all, n, t) == steps,
        is_text_of(text_of(chars, all, n, steps), chars, best, steps),
{
    lemma_read_steps(all, n, t, best, t);
    assert(best.take(t) =~= best);
    lemma_fresh_same(best, read_steps(all, n, t), steps);
    lemma_text(chars, all, n, t, best, steps);
    let text = text_of(chars, all, n, steps);
    if (forall|c: int| 0 <= c < chars.len() ==> (#[trigger] chars[c])@.len() == 1) && (forall|
        ti: int,
    |
        0 <= ti < best.len() ==> #[trigger] best[ti] < chars.len()) {
        assert forall|i: int| 0 <= i < steps.len() implies chars[best[#[trigger] steps[i]]]@.len()
            == 1 by {
            assert(is_best(all, n, steps[i], best[steps[i]]));
        }
        assert forall|k: int| 0 <= k < steps.len() implies #[trigger] text[k]
            == chars[best[steps[k]]]@[0] by {
            assert(steps.map_values(|ti: int| chars[best[ti]]@[0])[k]
                == chars[best[steps[k]]]@[0]);
        }
    }
}

/// The text of an output is that of the steps that are read.
pub proof fn law_text_is_that_of_the_read_steps(
    chars: &Vec<String>,
    logits: &[F32],
    t: usize,
    cls: usize,
    r: (String, F32),
    best: Seq<int>,
    steps: Seq<int>,
)
    requires
        t * cls <= logits@.len(),
        are_best(logits@, cls as int, t as int, best),
        are_fresh(best, steps),
        call_ensures(ctc_decode, (chars, logits, t, cls), r),
    ensures
        is_text_of(r.0@, chars@, best, steps),
{
    lemma_decoded_text(chars@, logits@, t as int, cls as int, best, steps);
}

/// Whether an output can be decoded: every class that is read is one of those with
/// a text.
pub proof fn law_every_read_class_needs_a_text(
    chars: usize,
    logits: &[F32],
    t: usize,
    cls: usize,
    r: bool,
    best: Seq<int>,
    steps: Seq<int>,
)
    requires
        t * cls <= logits@.len(),
        are_best(logits@, cls as int, t as int, best),
        are_fresh(best, steps),
        call_ensures(can_decode, (chars, logits, t, cls), r),
    ensures
        r <==> forall|k: int| 0 <= k < steps.len() ==> best[#[trigger] steps[k]] < chars,
{
    let (all, n) = (logits@, cls as int);
    assert forall|ti: int| 0 <= ti < t implies #[trigger] class(all, n, ti) == best[ti] by {
        assert(is_best(all, n, ti, best[ti]));
        lemma_best(all, n, t as int, ti, best[ti]);
    }
    if r {
        assert forall|k: int| 0 <= k < steps.len() implies best[#[trigger] steps[k]] < chars by {
            let ti = steps[k];
            assert(class(all, n, ti) == best[ti]);
            if ti > 0 {
                assert(class(all, n, ti - 1) == best[ti - 1]);
            }
            assert(is_read(all, n, ti));
        }
    }
    if forall|k: int| 0 <= k < steps.len() ==> best[#[trigger] steps[k]] < chars {
        assert forall|ti: int| 0 <= ti < t && #[trigger] is_read(all, n, ti) implies class(
            all,
            n,
            ti,
        ) < chars by {
            assert(class(all, n, ti) == best[ti]);
            if ti > 0 {
                assert(class(all, n, ti - 1) == best[ti - 1]);
            }
            assert(steps.contains(ti));
            let k = choose|k: int| 0 <= k < steps.len() && steps[k] == ti;
            assert(best[steps[k]] < chars);
        }
        assert(has_texts(chars as int, all, n, t as int));
    }
}

/// The numbers added up.
pub open spec fn total(xs: Seq<real>) -> real {
    xs.fold_left(0real, |sum: real, x: real| sum + x)
}

proof fn lemma_total(
    logits: Seq<F32>,
    cls: int,
    steps: Seq<int>,
    xs: Seq<real>,
    top: real,
) -> (s: real)
    requires
        xs.len() == steps.len() <= 0x10_0000,
        forall|k: int|
            0 <= k < steps.len() ==> peak_value(step(logits, cls, #[trigger] steps[k])) == Val::Fin(
                xs[k],
            ),
        forall|k: int| 0 <= k < xs.len() ==> -top <= #[trigger] xs[k] <= top,
        1real <= top <= 1024real,
    ensures
        sum_of(logits, cls, steps) == Val::Fin(s),
        -(xs.len() as real * top) <= total(xs) <= xs.len() as real * top,
        total(xs) - xs.len() as real * top / 0x4000_0000int as real <= s <= total(xs)
            + xs.len() as real * top / 0x4000_0000int as real,
    decreases steps.len(),
{
    if steps.len() == 0 {
        assert(0real * top == 0real) by (nonlinear_arith);
        0real
    } else {
        let n = steps.len() - 1;
        let (fewer, ys) = (steps.drop_last(), xs.drop_last());
        assert forall|k: int| 0 <= k < fewer.len() implies peak_value(
            step(logits, cls, #[trigger] fewer[k]),
        ) == Val::Fin(ys[k]) by {
            assert(fewer[k] == steps[k]);
        }
        assert forall|k: int| 0 <= k < ys.len() implies -top <= #[trigger] ys[k] <= top by {
            assert(ys[k] == xs[k]);
        }
        let s = lemma_total(logits, cls, fewer, ys, top);
        let x = xs[n];
        assert(total(xs) == total(ys) + x);
        assert(peak_value(step(logits, cls, steps[n])) == Val::Fin(x));
        let m = ys.len() as real;
        let most = m * top;
        assert(0real <= most <= 0x10_0000real * top && (m + 1real) * top == most + top)
            by (nonlinear_arith)
            requires
                0real <= m <= 0x10_0000real,
                top >= 1real,
                most == m * top,
        ;
        let y = bounds::lemma_double_error(s + x);
        assert(sum_of(logits, cls, steps) == Val::Fin(y));
        assert(xs.len() as real == m + 1real);
        y
    }
}

/// The score is the mean of the numbers `xs`, to within a millionth of the bound `top`;
/// without any it is zero.
pub open spec fn is_mean_of(score: Val, xs: Seq<real>, top: real) -> bool {
    if xs.len() == 0 {
        score == Val::Fin(0real)
    } else {
        score matches Val::Fin(y) && total(xs) / xs.len() as real - top / 1000000real <= y
            <= total(xs) / xs.len() as real + top / 1000000real
    }
}

/// `xs` are the numbers of the steps that are read, of which none is beyond `top`.
pub open spec fn are_numbers_of(
    xs: Seq<real>,
    top: real,
    logits: Seq<F32>,
    cls: int,
    best: Seq<int>,
    steps: Seq<int>,
) -> bool {
    &&& xs.len() == steps.len() <= 0x10_0000
    &&& forall|k: int|
        0 <= k < steps.len() ==> logits[#[trigger] steps[k] * cls + best[steps[k]]]@ == Val::Fin(
            xs[k],
        )
    &&& forall|k: int| 0 <= k < xs.len() ==> -top <= #[trigger] xs[k] <= top
    &&& 1real <= top <= 1024real
}

proof fn lemma_decoded_score(
    all: Seq<F32>,
    t: int,
    n: int,
    best: Seq<int>,
    steps: Seq<int>,
    xs: Seq<real>,
    top: real,
)
    requires
        0 <= t,
        t * n <= all.len(),
        are_best(all, n, t, best),
        are_fresh(best, steps),
        are_numbers_of(xs, top, all, n, best, steps),
    ensures
        is_mean_of(score_of(all, n, steps), xs, top),
{
    assert forall|k: int| 0 <= k < steps.len() implies peak_value(
        step(all, n, #[trigger] steps[k]),
    ) == Val::Fin(xs[k]) by {
        let ti = steps[k];
        assert(is_best(all, n, ti, best[ti]));
        lemma_best(all, n, t, ti, best[ti]);
    }
    let s = lemma_total(all, n, steps, xs, top);
    if steps.len() > 0 {
        let m = steps.len() as real;
        bounds::lemma_whole(Format::Double, steps.len() as int);
        assert(crate::detect::num(steps.len() as int) == Val::Fin(m));
        let (sum, e) = (total(xs), top / 0x4000_0000int as real);
        let (q, p) = (s / m, sum / m);
        assert(m * top / 0x4000_0000int as real == m * e) by (nonlinear_arith)
            requires
                e == top / 0x4000_0000int as real,
        ;
        assert(p - e <= q <= p + e && -top <= p <= top) by (nonlinear_arith)
            requires
                m >= 1real,
                q == s / m,
                p == sum / m,
                sum - m * e <= s <= sum + m * e,
                -(m * top) <= sum <= m * top,
        ;
        let d = bounds::lemma_double_error(q);
        let y = bounds::lemma_single_error(d);
        assert(score_of(all, n, steps) == Val::Fin(y));
    }
}

/// The score of an output is the mean of the numbers of the steps that are read.
pub proof fn law_score_is_the_mean(
    chars: &Vec<String>,
    logits: &[F32],
    t: usize,
    cls: usize,
    r: (String, F32),
    best: Seq<int>,
    steps: Seq<int>,
    xs: Seq<real>,
    top: real,
)
    requires
        t * cls <= logits@.len(),
        are_best(logits@, cls as int, t as int, best),
        are_fresh(best, steps),
        call_ensures(ctc_decode, (chars, logits, t, cls), r),
        are_numbers_of(xs, top, logits@, cls as int, best, steps),
    ensures
        is_mean_of(r.1@, xs, top),
{
    lemma_decoded_text(chars@, logits@, t as int, cls as int, best, steps);
    lemma_decoded_score(logits@, t as int, cls as int, best, steps, xs, top);
}

/// A batch is decoded crop by crop: text and score of crop `b` are those of its own
/// `t * cls` numbers.
pub proof fn law_batch_is_decoded_crop_by_crop(
    chars: &Vec<String>,
    preds: &[F32],
    n: usize,
    t: usize,
    cls: usize,
    out: Vec<(String, F32)>,
    b: int,
    own: Seq<F32>,
    best: Seq<int>,
    steps: Seq<int>,
    xs: Seq<real>,
    top: real,
)
    requires
        call_ensures(decode_batch, (chars, preds, n, t, cls), Some(out)),
        n * (t * cls) <= preds@.len(),
        0 <= b < n,
        own.len() == t * cls,
        forall|k: int| 0 <= k < own.len() ==> #[trigger] own[k] == preds@[b * (t * cls) + k],
        are_best(own, cls as int, t as int, best),
        are_fresh(best, steps),
        are_numbers_of(xs, top, own, cls as int, best, steps),
    ensures
        out@.len() == n,
        is_text_of(out@[b].0@, chars@, best, steps),
        is_mean_of(out@[b].1@, xs, top),
{
    let size = t * cls;
    assert(0 <= b * size && (b + 1) * size == b * size + size && (b + 1) * size <= n * size && size
        >= 0) by (nonlinear_arith)
        requires
            0 <= b < n,
            size == t * cls,
    ;
    assert(rows(preds@, b, size) =~= own);
    assert(is_decoded(out@[b], chars@, own, t as int, cls as int));
    lemma_decoded_text(chars@, own, t as int, cls as int, best, steps);
    lemma_decoded_score(own, t as int, cls as int, best, steps, xs, top);
}

} // verus!
