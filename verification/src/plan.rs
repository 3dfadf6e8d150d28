//! How the crops of a page are grouped and ordered for recognition.

use vstd::prelude::*;

verus! {

/// The indices of `keys` by ascending key, equal keys in their own order.
pub open spec fn is_stable_order(keys: Seq<u128>, order: Seq<usize>) -> bool {
    &&& order.len() == keys.len()
    &&& order.no_duplicates()
    &&& forall|i: int| 0 <= i < order.len() ==> (#[trigger] order[i]) < keys.len()
    &&& forall|j: usize| j < keys.len() ==> #[trigger] order.contains(j)
    &&& forall|i: int, j: int|
        0 <= i < j < order.len() ==> in_order(keys, #[trigger] order[i], #[trigger] order[j])
}

/// Index `a` comes before index `b`.
pub open spec fn in_order(keys: Seq<u128>, a: usize, b: usize) -> bool {
    keys[a as int] < keys[b as int] || (keys[a as int] == keys[b as int] && a < b)
}

/// Sorts the indices of `keys` by key, without changing the order of equals.
pub fn stable_order(keys: &Vec<u128>) -> (order: Vec<usize>)
    ensures
        is_stable_order(keys@, order@),
{
    let mut order: Vec<usize> = Vec::new();
    let n: usize = keys.len();
    let mut k: usize = 0;
    while k < n
        invariant
            n == keys@.len(),
            k <= n,
            order@.len() == k,
            order@.no_duplicates(),
            forall|i: int| 0 <= i < k ==> (#[trigger] order@[i]) < k,
            forall|j: usize| j < k ==> #[trigger] order@.contains(j),
            forall|i: int, j: int|
                0 <= i < j < k ==> in_order(keys@, #[trigger] order@[i], #[trigger] order@[j]),
        decreases n - k,
    {
        let mut pos: usize = k;
        while pos > 0 && keys[order[pos - 1]] > keys[k]
            invariant
                n == keys@.len(),
                k < n,
                pos <= k,
                order@.len() == k,
                forall|i: int| 0 <= i < k ==> (#[trigger] order@[i]) < k,
                forall|i: int|
                    pos <= i < k ==> keys@[#[trigger] order@[i] as int] > keys@[k as int],
            decreases pos,
        {
            pos = pos - 1;
        }
        let ghost before = order@;
        proof {
            if pos > 0 {
                assert(keys@[before[pos - 1] as int] <= keys@[k as int]);
            }
            assert forall|i: int| 0 <= i < pos implies keys@[#[trigger] before[i] as int]
                <= keys@[k as int] by {
                if i < pos - 1 {
                    assert(in_order(keys@, before[i], before[pos - 1]));
                }
            }
        }
        order.insert(pos, k);
        proof {
            assert(order@ == before.insert(pos as int, k));
            assert forall|i: int, j: int| 0 <= i < j < k + 1 implies in_order(
                keys@,
                #[trigger] order@[i],
                #[trigger] order@[j],
            ) by {
                let a = if i < pos {
                    i
                } else {
                    i - 1
                };
                let b = if j < pos {
                    j
                } else {
                    j - 1
                };
                if i != pos && j != pos {
                    assert(in_order(keys@, before[a], before[b]));
                } else if i == pos {
                    assert(order@[j] == before[b]);
                } else {
                    assert(order@[i] == before[a]);
                }
            }
            assert forall|j: usize| j < k + 1 implies #[trigger] order@.contains(j) by {
                if j == k {
                    assert(order@[pos as int] == k);
                } else {
                    assert(before.contains(j));
                    let i = choose|i: int| 0 <= i < before.len() && before[i] == j;
                    if i < pos {
                        assert(order@[i] == j);
                    } else {
                        assert(order@[i + 1] == j);
                    }
                }
            }
            assert forall|i: int| 0 <= i < k + 1 implies (#[trigger] order@[i]) < k + 1 by {
                if i < pos {
                    assert(order@[i] == before[i]);
                } else if i > pos {
                    assert(order@[i] == before[i - 1]);
                }
            }
            assert(order@.no_duplicates()) by {
                assert forall|i: int, j: int| 0 <= i < j < order@.len() implies order@[i]
                    != order@[j] by {
                    assert(in_order(keys@, order@[i], order@[j]));
                }
            }
        }
        k = k + 1;
    }
    order
}

/// The sequences put one after the other.
pub open spec fn joined(parts: Seq<Seq<usize>>) -> Seq<usize>
    decreases parts.len(),
{
    if parts.len() == 0 {
        Seq::empty()
    } else {
        joined(parts.drop_last()) + parts.last()
    }
}

pub open spec fn views(parts: Seq<Vec<usize>>) -> Seq<Seq<usize>> {
    parts.map_values(|p: Vec<usize>| p@)
}

/// The greatest width of a crop of the batch.
pub open spec fn widest(batch: Seq<usize>, widths: Seq<usize>) -> int
    decreases batch.len(),
{
    if batch.len() == 0 {
        0
    } else {
        let rest = widest(batch.drop_last(), widths);
        let w = widths[batch.last() as int] as int;
        if w > rest {
            w
        } else {
            rest
        }
    }
}

/// A batch of more than one crop keeps to the budget, padding counted, and to
/// the cap.
pub open spec fn fits(batch: Seq<usize>, widths: Seq<usize>, budget: int, cap: int) -> bool {
    batch.len() == 1 || (batch.len() * widest(batch, widths) <= budget && batch.len() <= cap)
}

/// With the crop `next` the batch would break the budget or the cap.
pub open spec fn is_full(
    batch: Seq<usize>,
    next: usize,
    widths: Seq<usize>,
    budget: int,
    cap: int,
) -> bool {
    (batch.len() + 1) * widest(batch.push(next), widths) > budget || batch.len() >= cap
}

/// The batches are the crops in the given order, each batch as long as it can be.
pub open spec fn is_plan(
    batches: Seq<Seq<usize>>,
    order: Seq<usize>,
    widths: Seq<usize>,
    budget: int,
    cap: int,
) -> bool {
    &&& joined(batches) == order
    &&& forall|i: int|
        0 <= i < batches.len() ==> (#[trigger] batches[i]).len() > 0 && fits(
            batches[i],
            widths,
            budget,
            cap,
        )
    &&& forall|i: int, j: int|
        0 <= i && j == i + 1 && j < batches.len() ==> is_full(
            #[trigger] batches[i],
            (#[trigger] batches[j])[0],
            widths,
            budget,
            cap,
        )
}

proof fn lemma_widest_push(batch: Seq<usize>, next: usize, widths: Seq<usize>)
    ensures
        widest(batch.push(next), widths) == if widths[next as int] > widest(batch, widths) {
            widths[next as int] as int
        } else {
            widest(batch, widths)
        },
{
    assert(batch.push(next).drop_last() =~= batch);
}

proof fn lemma_joined_push(parts: Seq<Seq<usize>>, last: Seq<usize>)
    ensures
        joined(parts.push(last)) == joined(parts) + last,
{
    assert(parts.push(last).drop_last() =~= parts);
}

/// Groups `order` (crop indices, by ascending width) into batches, so that the
/// count of a batch times its greatest width keeps to `budget`, with at most
/// `max_count` crops in a batch. A crop that is too wide stands alone.
pub fn plan_rec_batches(
    order: &Vec<usize>,
    rec_widths: &Vec<usize>,
    budget: usize,
    max_count: usize,
) -> (batches: Vec<Vec<usize>>)
    requires
        forall|i: int| 0 <= i < order@.len() ==> (#[trigger] order@[i]) < rec_widths@.len(),
    ensures
        is_plan(views(batches@), order@, rec_widths@, budget as int, max_count as int),
{
    let ghost widths = rec_widths@;
    let mut batches: Vec<Vec<usize>> = Vec::new();
    let mut cur: Vec<usize> = Vec::new();
    let mut cur_max: usize = 0;
    let mut k: usize = 0;
    proof {
        assert(views(batches@) =~= Seq::<Seq<usize>>::empty());
        assert(order@.take(0) =~= joined(views(batches@)) + cur@);
    }
    while k < order.len()
        invariant
            k <= order@.len(),
            widths == rec_widths@,
            forall|i: int| 0 <= i < order@.len() ==> (#[trigger] order@[i]) < widths.len(),
            joined(views(batches@)) + cur@ == order@.take(k as int),
            k > 0 ==> cur@.len() > 0,
            k == 0 ==> batches@.len() == 0,
            cur_max == widest(cur@, widths),
            cur@.len() > 0 ==> fits(cur@, widths, budget as int, max_count as int),
            forall|i: int|
                0 <= i < batches@.len() ==> (#[trigger] views(batches@)[i]).len() > 0 && fits(
                    views(batches@)[i],
                    widths,
                    budget as int,
                    max_count as int,
                ),
            forall|i: int, j: int|
                0 <= i && j == i + 1 && j < batches@.len() ==> is_full(
                    #[trigger] views(batches@)[i],
                    (#[trigger] views(batches@)[j])[0],
                    widths,
                    budget as int,
                    max_count as int,
                ),
            batches@.len() > 0 && cur@.len() > 0 ==> is_full(
                views(batches@)[batches@.len() - 1],
                cur@[0],
                widths,
                budget as int,
                max_count as int,
            ),
        decreases order@.len() - k,
    {
        let idx: usize = order[k];
        let w: usize = rec_widths[idx];
        let new_max: usize = if cur_max > w {
            cur_max
        } else {
            w
        };
        let count: usize = cur.len();
        proof {
            lemma_widest_push(cur@, idx, widths);
            assert(0 <= (count + 1) * new_max <= 0x1_0000_0000_0000_0000 * 0xffff_ffff_ffff_ffff)
                by (nonlinear_arith)
                requires
                    0 <= count <= 0xffff_ffff_ffff_ffff,
                    0 <= new_max <= 0xffff_ffff_ffff_ffff,
            ;
        }
        let load: u128 = (count as u128 + 1) * (new_max as u128);
        let ghost done = views(batches@);
        let ghost prefix = order@.take(k as int);
        if count > 0 && (load > budget as u128 || count >= max_count) {
            let ghost closed = cur@;
            batches.push(cur);
            proof {
                assert(views(batches@) =~= done.push(closed));
                lemma_joined_push(done, closed);
            }
            cur = Vec::new();
            cur_max = 0;
            proof {
                assert(joined(views(batches@)) + cur@ =~= prefix);
            }
        }
        let ghost kept = cur@;
        proof {
            lemma_widest_push(kept, idx, widths);
        }
        if w > cur_max {
            cur_max = w;
        }
        cur.push(idx);
        proof {
            assert(order@.take(k + 1) =~= prefix.push(idx));
            assert(joined(views(batches@)) + cur@ =~= (joined(views(batches@)) + kept).push(idx));
            if kept.len() > 0 {
                assert(cur@[0] == kept[0]);
            }
        }
        k = k + 1;
    }
    let ghost done = views(batches@);
    proof {
        assert(order@.take(k as int) =~= order@);
    }
    if cur.len() > 0 {
        let ghost closed = cur@;
        batches.push(cur);
        proof {
            assert(views(batches@) =~= done.push(closed));
            lemma_joined_push(done, closed);
        }
    } else {
        assert(joined(done) + cur@ =~= joined(done));
    }
    batches
}

/// What it takes to read a batch: its crops at the width of the last one.
pub open spec fn cost(batch: Seq<usize>, widths: Seq<usize>) -> int {
    batch.len() * widths[batch.last() as int]
}

/// The batches by falling cost, equal ones in their own order.
pub open spec fn is_job_order(
    jobs: Seq<usize>,
    batches: Seq<Seq<usize>>,
    widths: Seq<usize>,
) -> bool {
    &&& jobs.len() == batches.len()
    &&& jobs.no_duplicates()
    &&& forall|i: int| 0 <= i < jobs.len() ==> (#[trigger] jobs[i]) < batches.len()
    &&& forall|b: usize| b < batches.len() ==> #[trigger] jobs.contains(b)
    &&& forall|i: int, j: int|
        0 <= i < j < jobs.len() ==> costlier(
            #[trigger] jobs[i],
            #[trigger] jobs[j],
            batches,
            widths,
        )
}

/// Batch `a` is to be started before batch `b`.
pub open spec fn costlier(
    a: usize,
    b: usize,
    batches: Seq<Seq<usize>>,
    widths: Seq<usize>,
) -> bool {
    let (x, y) = (cost(batches[a as int], widths), cost(batches[b as int], widths));
    x > y || (x == y && a < b)
}

/// Number of classes of the small recognizer, whose dictionary is shorter.
pub const SMALL_CLASSES: usize = 6906;

/// The width from which on a batch counts as wide.
pub open spec fn wide_from(classes: int) -> int {
    if classes <= SMALL_CLASSES {
        2048
    } else {
        1024
    }
}

/// The batches go to the workers for wide ones: there is one for each batch, and
/// all are wide.
pub open spec fn goes_wide(
    batches: Seq<Seq<usize>>,
    widths: Seq<usize>,
    wide_workers: int,
    classes: int,
) -> bool {
    &&& batches.len() <= wide_workers
    &&& forall|i: int|
        0 <= i < batches.len() ==> widths[(#[trigger] batches[i]).last() as int] >= wide_from(
            classes,
        )
}

/// How a set of crops is to be read.
pub struct RecPlan {
    /// The crops of each batch.
    pub batches: Vec<Vec<usize>>,
    /// The batches in the order in which they are to be started.
    pub jobs: Vec<usize>,
    /// Whether the workers for wide batches read them.
    pub wide: bool,
}

/// The widths as keys to sort by.
pub open spec fn keys_of(widths: Seq<usize>) -> Seq<u128> {
    widths.map_values(|w: usize| w as u128)
}

impl RecPlan {
    /// The plan for crops of these widths: the narrower ones first, in batches
    /// within the budget and the cap, and the costliest batch started first.
    pub open spec fn is_for(
        &self,
        widths: Seq<usize>,
        budget: int,
        cap: int,
        wide_workers: int,
        classes: int,
    ) -> bool {
        let batches = views(self.batches@);
        &&& exists|order: Seq<usize>| #[trigger]
            is_stable_order(keys_of(widths), order) && is_plan(
                batches,
                order,
                widths,
                budget,
                cap,
            )
        &&& is_job_order(self.jobs@, batches, widths)
        &&& self.wide == goes_wide(batches, widths, wide_workers, classes)
    }
}

fn width_keys(widths: &Vec<usize>) -> (r: Vec<u128>)
    ensures
        r@ == keys_of(widths@),
{
    let mut out: Vec<u128> = Vec::new();
    let mut i: usize = 0;
    while i < widths.len()
        invariant
            i <= widths@.len(),
            out@.len() == i,
            forall|k: int| 0 <= k < i ==> #[trigger] out@[k] == widths@[k] as u128,
        decreases widths@.len() - i,
    {
        out.push(widths[i] as u128);
        i = i + 1;
    }
    proof {
        assert(out@ =~= keys_of(widths@));
    }
    out
}

/// The batches in the order in which they are to be started.
fn order_jobs(batches: &Vec<Vec<usize>>, widths: &Vec<usize>) -> (jobs: Vec<usize>)
    requires
        forall|b: int, k: int|
            0 <= b < batches@.len() && 0 <= k < batches@[b]@.len() ==> (#[trigger] batches@[b]@[k])
                < widths@.len(),
        forall|b: int| 0 <= b < batches@.len() ==> (#[trigger] batches@[b])@.len() > 0,
    ensures
        is_job_order(jobs@, views(batches@), widths@),
{
    let ghost parts = views(batches@);
    let mut keys: Vec<u128> = Vec::new();
    let mut i: usize = 0;
    while i < batches.len()
        invariant
            i <= batches@.len(),
            parts == views(batches@),
            keys@.len() == i,
            forall|b: int, k: int|
                0 <= b < batches@.len() && 0 <= k < batches@[b]@.len() ==> (
                #[trigger] batches@[b]@[k]) < widths@.len(),
            forall|b: int| 0 <= b < batches@.len() ==> (#[trigger] batches@[b])@.len() > 0,
            forall|b: int|
                0 <= b < i ==> #[trigger] keys@[b] == u128::MAX - cost(parts[b], widths@),
        decreases batches@.len() - i,
    {
        let batch: &Vec<usize> = &batches[i];
        let n: usize = batch.len();
        let w: usize = widths[batch[n - 1]];
        proof {
            assert(parts[i as int] == batch@);
            assert(0 <= n * w <= 0xffff_ffff_ffff_ffff * 0xffff_ffff_ffff_ffff)
                by (nonlinear_arith)
                requires
                    0 <= n <= 0xffff_ffff_ffff_ffff,
                    0 <= w <= 0xffff_ffff_ffff_ffff,
            ;
        }
        keys.push(u128::MAX - (n as u128) * (w as u128));
        i = i + 1;
    }
    let jobs: Vec<usize> = stable_order(&keys);
    proof {
        assert forall|i: int, j: int| 0 <= i < j < jobs@.len() implies costlier(
            #[trigger] jobs@[i],
            #[trigger] jobs@[j],
            parts,
            widths@,
        ) by {
            assert(in_order(keys@, jobs@[i], jobs@[j]));
            assert(keys@[jobs@[i] as int] == u128::MAX - cost(parts[jobs@[i] as int], widths@));
            assert(keys@[jobs@[j] as int] == u128::MAX - cost(parts[jobs@[j] as int], widths@));
        }
    }
    jobs
}

fn all_wide(batches: &Vec<Vec<usize>>, widths: &Vec<usize>, least: usize) -> (r: bool)
    requires
        forall|b: int, k: int|
            0 <= b < batches@.len() && 0 <= k < batches@[b]@.len() ==> (#[trigger] batches@[b]@[k])
                < widths@.len(),
        forall|b: int| 0 <= b < batches@.len() ==> (#[trigger] batches@[b])@.len() > 0,
    ensures
        r == forall|i: int|
            0 <= i < batches@.len() ==> widths@[(#[trigger] views(batches@)[i]).last() as int]
                >= least,
{
    let ghost parts = views(batches@);
    let mut i: usize = 0;
    while i < batches.len()
        invariant
            i <= batches@.len(),
            parts == views(batches@),
            forall|b: int, k: int|
                0 <= b < batches@.len() && 0 <= k < batches@[b]@.len() ==> (
                #[trigger] batches@[b]@[k]) < widths@.len(),
            forall|b: int| 0 <= b < batches@.len() ==> (#[trigger] batches@[b])@.len() > 0,
            forall|k: int| 0 <= k < i ==> widths@[(#[trigger] parts[k]).last() as int] >= least,
        decreases batches@.len() - i,
    {
        let batch: &Vec<usize> = &batches[i];
        let n: usize = batch.len();
        assert(parts[i as int] == batch@);
        if widths[batch[n - 1]] < least {
            return false;
        }
        i = i + 1;
    }
    true
}

/// Plans the reading of crops of the given widths.
pub fn plan_recognition(
    widths: &Vec<usize>,
    budget: usize,
    cap: usize,
    wide_workers: usize,
    classes: usize,
) -> (r: RecPlan)
    ensures
        r.is_for(
            widths@,
            budget as int,
            cap as int,
            wide_workers as int,
            classes as int,
        ),
{
    let order: Vec<usize> = stable_order(&width_keys(widths));
    let batches: Vec<Vec<usize>> = plan_rec_batches(&order, widths, budget, cap);
    let ghost parts = views(batches@);
    proof {
        law_batches_hold_every_crop_once(
            parts,
            keys_of(widths@),
            order@,
            widths@,
            budget as int,
            cap as int,
        );
        assert forall|b: int, k: int|
            0 <= b < batches@.len() && 0 <= k < batches@[b]@.len() implies (
        #[trigger] batches@[b]@[k]) < widths@.len() by {
            assert(parts[b][k] == batches@[b]@[k]);
        }
        assert forall|b: int| 0 <= b < batches@.len() implies (#[trigger] batches@[b])@.len()
            > 0 by {
            assert(parts[b] == batches@[b]@);
        }
    }
    let jobs: Vec<usize> = order_jobs(&batches, widths);
    let least: usize = if classes <= SMALL_CLASSES {
        2048
    } else {
        1024
    };
    let wide: bool = jobs.len() <= wide_workers && all_wide(&batches, widths, least);
    RecPlan { batches, jobs, wide }
}

// ---- laws ----

proof fn lemma_joined_front(parts: Seq<Seq<usize>>)
    requires
        parts.len() > 0,
    ensures
        joined(parts) == parts[0] + joined(parts.skip(1)),
    decreases parts.len(),
{
    if parts.len() == 1 {
        assert(parts.drop_last() =~= Seq::<Seq<usize>>::empty());
        assert(parts.skip(1) =~= Seq::<Seq<usize>>::empty());
        assert(joined(parts) =~= parts[0] + joined(parts.skip(1)));
    } else {
        let front = parts.drop_last();
        lemma_joined_front(front);
        assert(parts.skip(1).drop_last() =~= front.skip(1));
        assert(joined(parts) =~= parts[0] + joined(parts.skip(1)));
    }
}

proof fn lemma_widest_grows(a: Seq<usize>, n: int, widths: Seq<usize>)
    requires
        0 <= n <= a.len(),
    ensures
        0 <= widest(a.take(n), widths) <= widest(a, widths),
    decreases a.len(),
{
    if n == a.len() {
        assert(a.take(n) =~= a);
        if n > 0 {
            lemma_widest_grows(a.drop_last(), n - 1, widths);
        }
    } else {
        lemma_widest_grows(a.drop_last(), n, widths);
        assert(a.drop_last().take(n) =~= a.take(n));
    }
}

/// Of two plans for the same crops, the first batch of the one is not shorter
/// than the first batch of the other.
proof fn lemma_first_batch(
    a: Seq<Seq<usize>>,
    b: Seq<Seq<usize>>,
    order: Seq<usize>,
    widths: Seq<usize>,
    budget: int,
    cap: int,
)
    requires
        is_plan(a, order, widths, budget, cap),
        is_plan(b, order, widths, budget, cap),
        a.len() > 0,
        b.len() > 0,
    ensures
        a[0].len() >= b[0].len(),
{
    if a[0].len() < b[0].len() {
        let n = a[0].len() as int;
        lemma_joined_front(a);
        lemma_joined_front(b);
        assert(order[n] == b[0][n]);
        assert(a[0] =~= order.take(n));
        assert(b[0].take(n) =~= order.take(n));
        if a.len() == 1 {
            assert(a.skip(1) =~= Seq::<Seq<usize>>::empty());
            assert(order.len() == n);
        } else {
            let rest = a.skip(1);
            lemma_joined_front(rest);
            assert(rest[0] == a[1]);
            assert(a[1].len() > 0);
            assert(order[n] == a[1][0]);
            assert(is_full(a[0], a[1][0], widths, budget, cap));
            assert(a[0].push(a[1][0]) =~= b[0].take(n + 1));
            lemma_widest_grows(b[0], n + 1, widths);
            let (lo, hi) = (widest(b[0].take(n + 1), widths), widest(b[0], widths));
            assert((n + 1) * lo <= b[0].len() * hi) by (nonlinear_arith)
                requires
                    0 <= lo <= hi,
                    0 < n + 1 <= b[0].len(),
            ;
        }
    }
}

proof fn lemma_plan_tail(
    a: Seq<Seq<usize>>,
    order: Seq<usize>,
    widths: Seq<usize>,
    budget: int,
    cap: int,
)
    requires
        is_plan(a, order, widths, budget, cap),
        a.len() > 0,
    ensures
        a[0].len() <= order.len(),
        a[0] == order.take(a[0].len() as int),
        is_plan(a.skip(1), order.skip(a[0].len() as int), widths, budget, cap),
{
    lemma_joined_front(a);
    let n = a[0].len() as int;
    assert(order.take(n) =~= a[0]);
    assert(order.skip(n) =~= joined(a.skip(1)));
    let t = a.skip(1);
    assert forall|i: int| 0 <= i < t.len() implies (#[trigger] t[i]).len() > 0 && fits(
        t[i],
        widths,
        budget,
        cap,
    ) by {
        assert(t[i] == a[i + 1]);
    }
    assert forall|i: int, j: int| 0 <= i && j == i + 1 && j < t.len() implies is_full(
        #[trigger] t[i],
        (#[trigger] t[j])[0],
        widths,
        budget,
        cap,
    ) by {
        assert(t[i] == a[i + 1] && t[j] == a[j + 1]);
    }
}

/// There is one plan only: what a plan is leaves no choice.
pub proof fn law_plan_is_unique(
    a: Seq<Seq<usize>>,
    b: Seq<Seq<usize>>,
    order: Seq<usize>,
    widths: Seq<usize>,
    budget: int,
    cap: int,
)
    requires
        is_plan(a, order, widths, budget, cap),
        is_plan(b, order, widths, budget, cap),
    ensures
        a == b,
    decreases a.len(),
{
    if a.len() == 0 || b.len() == 0 {
        if a.len() > 0 {
            lemma_joined_front(a);
            assert(a[0].len() > 0);
            assert(joined(b).len() == 0);
            assert(joined(a).len() >= a[0].len());
        }
        if b.len() > 0 {
            lemma_joined_front(b);
            assert(b[0].len() > 0);
            assert(joined(a).len() == 0);
            assert(joined(b).len() >= b[0].len());
        }
        assert(a.len() == 0 && b.len() == 0);
        assert(a =~= b);
    } else {
        lemma_first_batch(a, b, order, widths, budget, cap);
        lemma_first_batch(b, a, order, widths, budget, cap);
        lemma_plan_tail(a, order, widths, budget, cap);
        lemma_plan_tail(b, order, widths, budget, cap);
        law_plan_is_unique(
            a.skip(1),
            b.skip(1),
            order.skip(a[0].len() as int),
            widths,
            budget,
            cap,
        );
        assert(a =~= seq![a[0]] + a.skip(1));
        assert(b =~= seq![b[0]] + b.skip(1));
    }
}

/// Where crop `k` of batch `b` stands among all crops of the batches.
pub open spec fn place(parts: Seq<Seq<usize>>, b: int, k: int) -> int {
    joined(parts.take(b)).len() + k
}

proof fn lemma_place(parts: Seq<Seq<usize>>, b: int, k: int)
    requires
        0 <= b < parts.len(),
        0 <= k < parts[b].len(),
    ensures
        0 <= place(parts, b, k) < joined(parts).len(),
        joined(parts)[place(parts, b, k)] == parts[b][k],
    decreases parts.len(),
{
    if b == parts.len() - 1 {
        assert(parts.take(b) =~= parts.drop_last());
    } else {
        let front = parts.drop_last();
        lemma_place(front, b, k);
        assert(front.take(b) =~= parts.take(b));
    }
}

proof fn lemma_place_found(parts: Seq<Seq<usize>>, at: int) -> (r: (int, int))
    requires
        0 <= at < joined(parts).len(),
    ensures
        0 <= r.0 < parts.len(),
        0 <= r.1 < parts[r.0].len(),
        parts[r.0][r.1] == joined(parts)[at],
    decreases parts.len(),
{
    let front = parts.drop_last();
    if at < joined(front).len() {
        let r = lemma_place_found(front, at);
        assert(front[r.0] == parts[r.0]);
        r
    } else {
        (parts.len() - 1, at - joined(front).len())
    }
}

proof fn lemma_place_injective(parts: Seq<Seq<usize>>, b: int, k: int, c: int, m: int)
    requires
        0 <= b < c < parts.len(),
        0 <= k < parts[b].len(),
        0 <= m < parts[c].len(),
    ensures
        place(parts, b, k) < place(parts, c, m),
{
    let front = parts.take(c);
    lemma_place(front, b, k);
    assert(front.take(b) =~= parts.take(b));
    assert(front[b] == parts[b]);
}

/// Some batch holds the crop.
pub open spec fn is_held(batches: Seq<Seq<usize>>, j: usize) -> bool {
    exists|b: int, k: int|
        0 <= b < batches.len() && 0 <= k < batches[b].len() && #[trigger] batches[b][k] == j
}

/// Every crop is in exactly one place of the batches.
pub proof fn law_batches_hold_every_crop_once(
    batches: Seq<Seq<usize>>,
    keys: Seq<u128>,
    order: Seq<usize>,
    widths: Seq<usize>,
    budget: int,
    cap: int,
)
    requires
        is_stable_order(keys, order),
        is_plan(batches, order, widths, budget, cap),
    ensures
        forall|j: usize| j < keys.len() ==> #[trigger] is_held(batches, j),
        forall|b: int, k: int, c: int, m: int|
            0 <= b < batches.len() && 0 <= k < batches[b].len() && 0 <= c < batches.len() && 0 <= m
                < batches[c].len() && #[trigger] batches[b][k] == #[trigger] batches[c][m] ==> b
                == c && k == m,
        forall|b: int, k: int|
            0 <= b < batches.len() && 0 <= k < batches[b].len() ==> (#[trigger] batches[b][k])
                < keys.len(),
{
    assert forall|j: usize| j < keys.len() implies #[trigger] is_held(batches, j) by {
        assert(order.contains(j));
        let at = choose|at: int| 0 <= at < order.len() && order[at] == j;
        let r = lemma_place_found(batches, at);
        assert(batches[r.0][r.1] == j);
    }
    assert forall|b: int, k: int, c: int, m: int|
        0 <= b < batches.len() && 0 <= k < batches[b].len() && 0 <= c < batches.len() && 0 <= m
            < batches[c].len() && #[trigger] batches[b][k] == #[trigger] batches[c][m] implies b
        == c && k == m by {
        lemma_place(batches, b, k);
        lemma_place(batches, c, m);
        if b < c {
            lemma_place_injective(batches, b, k, c, m);
        } else if c < b {
            lemma_place_injective(batches, c, m, b, k);
        }
    }
    assert forall|b: int, k: int|
        0 <= b < batches.len() && 0 <= k < batches[b].len() implies (#[trigger] batches[b][k])
        < keys.len() by {
        lemma_place(batches, b, k);
        assert(order[place(batches, b, k)] == batches[b][k]);
    }
}

proof fn lemma_rising_widest(batch: Seq<usize>, widths: Seq<usize>)
    requires
        batch.len() > 0,
        forall|i: int, j: int|
            0 <= i <= j < batch.len() ==> widths[#[trigger] batch[i] as int]
                <= widths[#[trigger] batch[j] as int],
    ensures
        widest(batch, widths) == widths[batch.last() as int],
    decreases batch.len(),
{
    let rest = batch.drop_last();
    if rest.len() > 0 {
        assert forall|i: int, j: int| 0 <= i <= j < rest.len() implies widths[#[trigger] rest[i] as int]
            <= widths[#[trigger] rest[j] as int] by {
            assert(rest[i] == batch[i] && rest[j] == batch[j]);
        }
        lemma_rising_widest(rest, widths);
        assert(rest.last() == batch[batch.len() - 2]);
        assert(widths[batch[batch.len() - 2] as int] <= widths[batch[batch.len() - 1] as int]);
    } else {
        assert(widest(rest, widths) == 0);
    }
}

/// The last crop of a batch is its widest: the cost of a batch is its count
/// times the width at which it is read.
pub proof fn law_last_crop_is_widest(
    batches: Seq<Seq<usize>>,
    order: Seq<usize>,
    widths: Seq<usize>,
    budget: int,
    cap: int,
    b: int,
)
    requires
        is_stable_order(keys_of(widths), order),
        is_plan(batches, order, widths, budget, cap),
        0 <= b < batches.len(),
    ensures
        widest(batches[b], widths) == widths[batches[b].last() as int],
        cost(batches[b], widths) == batches[b].len() * widest(batches[b], widths),
{
    let batch = batches[b];
    assert(batch.len() > 0);
    assert forall|i: int, j: int| 0 <= i <= j < batch.len() implies widths[#[trigger] batch[i] as int]
        <= widths[#[trigger] batch[j] as int] by {
        lemma_place(batches, b, i);
        lemma_place(batches, b, j);
        let (p, q) = (place(batches, b, i), place(batches, b, j));
        assert(order[p] < widths.len() && order[q] < widths.len());
        if p < q {
            assert(in_order(keys_of(widths), order[p], order[q]));
        }
    }
    lemma_rising_widest(batch, widths);
}

/// The batches hold each of the crops once, the narrower ones first and those of one
/// width in their own order.
pub open spec fn are_all_crops(batches: Seq<Seq<usize>>, widths: Seq<usize>) -> bool {
    &&& forall|b: int, k: int|
        0 <= b < batches.len() && 0 <= k < batches[b].len() ==> (#[trigger] batches[b][k])
            < widths.len()
    &&& forall|j: usize| j < widths.len() ==> #[trigger] is_held(batches, j)
    &&& forall|b: int, k: int, c: int, m: int|
        0 <= b < batches.len() && 0 <= k < batches[b].len() && 0 <= c < batches.len() && 0 <= m
            < batches[c].len() && (b < c || (b == c && k < m)) ==> is_narrower(
            widths,
            #[trigger] batches[b][k],
            #[trigger] batches[c][m],
        )
}

pub open spec fn is_narrower(widths: Seq<usize>, a: usize, b: usize) -> bool {
    widths[a as int] < widths[b as int] || (widths[a as int] == widths[b as int] && a < b)
}

/// Batch `b` is as long as it can be: it is one crop, or its crops at the width of any
/// of them keep to the budget and their number to the cap; and the first crop of the
/// next batch has no place in it.
pub open spec fn is_filled_up(
    batches: Seq<Seq<usize>>,
    widths: Seq<usize>,
    budget: int,
    cap: int,
    b: int,
) -> bool {
    let n = batches[b].len();
    &&& n > 0
    &&& n == 1 || (n <= cap && forall|k: int|
        0 <= k < n ==> n * widths[#[trigger] batches[b][k] as int] <= budget)
    &&& b + 1 < batches.len() ==> n >= cap || (n + 1) * widths[batches[b + 1][0] as int] > budget
}

/// The batches are started by falling cost: their number of crops times the width of
/// the last one. Equal ones are started in their own order.
pub open spec fn are_by_cost(jobs: Seq<usize>, batches: Seq<Seq<usize>>, widths: Seq<usize>) -> bool {
    &&& jobs.len() == batches.len()
    &&& forall|b: usize| b < batches.len() ==> #[trigger] jobs.contains(b)
    &&& forall|i: int| 0 <= i < jobs.len() ==> (#[trigger] jobs[i]) < batches.len()
    &&& forall|i: int, j: int|
        0 <= i < j < jobs.len() ==> {
            let (a, b) = (batches[#[trigger] jobs[i] as int], batches[#[trigger] jobs[j] as int]);
            let x = a.len() * widths[a[a.len() - 1] as int];
            let y = b.len() * widths[b[b.len() - 1] as int];
            x > y || (x == y && jobs[i] < jobs[j])
        }
}

proof fn lemma_below_widest(batch: Seq<usize>, widths: Seq<usize>)
    ensures
        forall|k: int|
            0 <= k < batch.len() ==> widths[#[trigger] batch[k] as int] <= widest(batch, widths),
    decreases batch.len(),
{
    if batch.len() > 0 {
        let rest = batch.drop_last();
        lemma_below_widest(rest, widths);
        assert forall|k: int| 0 <= k < batch.len() implies widths[#[trigger] batch[k] as int]
            <= widest(batch, widths) by {
            if k < rest.len() {
                assert(rest[k] == batch[k]);
            }
        }
    }
}

proof fn lemma_filled_up(
    batches: Seq<Seq<usize>>,
    order: Seq<usize>,
    widths: Seq<usize>,
    budget: int,
    cap: int,
    b: int,
)
    requires
        is_stable_order(keys_of(widths), order),
        is_plan(batches, order, widths, budget, cap),
        are_all_crops(batches, widths),
        0 <= b < batches.len(),
    ensures
        is_filled_up(batches, widths, budget, cap, b),
{
    let batch = batches[b];
    let n = batch.len();
    assert(n > 0 && fits(batch, widths, budget, cap));
    lemma_below_widest(batch, widths);
    assert forall|k: int| 0 <= k < n && n > 1 implies n * widths[#[trigger] batch[k] as int]
        <= budget by {
        let (w, top) = (widths[batch[k] as int] as int, widest(batch, widths));
        assert(n * w <= n * top) by (nonlinear_arith)
            requires
                w <= top,
                n >= 0,
        ;
    }
    if b + 1 < batches.len() {
        let c = b + 1;
        let next = batches[c][0];
        assert(batches[c].len() > 0);
        assert(is_full(batches[b], batches[c][0], widths, budget, cap));
        law_last_crop_is_widest(batches, order, widths, budget, cap, b);
        assert(is_narrower(widths, batches[b][n - 1], batches[c][0]));
        lemma_widest_push(batch, next, widths);
        assert(widest(batch.push(next), widths) == widths[next as int]);
    }
}

/// How crops of these widths are read: each of them once, the narrower ones first, in
/// batches that are as long as the budget and the cap admit; the costliest batch is
/// started first; and the workers for wide batches read them where there is one for
/// each and the last crop of each is 2048 wide, or 1024 for the large dictionaries.
pub open spec fn is_planned(
    r: RecPlan,
    w: Seq<usize>,
    budget: int,
    cap: int,
    wide_workers: int,
    classes: int,
) -> bool {
    let batches = r.batches@.map_values(|p: Vec<usize>| p@);
    &&& are_all_crops(batches, w)
    &&& forall|b: int|
        0 <= b < batches.len() ==> #[trigger] is_filled_up(batches, w, budget, cap, b)
    &&& are_by_cost(r.jobs@, batches, w)
    &&& r.wide <==> batches.len() <= wide_workers && forall|b: int|
        0 <= b < batches.len() ==> w[(#[trigger] batches[b])[batches[b].len() - 1] as int]
            >= if classes <= 6906 {
            2048int
        } else {
            1024int
        }
}

pub proof fn lemma_planned(
    r: RecPlan,
    w: Seq<usize>,
    budget: int,
    cap: int,
    wide_workers: int,
    classes: int,
)
    requires
        r.is_for(w, budget, cap, wide_workers, classes),
    ensures
        is_planned(r, w, budget, cap, wide_workers, classes),
{
    let batches = views(r.batches@);
    let order = choose|order: Seq<usize>| #[trigger]
        is_stable_order(keys_of(w), order) && is_plan(
            batches,
            order,
            w,
            budget,
            cap,
        );
    law_batches_hold_every_crop_once(
        batches,
        keys_of(w),
        order,
        w,
        budget,
        cap,
    );
    assert forall|b: int, k: int, c: int, m: int|
        0 <= b < batches.len() && 0 <= k < batches[b].len() && 0 <= c < batches.len() && 0 <= m
            < batches[c].len() && (b < c || (b == c && k < m)) implies is_narrower(
        w,
        #[trigger] batches[b][k],
        #[trigger] batches[c][m],
    ) by {
        lemma_place(batches, b, k);
        lemma_place(batches, c, m);
        if b < c {
            lemma_place_injective(batches, b, k, c, m);
        }
        let (p, q) = (place(batches, b, k), place(batches, c, m));
        assert(in_order(keys_of(w), order[p], order[q]));
        assert(order[p] < w.len() && order[q] < w.len());
    }
    assert forall|b: int| 0 <= b < batches.len() implies #[trigger] is_filled_up(
        batches,
        w,
        budget,
        cap,
        b,
    ) by {
        lemma_filled_up(batches, order, w, budget, cap, b);
    }
    assert forall|i: int, j: int| 0 <= i < j < r.jobs@.len() implies {
        let (a, b) = (batches[#[trigger] r.jobs@[i] as int], batches[#[trigger] r.jobs@[j] as int]);
        let x = a.len() * w[a[a.len() - 1] as int];
        let y = b.len() * w[b[b.len() - 1] as int];
        x > y || (x == y && r.jobs@[i] < r.jobs@[j])
    } by {
        assert(costlier(r.jobs@[i], r.jobs@[j], batches, w));
    }
}

/// Crops are read by such a plan.
pub proof fn law_recognition_is_planned(
    widths: &Vec<usize>,
    budget: usize,
    cap: usize,
    wide_workers: usize,
    classes: usize,
    r: RecPlan,
)
    requires
        call_ensures(plan_recognition, (widths, budget, cap, wide_workers, classes), r),
    ensures
        is_planned(
            r,
            widths@,
            budget as int,
            cap as int,
            wide_workers as int,
            classes as int,
        ),
{
    lemma_planned(
        r,
        widths@,
        budget as int,
        cap as int,
        wide_workers as int,
        classes as int,
    );
}

/// Sorting gives each index once, by rising key, and those of one key by rising index.
pub proof fn law_order_is_sorted(keys: &Vec<u128>, order: Vec<usize>, i: int, j: int)
    requires
        call_ensures(stable_order, (keys,), order),
        0 <= i < j < order@.len(),
    ensures
        order@.len() == keys@.len(),
        order@[i] < keys@.len() && order@[j] < keys@.len(),
        keys@[order@[i] as int] <= keys@[order@[j] as int],
        keys@[order@[i] as int] == keys@[order@[j] as int] ==> order@[i] < order@[j],
        forall|k: usize| k < keys@.len() ==> #[trigger] order@.contains(k),
{
    assert(in_order(keys@, order@[i], order@[j]));
}

proof fn lemma_joined_is_flat(parts: Seq<Seq<usize>>)
    ensures
        joined(parts) == parts.flatten(),
    decreases parts.len(),
{
    parts.lemma_flatten_and_flatten_alt_are_equivalent();
    if parts.len() > 0 {
        let front = parts.drop_last();
        lemma_joined_is_flat(front);
        front.lemma_flatten_and_flatten_alt_are_equivalent();
    } else {
        assert(parts.flatten_alt() =~= Seq::<usize>::empty());
    }
}

proof fn lemma_widest_is_held(batch: Seq<usize>, widths: Seq<usize>)
    requires
        batch.len() > 0,
    ensures
        exists|k: int|
            0 <= k < batch.len() && widths[#[trigger] batch[k] as int] == widest(batch, widths),
    decreases batch.len(),
{
    let rest = batch.drop_last();
    let n = batch.len() - 1;
    assert(batch.last() == batch[n]);
    if widest(batch, widths) != widths[batch[n] as int] {
        assert(rest.len() == 0 ==> widest(rest, widths) == 0);
        assert(rest.len() > 0);
        lemma_widest_is_held(rest, widths);
        let k = choose|k: int|
            0 <= k < rest.len() && widths[#[trigger] rest[k] as int] == widest(rest, widths);
        assert(widths[batch[k] as int] == widest(batch, widths));
    }
}

/// The batches are the crops in the order that is given, one after the other. A batch
/// is one crop, or keeps to the cap, and to the budget at the width of each of its
/// crops. With the first crop of the next batch it would break the cap, or the budget
/// at the width of one of its crops.
pub proof fn law_batches_are_as_long_as_they_can_be(
    order: &Vec<usize>,
    widths: &Vec<usize>,
    budget: usize,
    cap: usize,
    batches: Vec<Vec<usize>>,
    b: int,
)
    requires
        call_ensures(plan_rec_batches, (order, widths, budget, cap), batches),
        0 <= b < batches@.len(),
    ensures
        batches@.map_values(|p: Vec<usize>| p@).flatten() == order@,
        batches@[b]@.len() > 0,
        batches@[b]@.len() == 1 || batches@[b]@.len() <= cap,
        batches@[b]@.len() == 1 || forall|k: int|
            0 <= k < batches@[b]@.len() ==> batches@[b]@.len()
                * widths@[#[trigger] batches@[b]@[k] as int] <= budget,
        b + 1 < batches@.len() ==> batches@[b]@.len() >= cap || (batches@[b]@.len() + 1)
            * widths@[batches@[b + 1]@[0] as int] > budget || exists|k: int|
            0 <= k < batches@[b]@.len() && (batches@[b]@.len() + 1)
                * widths@[#[trigger] batches@[b]@[k] as int] > budget,
{
    let parts = views(batches@);
    let w = widths@;
    lemma_joined_is_flat(parts);
    let batch = parts[b];
    let n = batch.len();
    assert(n > 0 && fits(batch, w, budget as int, cap as int));
    assert(batches@[b]@ == batch);
    lemma_below_widest(batch, w);
    assert forall|k: int| 0 <= k < n && n > 1 implies n * w[#[trigger] batches@[b]@[k] as int]
        <= budget by {
        let (x, top) = (w[batch[k] as int] as int, widest(batch, w));
        assert(x <= top);
        assert(n * x <= n * top) by (nonlinear_arith)
            requires
                x <= top,
                n >= 0,
        ;
    }
    if b + 1 < parts.len() {
        let c = b + 1;
        let next = parts[c][0];
        assert(is_full(parts[b], parts[c][0], w, budget as int, cap as int));
        lemma_widest_push(batch, next, w);
        lemma_widest_is_held(batch, w);
        let k = choose|k: int|
            0 <= k < batch.len() && w[#[trigger] batch[k] as int] == widest(batch, w);
        assert(batches@[b]@[k] == batch[k]);
    }
}

} // verus!
