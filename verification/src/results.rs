//! What is made of the texts read from the crops: each goes back to its crop,
//! the poor ones are dropped, and each image gets its own.

use crate::boxes;
use crate::boxes::{quad_to_box4, Quad};
use crate::float::model::Val;
use crate::float::F32;
use crate::plan;
use vstd::prelude::*;
use vstd::string::*;

verus! {

/// A text and its score.
pub type Read = (String, F32);

/// The texts of one batch, with the number of the batch.
pub type Answer = (usize, Vec<Read>);

/// One text of an image.
pub struct OcrResult {
    pub text: String,
    pub score: F32,
    /// Left, top, right, bottom.
    pub box4: [i32; 4],
}

/// A text and its score, as values.
pub open spec fn read_val(r: Read) -> (Seq<char>, Val) {
    (r.0@, r.1@)
}

/// `texts` after the crops of a batch have got the first `n` texts of its answer.
pub open spec fn given(
    texts: Seq<(Seq<char>, Val)>,
    batch: Seq<usize>,
    reads: Seq<Read>,
    n: int,
) -> Seq<(Seq<char>, Val)>
    decreases n,
{
    if n <= 0 {
        texts
    } else {
        given(texts, batch, reads, n - 1).update(batch[n - 1] as int, read_val(reads[n - 1]))
    }
}

/// How many texts of an answer have a crop.
pub open spec fn matched(batch: Seq<usize>, reads: Seq<Read>) -> int {
    if batch.len() < reads.len() {
        batch.len() as int
    } else {
        reads.len() as int
    }
}

/// The texts of all crops once the answers have been taken in, one after the
/// other; without an answer a crop has no text and the score zero.
pub open spec fn taken_in(
    crops: int,
    batches: Seq<Seq<usize>>,
    answers: Seq<Answer>,
) -> Seq<(Seq<char>, Val)>
    decreases answers.len(),
{
    if answers.len() == 0 {
        Seq::new(crops as nat, |i: int| (Seq::<char>::empty(), Val::Fin(0real)))
    } else {
        let (b, reads) = answers.last();
        let batch = batches[b as int];
        given(
            taken_in(crops, batches, answers.drop_last()),
            batch,
            reads@,
            matched(batch, reads@),
        )
    }
}

pub open spec fn read_vals(texts: Seq<Read>) -> Seq<(Seq<char>, Val)> {
    texts.map_values(|r: Read| read_val(r))
}

fn copy_read(r: &Read) -> (c: Read)
    ensures
        read_val(c) == read_val(*r),
{
    (r.0.clone(), r.1)
}

/// Gives each of `crops` crops the text that the answer of its batch holds for it.
pub fn gather_texts(crops: usize, batches: &Vec<Vec<usize>>, answers: &Vec<Answer>) -> (texts: Vec<
    Read,
>)
    requires
        forall|a: int| 0 <= a < answers@.len() ==> (#[trigger] answers@[a]).0 < batches@.len(),
        forall|b: int, k: int|
            0 <= b < batches@.len() && 0 <= k < batches@[b]@.len() ==> (#[trigger] batches@[b]@[k])
                < crops,
    ensures
        texts@.len() == crops,
        read_vals(texts@) == taken_in(crops as int, plan::views(batches@), answers@),
{
    let ghost parts = plan::views(batches@);
    let mut texts: Vec<Read> = Vec::new();
    let mut i: usize = 0;
    while i < crops
        invariant
            i <= crops,
            texts@.len() == i,
            forall|k: int|
                0 <= k < i ==> read_val(#[trigger] texts@[k]) == (
                    Seq::<char>::empty(),
                    Val::Fin(0real),
                ),
        decreases crops - i,
    {
        texts.push((String::new(), F32::from_u16(0)));
        i = i + 1;
    }
    let mut a: usize = 0;
    proof {
        assert(answers@.take(0) =~= Seq::<Answer>::empty());
        assert(read_vals(texts@) =~= taken_in(crops as int, parts, answers@.take(0)));
    }
    while a < answers.len()
        invariant
            a <= answers@.len(),
            parts == plan::views(batches@),
            texts@.len() == crops,
            forall|a: int| 0 <= a < answers@.len() ==> (#[trigger] answers@[a]).0 < batches@.len(),
            forall|b: int, k: int|
                0 <= b < batches@.len() && 0 <= k < batches@[b]@.len() ==> (
                #[trigger] batches@[b]@[k]) < crops,
            read_vals(texts@) == taken_in(crops as int, parts, answers@.take(a as int)),
        decreases answers@.len() - a,
    {
        let b: usize = answers[a].0;
        let batch: &Vec<usize> = &batches[b];
        let reads: &Vec<Read> = &answers[a].1;
        let n: usize = if batch.len() < reads.len() {
            batch.len()
        } else {
            reads.len()
        };
        let ghost start = read_vals(texts@);
        let mut k: usize = 0;
        while k < n
            invariant
                k <= n,
                n <= batch@.len(),
                n <= reads@.len(),
                texts@.len() == crops,
                forall|j: int| 0 <= j < batch@.len() ==> (#[trigger] batch@[j]) < crops,
                read_vals(texts@) == given(start, batch@, reads@, k as int),
            decreases n - k,
        {
            let ghost before = texts@;
            let r: Read = copy_read(&reads[k]);
            let at: usize = batch[k];
            texts.set(at, r);
            proof {
                assert(read_vals(texts@) =~= read_vals(before).update(
                    at as int,
                    read_val(reads@[k as int]),
                ));
            }
            k = k + 1;
        }
        proof {
            let done = answers@.take(a + 1);
            assert(done.drop_last() =~= answers@.take(a as int));
            assert(done.last() == answers@[a as int]);
            assert(parts[b as int] == batch@);
        }
        a = a + 1;
    }
    proof {
        assert(answers@.take(a as int) =~= answers@);
    }
    texts
}

/// A character that Unicode counts as white space.
pub open spec fn is_space(c: char) -> bool {
    let n = c as u32;
    ||| 0x9 <= n <= 0xd
    ||| n == 0x20
    ||| n == 0x85
    ||| n == 0xa0
    ||| n == 0x1680
    ||| 0x2000 <= n <= 0x200a
    ||| n == 0x2028
    ||| n == 0x2029
    ||| n == 0x202f
    ||| n == 0x205f
    ||| n == 0x3000
}

/// The text has nothing but white space.
pub open spec fn is_blank(text: Seq<char>) -> bool {
    forall|i: int| 0 <= i < text.len() ==> is_space(#[trigger] text[i])
}

/// A text is kept: under a positive threshold, only where its score reaches the
/// threshold and it is not blank; otherwise always.
pub open spec fn is_kept(read: (Seq<char>, Val), thresh: Val) -> bool {
    Val::Fin(0real).less(thresh) ==> !read.1.less(thresh) && !is_blank(read.0)
}

fn space(c: char) -> (r: bool)
    ensures
        r == is_space(c),
{
    let n: u32 = c as u32;
    (0x9 <= n && n <= 0xd) || n == 0x20 || n == 0x85 || n == 0xa0 || n == 0x1680 || (0x2000 <= n
        && n <= 0x200a) || n == 0x2028 || n == 0x2029 || n == 0x202f || n == 0x205f || n == 0x3000
}

fn blank(text: &str) -> (r: bool)
    ensures
        r == is_blank(text@),
{
    let n: usize = text.unicode_len();
    let mut i: usize = 0;
    while i < n
        invariant
            i <= n,
            n == text@.len(),
            forall|k: int| 0 <= k < i ==> is_space(#[trigger] text@[k]),
        decreases n - i,
    {
        let c: char = text.get_char(i);
        if !space(c) {
            assert(!is_space(text@[i as int]));
            return false;
        }
        i = i + 1;
    }
    true
}

fn keep(read: &Read, thresh: F32) -> (r: bool)
    ensures
        r == is_kept(read_val(*read), thresh@),
{
    if F32::from_u16(0).less(thresh) {
        !read.1.less(thresh) && !blank(read.0.as_str())
    } else {
        true
    }
}

/// The indices below `n`, from `from` on, whose text is kept.
pub open spec fn kept_between(
    texts: Seq<Read>,
    thresh: Val,
    from: int,
    n: int,
) -> Seq<int>
    decreases n - from,
{
    if n <= from {
        Seq::empty()
    } else {
        let rest = kept_between(texts, thresh, from, n - 1);
        if is_kept(read_val(texts[n - 1]), thresh) {
            rest.push(n - 1)
        } else {
            rest
        }
    }
}

/// The result is text `i`, with the bounds of box `i`.
pub open spec fn is_result(r: OcrResult, texts: Seq<Read>, quads: Seq<Quad>, i: int) -> bool {
    &&& (r.text@, r.score@) == read_val(texts[i])
    &&& boxes::are(r.box4, boxes::bounds(quads[i]))
}

/// The results are those of the kept texts from `from` to `to`, in order.
pub open spec fn are_results(
    out: Seq<OcrResult>,
    texts: Seq<Read>,
    quads: Seq<Quad>,
    thresh: Val,
    from: int,
    to: int,
) -> bool {
    let kept = kept_between(texts, thresh, from, to);
    &&& out.len() == kept.len()
    &&& forall|i: int| 0 <= i < out.len() ==> is_result(#[trigger] out[i], texts, quads, kept[i])
}

/// The results of the texts from `from` to `to`, without those that the
/// threshold rules out.
fn keep_results(
    texts: &Vec<Read>,
    quads: &Vec<Quad>,
    thresh: F32,
    from: usize,
    to: usize,
) -> (out: Vec<OcrResult>)
    requires
        from <= to <= texts@.len(),
        to <= quads@.len(),
    ensures
        are_results(out@, texts@, quads@, thresh@, from as int, to as int),
{
    let mut out: Vec<OcrResult> = Vec::new();
    let mut i: usize = from;
    while i < to
        invariant
            from <= i <= to <= texts@.len(),
            to <= quads@.len(),
            are_results(out@, texts@, quads@, thresh@, from as int, i as int),
        decreases to - i,
    {
        let ghost before = out@;
        let ghost kept = kept_between(texts@, thresh@, from as int, i as int);
        if keep(&texts[i], thresh) {
            let (text, score): Read = copy_read(&texts[i]);
            out.push(OcrResult { text, score, box4: quad_to_box4(&quads[i]) });
        }
        proof {
            let more = kept_between(texts@, thresh@, from as int, i + 1);
            assert forall|k: int| 0 <= k < out@.len() implies is_result(
                #[trigger] out@[k],
                texts@,
                quads@,
                more[k],
            ) by {
                if k < before.len() {
                    assert(out@[k] == before[k]);
                    assert(more[k] == kept[k]);
                }
            }
        }
        i = i + 1;
    }
    out
}

/// The results of an image: the texts of its boxes, without those that the
/// threshold rules out.
pub fn recognize(texts: &Vec<Read>, quads: &Vec<Quad>, thresh: F32) -> (out: Vec<OcrResult>)
    ensures
        are_results(
            out@,
            texts@,
            quads@,
            thresh@,
            0,
            if texts@.len() < quads@.len() {
                texts@.len() as int
            } else {
                quads@.len() as int
            },
        ),
{
    let n: usize = if texts.len() < quads.len() {
        texts.len()
    } else {
        quads.len()
    };
    keep_results(texts, quads, thresh, 0, n)
}

/// Where the texts of image `i` start, when the images have `counts` of them.
pub open spec fn start_of(counts: Seq<usize>, i: int) -> int
    decreases i,
{
    if i <= 0 {
        0
    } else {
        start_of(counts, i - 1) + counts[i - 1]
    }
}

/// The results of several images, whose texts stand one after the other: each
/// image has those of its own boxes.
pub fn split_results(
    texts: &Vec<Read>,
    quads: &Vec<Quad>,
    counts: &Vec<usize>,
    thresh: F32,
) -> (out: Vec<Vec<OcrResult>>)
    requires
        texts@.len() == quads@.len(),
        start_of(counts@, counts@.len() as int) == texts@.len(),
    ensures
        out@.len() == counts@.len(),
        forall|i: int|
            0 <= i < counts@.len() ==> are_results(
                #[trigger] out@[i]@,
                texts@,
                quads@,
                thresh@,
                start_of(counts@, i),
                start_of(counts@, i + 1),
            ),
{
    let mut out: Vec<Vec<OcrResult>> = Vec::new();
    let mut i: usize = 0;
    let mut from: usize = 0;
    let total: usize = texts.len();
    while i < counts.len()
        invariant
            i <= counts@.len(),
            total == texts@.len(),
            texts@.len() == quads@.len(),
            start_of(counts@, counts@.len() as int) == total,
            from == start_of(counts@, i as int),
            out@.len() == i,
            forall|k: int|
                0 <= k < i ==> are_results(
                    #[trigger] out@[k]@,
                    texts@,
                    quads@,
                    thresh@,
                    start_of(counts@, k),
                    start_of(counts@, k + 1),
                ),
        decreases counts@.len() - i,
    {
        proof {
            lemma_start_grows(counts@, i + 1, counts@.len() as int);
        }
        let to: usize = from + counts[i];
        out.push(keep_results(texts, quads, thresh, from, to));
        from = to;
        i = i + 1;
    }
    out
}

proof fn lemma_start_grows(counts: Seq<usize>, a: int, b: int)
    requires
        0 <= a <= b <= counts.len(),
    ensures
        0 <= start_of(counts, a) <= start_of(counts, b),
    decreases b,
{
    if a < b {
        lemma_start_grows(counts, a, b - 1);
    } else if a > 0 {
        lemma_start_grows(counts, a - 1, a - 1);
    }
}

// ---- laws ----

/// No two places of the batches hold the same crop.
pub open spec fn apart(batches: Seq<Seq<usize>>) -> bool {
    forall|b: int, k: int, c: int, m: int|
        0 <= b < batches.len() && 0 <= k < batches[b].len() && 0 <= c < batches.len() && 0 <= m
            < batches[c].len() && #[trigger] batches[b][k] == #[trigger] batches[c][m] ==> b == c
            && k == m
}

/// Each answer is to another batch, and has a text for each of its crops.
pub open spec fn answers_fit(
    crops: int,
    batches: Seq<Seq<usize>>,
    answers: Seq<Answer>,
) -> bool {
    &&& forall|a: int|
        0 <= a < answers.len() ==> (#[trigger] answers[a]).0 < batches.len()
            && answers[a].1@.len() == batches[answers[a].0 as int].len()
    &&& forall|a: int, c: int|
        0 <= a < c < answers.len() ==> (#[trigger] answers[a]).0 != (#[trigger] answers[c]).0
    &&& forall|b: int, k: int|
        0 <= b < batches.len() && 0 <= k < batches[b].len() ==> (#[trigger] batches[b][k]) < crops
}

proof fn lemma_taken_in_len(crops: int, batches: Seq<Seq<usize>>, answers: Seq<Answer>)
    requires
        crops >= 0,
        forall|a: int| 0 <= a < answers.len() ==> (#[trigger] answers[a]).0 < batches.len(),
        forall|b: int, k: int|
            0 <= b < batches.len() && 0 <= k < batches[b].len() ==> (#[trigger] batches[b][k])
                < crops,
    ensures
        taken_in(crops, batches, answers).len() == crops,
    decreases answers.len(),
{
    if answers.len() > 0 {
        let (b, reads) = answers.last();
        let batch = batches[b as int];
        let rest = answers.drop_last();
        assert(answers[answers.len() - 1].0 == b);
        assert forall|a: int| 0 <= a < rest.len() implies (#[trigger] rest[a]).0
            < batches.len() by {
            assert(rest[a] == answers[a]);
        }
        lemma_taken_in_len(crops, batches, rest);
        assert forall|k: int| 0 <= k < matched(batch, reads@) implies (#[trigger] batch[k])
            < taken_in(crops, batches, rest).len() by {
            assert(batches[b as int][k] < crops);
        }
        lemma_given_len(
            taken_in(crops, batches, answers.drop_last()),
            batch,
            reads@,
            matched(batch, reads@),
        );
    }
}

proof fn lemma_given_len(
    texts: Seq<(Seq<char>, Val)>,
    batch: Seq<usize>,
    reads: Seq<Read>,
    n: int,
)
    requires
        forall|k: int| 0 <= k < n ==> (#[trigger] batch[k]) < texts.len(),
    ensures
        given(texts, batch, reads, n).len() == texts.len(),
    decreases n,
{
    if n > 0 {
        lemma_given_len(texts, batch, reads, n - 1);
    }
}

proof fn lemma_given_other(
    texts: Seq<(Seq<char>, Val)>,
    batch: Seq<usize>,
    reads: Seq<Read>,
    n: int,
    at: int,
)
    requires
        0 <= n <= batch.len(),
        0 <= at < texts.len(),
        forall|k: int| 0 <= k < n ==> #[trigger] batch[k] != at,
        forall|k: int| 0 <= k < n ==> (#[trigger] batch[k]) < texts.len(),
    ensures
        given(texts, batch, reads, n)[at] == texts[at],
    decreases n,
{
    if n > 0 {
        lemma_given_len(texts, batch, reads, n - 1);
        lemma_given_other(texts, batch, reads, n - 1, at);
    }
}

proof fn lemma_given_own(
    texts: Seq<(Seq<char>, Val)>,
    batch: Seq<usize>,
    reads: Seq<Read>,
    n: int,
    k: int,
)
    requires
        0 <= k < n <= batch.len(),
        forall|i: int, j: int|
            0 <= i < n && 0 <= j < n && #[trigger] batch[i] == #[trigger] batch[j] ==> i == j,
        forall|j: int| 0 <= j < n ==> (#[trigger] batch[j]) < texts.len(),
    ensures
        given(texts, batch, reads, n)[batch[k] as int] == read_val(reads[k]),
    decreases n,
{
    lemma_given_len(texts, batch, reads, n - 1);
    if k < n - 1 {
        lemma_given_own(texts, batch, reads, n - 1, k);
        assert(batch[k] != batch[n - 1]);
    }
}

/// Every crop gets the text that was read from it: crop `k` of the batch of
/// answer `a` has text `k` of that answer, in whatever order the answers come.
pub proof fn law_each_crop_gets_its_own_text(
    crops: int,
    batches: Seq<Seq<usize>>,
    answers: Seq<Answer>,
    a: int,
    k: int,
)
    requires
        crops >= 0,
        apart(batches),
        answers_fit(crops, batches, answers),
        0 <= a < answers.len(),
        0 <= k < answers[a].1@.len(),
    ensures
        taken_in(crops, batches, answers)[batches[answers[a].0 as int][k] as int] == read_val(
            answers[a].1@[k],
        ),
    decreases answers.len(),
{
    let (b, reads) = answers.last();
    let batch = batches[b as int];
    let rest = answers.drop_last();
    let before = taken_in(crops, batches, rest);
    let n = matched(batch, reads@);
    assert forall|c: int| 0 <= c < rest.len() implies (#[trigger] rest[c]).0 < batches.len() by {
        assert(rest[c] == answers[c]);
    }
    lemma_taken_in_len(crops, batches, rest);
    assert(answers[answers.len() - 1] == answers.last());
    assert(n == batch.len());
    assert forall|j: int| 0 <= j < n implies (#[trigger] batch[j]) < before.len() by {
        assert(batches[b as int][j] < crops);
    }
    if a == answers.len() - 1 {
        assert forall|i: int, j: int|
            0 <= i < n && 0 <= j < n && #[trigger] batch[i] == #[trigger] batch[j] implies i
            == j by {
            assert(batches[b as int][i] == batches[b as int][j]);
        }
        lemma_given_own(before, batch, reads@, n, k);
    } else {
        let own = answers[a].0 as int;
        let at = batches[own][k] as int;
        assert(rest[a] == answers[a]);
        assert(answers_fit(crops, batches, rest)) by {
            assert forall|c: int| 0 <= c < rest.len() implies (#[trigger] rest[c]).0
                < batches.len() && rest[c].1@.len() == batches[rest[c].0 as int].len() by {
                assert(rest[c] == answers[c]);
            }
            assert forall|c: int, d: int| 0 <= c < d < rest.len() implies (#[trigger] rest[c]).0
                != (#[trigger] rest[d]).0 by {
                assert(rest[c] == answers[c] && rest[d] == answers[d]);
            }
        }
        law_each_crop_gets_its_own_text(crops, batches, rest, a, k);
        assert(answers[a].0 != answers[answers.len() - 1].0);
        assert(batches[own][k] < crops);
        assert forall|j: int| 0 <= j < n implies #[trigger] batch[j] != at by {
            assert(batches[b as int][j] == batch[j]);
            if batch[j] == at {
                assert(batches[b as int][j] == batches[own][k]);
            }
        }
        lemma_given_other(before, batch, reads@, n, at);
    }
}

proof fn lemma_all_kept(texts: Seq<Read>, thresh: Val, from: int, n: int)
    requires
        from <= n,
        forall|i: int| from <= i < n ==> is_kept(read_val(#[trigger] texts[i]), thresh),
    ensures
        kept_between(texts, thresh, from, n).len() == n - from,
        forall|i: int|
            0 <= i < n - from ==> #[trigger] kept_between(texts, thresh, from, n)[i] == from + i,
    decreases n - from,
{
    if from < n {
        lemma_all_kept(texts, thresh, from, n - 1);
        assert(is_kept(read_val(texts[n - 1]), thresh));
    }
}

/// Without a positive threshold every text is kept, in its place.
pub proof fn law_no_threshold_keeps_all(texts: Seq<Read>, thresh: Val, from: int, n: int)
    requires
        from <= n,
        !Val::Fin(0real).less(thresh),
    ensures
        kept_between(texts, thresh, from, n).len() == n - from,
        forall|i: int|
            0 <= i < n - from ==> #[trigger] kept_between(texts, thresh, from, n)[i] == from + i,
{
    lemma_all_kept(texts, thresh, from, n);
}

/// No text below a positive threshold, and no blank one, is among the results.
pub proof fn law_threshold_drops_poor_texts(
    out: Seq<OcrResult>,
    texts: Seq<Read>,
    quads: Seq<Quad>,
    thresh: Val,
    from: int,
    to: int,
    i: int,
)
    requires
        are_results(out, texts, quads, thresh, from, to),
        Val::Fin(0real).less(thresh),
        0 <= i < out.len(),
    ensures
        !out[i].score@.less(thresh),
        !is_blank(out[i].text@),
{
    lemma_kept_is_kept(texts, thresh, from, to, i);
    assert(is_result(out[i], texts, quads, kept_between(texts, thresh, from, to)[i]));
}

proof fn lemma_kept_is_kept(texts: Seq<Read>, thresh: Val, from: int, n: int, i: int)
    requires
        0 <= i < kept_between(texts, thresh, from, n).len(),
    ensures
        is_kept(read_val(texts[kept_between(texts, thresh, from, n)[i]]), thresh),
    decreases n - from,
{
    if from < n && i < kept_between(texts, thresh, from, n - 1).len() {
        lemma_kept_is_kept(texts, thresh, from, n - 1, i);
    }
}

/// The characters that Unicode counts as white space.
pub open spec fn white_space() -> Seq<u32> {
    seq![
        0x9, 0xa, 0xb, 0xc, 0xd, 0x20, 0x85, 0xa0, 0x1680, 0x2000, 0x2001, 0x2002, 0x2003, 0x2004,
        0x2005, 0x2006, 0x2007, 0x2008, 0x2009, 0x200a, 0x2028, 0x2029, 0x202f, 0x205f, 0x3000,
    ]
}

proof fn lemma_white_space(c: char)
    ensures
        is_space(c) <==> white_space().contains(c as u32),
{
    let (n, s) = (c as u32, white_space());
    assert(s.len() == 25);
    if is_space(c) {
        let k: int = if n <= 0xd {
            n - 0x9
        } else if n == 0x20 {
            5
        } else if n == 0x85 {
            6
        } else if n == 0xa0 {
            7
        } else if n == 0x1680 {
            8
        } else if n <= 0x200a {
            9 + (n - 0x2000)
        } else if n == 0x2028 {
            20
        } else if n == 0x2029 {
            21
        } else if n == 0x202f {
            22
        } else if n == 0x205f {
            23
        } else {
            24
        };
        assert(s[k] == n);
    }
    if s.contains(n) {
        let k = choose|k: int| 0 <= k < s.len() && s[k] == n;
        assert(s[k] == n);
    }
}

/// The text is good enough for a threshold: there is no positive threshold, or the
/// score is not below it and the text has a character that is no white space.
pub open spec fn is_good(text: Seq<char>, score: Val, thresh: Val) -> bool {
    Val::Fin(0real).less(thresh) ==> !score.less(thresh) && exists|j: int|
        0 <= j < text.len() && !white_space().contains(#[trigger] text[j] as u32)
}

proof fn lemma_good(read: Read, thresh: Val)
    ensures
        is_good(read.0@, read.1@, thresh) <==> is_kept(read_val(read), thresh),
{
    let text = read.0@;
    if is_blank(text) {
        assert forall|j: int| 0 <= j < text.len() implies white_space().contains(
            #[trigger] text[j] as u32,
        ) by {
            lemma_white_space(text[j]);
            assert(is_space(text[j]));
        }
    } else {
        let j = choose|j: int| 0 <= j < text.len() && !is_space(#[trigger] text[j]);
        lemma_white_space(text[j]);
        assert(!white_space().contains(text[j] as u32));
    }
}

/// The results are those of the good texts from `from` to `to`: result `k` is text
/// `at[k]` with its score and the bounds of its box, the texts stand in their order,
/// and every good one is there once.
pub open spec fn are_good_texts(
    out: Seq<OcrResult>,
    texts: Seq<Read>,
    quads: Seq<Quad>,
    thresh: Val,
    from: int,
    to: int,
    at: Seq<int>,
) -> bool {
    &&& at.len() == out.len()
    &&& forall|k: int|
        0 <= k < at.len() ==> {
            &&& from <= #[trigger] at[k] < to
            &&& is_good(texts[at[k]].0@, texts[at[k]].1@, thresh)
            &&& out[k].text@ == texts[at[k]].0@
            &&& out[k].score@ == texts[at[k]].1@
            &&& boxes::are(out[k].box4, boxes::bounds(quads[at[k]]))
        }
    &&& forall|k: int, m: int| 0 <= k < m < at.len() ==> #[trigger] at[k] < #[trigger] at[m]
    &&& forall|i: int|
        from <= i < to && is_good((#[trigger] texts[i]).0@, texts[i].1@, thresh) ==> at.contains(i)
}

proof fn lemma_kept_between(texts: Seq<Read>, thresh: Val, from: int, n: int)
    ensures
        ({
            let at = kept_between(texts, thresh, from, n);
            &&& forall|k: int|
                0 <= k < at.len() ==> from <= #[trigger] at[k] < n && is_good(
                    texts[at[k]].0@,
                    texts[at[k]].1@,
                    thresh,
                )
            &&& forall|k: int, m: int| 0 <= k < m < at.len() ==> #[trigger] at[k] < #[trigger] at[m]
            &&& forall|i: int|
                from <= i < n && is_good((#[trigger] texts[i]).0@, texts[i].1@, thresh)
                    ==> at.contains(i)
        }),
    decreases n - from,
{
    if from < n {
        lemma_kept_between(texts, thresh, from, n - 1);
        lemma_good(texts[n - 1], thresh);
        let rest = kept_between(texts, thresh, from, n - 1);
        let at = kept_between(texts, thresh, from, n);
        assert forall|k: int| 0 <= k < at.len() implies from <= #[trigger] at[k] < n && is_good(
            texts[at[k]].0@,
            texts[at[k]].1@,
            thresh,
        ) by {
            if k < rest.len() {
                assert(at[k] == rest[k]);
            }
        }
        assert forall|k: int, m: int| 0 <= k < m < at.len() implies #[trigger] at[k]
            < #[trigger] at[m] by {
            assert(at[k] == rest[k]);
            if m < rest.len() {
                assert(at[m] == rest[m]);
            }
        }
        assert forall|i: int|
            from <= i < n && is_good(
                (#[trigger] texts[i]).0@,
                texts[i].1@,
                thresh,
            ) implies at.contains(i) by {
            if i < n - 1 {
                assert(rest.contains(i));
                let k = choose|k: int| 0 <= k < rest.len() && rest[k] == i;
                assert(at[k] == i);
            } else {
                assert(at[at.len() - 1] == i);
            }
        }
    }
}

pub proof fn lemma_good_texts(
    out: Seq<OcrResult>,
    texts: Seq<Read>,
    quads: Seq<Quad>,
    thresh: Val,
    from: int,
    to: int,
)
    requires
        are_results(out, texts, quads, thresh, from, to),
    ensures
        are_good_texts(
            out,
            texts,
            quads,
            thresh,
            from,
            to,
            kept_between(texts, thresh, from, to),
        ),
{
    lemma_kept_between(texts, thresh, from, to);
    let at = kept_between(texts, thresh, from, to);
    assert forall|k: int| 0 <= k < at.len() implies {
        &&& out[k].text@ == texts[#[trigger] at[k]].0@
        &&& out[k].score@ == texts[at[k]].1@
        &&& boxes::are(out[k].box4, boxes::bounds(quads[at[k]]))
    } by {
        assert(is_result(out[k], texts, quads, at[k]));
    }
}

/// An image has exactly the good texts as results, each once, in the order of its
/// boxes, and each with the bounds of its own box.
pub proof fn law_good_texts_are_the_results(
    texts: &Vec<Read>,
    quads: &Vec<Quad>,
    thresh: F32,
    out: Vec<OcrResult>,
    n: int,
) -> (at: Seq<int>)
    requires
        call_ensures(recognize, (texts, quads, thresh), out),
        n <= texts@.len(),
        n <= quads@.len(),
        n == texts@.len() || n == quads@.len(),
    ensures
        are_good_texts(out@, texts@, quads@, thresh@, 0, n, at),
{
    lemma_good_texts(out@, texts@, quads@, thresh@, 0, n);
    kept_between(texts@, thresh@, 0, n)
}

/// Of several images, whose texts stand one after the other, each has exactly its
/// own good texts as results: those of image `i` run from `starts[i]` to
/// `starts[i + 1]`.
pub proof fn law_each_image_has_its_good_texts(
    texts: &Vec<Read>,
    quads: &Vec<Quad>,
    counts: &Vec<usize>,
    thresh: F32,
    out: Vec<Vec<OcrResult>>,
    starts: Seq<int>,
    i: int,
) -> (at: Seq<int>)
    requires
        call_ensures(split_results, (texts, quads, counts, thresh), out),
        starts.len() == counts@.len() + 1,
        starts[0] == 0,
        forall|k: int| 0 <= k < counts@.len() ==> #[trigger] starts[k + 1] == starts[k] + counts@[k],
        0 <= i < counts@.len(),
    ensures
        out@.len() == counts@.len(),
        are_good_texts(out@[i]@, texts@, quads@, thresh@, starts[i], starts[i + 1], at),
{
    lemma_starts(counts@, starts, i);
    lemma_starts(counts@, starts, i + 1);
    assert(are_results(
        out@[i]@,
        texts@,
        quads@,
        thresh@,
        start_of(counts@, i),
        start_of(counts@, i + 1),
    ));
    lemma_good_texts(out@[i]@, texts@, quads@, thresh@, starts[i], starts[i + 1]);
    kept_between(texts@, thresh@, starts[i], starts[i + 1])
}

pub proof fn lemma_starts(counts: Seq<usize>, starts: Seq<int>, i: int)
    requires
        starts.len() == counts.len() + 1,
        starts[0] == 0,
        forall|k: int| 0 <= k < counts.len() ==> #[trigger] starts[k + 1] == starts[k] + counts[k],
        0 <= i <= counts.len(),
    ensures
        start_of(counts, i) == starts[i],
    decreases i,
{
    if i > 0 {
        lemma_starts(counts, starts, i - 1);
        assert(starts[(i - 1) + 1] == starts[i - 1] + counts[i - 1]);
    }
}

/// A crop that no answer is about has an empty text and the score zero.
pub proof fn law_unanswered_crop_has_no_text(
    crops: usize,
    batches: &Vec<Vec<usize>>,
    answers: &Vec<Answer>,
    texts: Vec<Read>,
    at: int,
)
    requires
        call_ensures(gather_texts, (crops, batches, answers), texts),
        forall|a: int| 0 <= a < answers@.len() ==> (#[trigger] answers@[a]).0 < batches@.len(),
        forall|b: int, k: int|
            0 <= b < batches@.len() && 0 <= k < batches@[b]@.len() ==> (#[trigger] batches@[b]@[k])
                < crops,
        0 <= at < crops,
        forall|a: int, k: int|
            0 <= a < answers@.len() && 0 <= k < batches@[answers@[a].0 as int]@.len()
                ==> #[trigger] batches@[answers@[a].0 as int]@[k] != at,
    ensures
        texts@.len() == crops,
        texts@[at].0@ == Seq::<char>::empty(),
        texts@[at].1@ == Val::Fin(0real),
{
    let parts = plan::views(batches@);
    assert forall|b: int, k: int|
        0 <= b < parts.len() && 0 <= k < parts[b].len() implies (#[trigger] parts[b][k]) < crops by {
        assert(batches@[b]@[k] < crops);
    }
    assert forall|a: int, k: int|
        0 <= a < answers@.len() && 0 <= k
            < parts[answers@[a].0 as int].len() implies #[trigger] parts[answers@[a].0 as int][k]
        != at by {
        assert(batches@[answers@[a].0 as int]@[k] != at);
    }
    lemma_unanswered(crops as int, parts, answers@, at);
    assert(read_vals(texts@)[at] == read_val(texts@[at]));
}

proof fn lemma_unanswered(crops: int, batches: Seq<Seq<usize>>, answers: Seq<Answer>, at: int)
    requires
        0 <= at < crops,
        forall|a: int| 0 <= a < answers.len() ==> (#[trigger] answers[a]).0 < batches.len(),
        forall|b: int, k: int|
            0 <= b < batches.len() && 0 <= k < batches[b].len() ==> (#[trigger] batches[b][k])
                < crops,
        forall|a: int, k: int|
            0 <= a < answers.len() && 0 <= k < batches[answers[a].0 as int].len()
                ==> #[trigger] batches[answers[a].0 as int][k] != at,
    ensures
        taken_in(crops, batches, answers)[at] == (Seq::<char>::empty(), Val::Fin(0real)),
    decreases answers.len(),
{
    if answers.len() > 0 {
        let n = answers.len() - 1;
        let (b, reads) = answers.last();
        let batch = batches[b as int];
        let rest = answers.drop_last();
        assert(answers[n].0 == b);
        assert forall|a: int| 0 <= a < rest.len() implies (#[trigger] rest[a]).0
            < batches.len() by {
            assert(rest[a] == answers[a]);
        }
        assert forall|a: int, k: int|
            0 <= a < rest.len() && 0 <= k
                < batches[rest[a].0 as int].len() implies #[trigger] batches[rest[a].0 as int][k]
            != at by {
            assert(rest[a] == answers[a]);
            assert(batches[answers[a].0 as int][k] != at);
        }
        lemma_unanswered(crops, batches, rest, at);
        lemma_taken_in_len(crops, batches, rest);
        let before = taken_in(crops, batches, rest);
        let m = matched(batch, reads@);
        assert forall|k: int| 0 <= k < m implies #[trigger] batch[k] != at && batch[k]
            < before.len() by {
            assert(batches[answers[n].0 as int][k] != at);
            assert(batches[b as int][k] < crops);
        }
        lemma_given_other(before, batch, reads@, m, at);
    }
}

} // verus!
