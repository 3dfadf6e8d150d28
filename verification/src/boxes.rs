//! Text boxes: their reading order and their bounds.

use crate::components::Pt;
use crate::float::bounds;
use crate::float::model;
use crate::float::model::{Format, Val};
use crate::float::F64;
use vstd::prelude::*;

verus! {

/// The four corners of a box.
pub type Quad = [Pt; 4];

impl Val {
    /// The number without its sign.
    pub open spec fn magnitude(self) -> Val {
        if self.less(Val::Fin(0real)) {
            self.negate()
        } else {
            self
        }
    }
}

/// The two orders in which boxes are put.
#[derive(Clone, Copy)]
pub enum Rule {
    /// By row, then by column.
    Above,
    /// Rows that differ by less than ten pixels are one line; in a line, by column.
    Beside,
}

impl Rule {
    /// Box `a` belongs before box `b`. A box stands where its first corner is.
    pub open spec fn before(self, a: Quad, b: Quad) -> bool {
        let (ax, ay) = (a[0].0@, a[0].1@);
        let (bx, by) = (b[0].0@, b[0].1@);
        match self {
            Rule::Above => ay.less(by) || (ay.same(by) && ax.less(bx)),
            Rule::Beside => ay.minus(by, Format::Double).magnitude().less(Val::Fin(10real))
                && ax.less(bx),
        }
    }

    fn comes_before(self, a: &Quad, b: &Quad) -> (r: bool)
        ensures
            r == self.before(*a, *b),
    {
        let (ax, ay) = a[0];
        let (bx, by) = b[0];
        match self {
            Rule::Above => ay.less(by) || (ay.same(by) && ax.less(bx)),
            Rule::Beside => {
                let d: F64 = ay.minus(by);
                let gap: F64 = if d.less(F64::from_u16(0)) {
                    d.negate()
                } else {
                    d
                };
                gap.less(F64::from_u16(10)) && ax.less(bx)
            },
        }
    }
}

/// `s` with `x` put behind its last box that `x` does not belong before.
pub open spec fn sunk(s: Seq<Quad>, x: Quad, rule: Rule) -> Seq<Quad>
    decreases s.len(),
{
    if s.len() > 0 && rule.before(x, s.last()) {
        sunk(s.drop_last(), x, rule).push(s.last())
    } else {
        s.push(x)
    }
}

/// The boxes of `s` put into order one after the other, each passing those
/// before it that it belongs before.
pub open spec fn arranged(s: Seq<Quad>, rule: Rule) -> Seq<Quad>
    decreases s.len(),
{
    if s.len() == 0 {
        s
    } else {
        sunk(arranged(s.drop_last(), rule), s.last(), rule)
    }
}

/// The boxes by row and column, then each line by column.
pub open spec fn reading_order(s: Seq<Quad>) -> Seq<Quad> {
    arranged(arranged(s, Rule::Above), Rule::Beside)
}

/// A box whose first corner has numbers as coordinates.
pub open spec fn placed(b: Quad) -> bool {
    !(b[0].0@ is Nan) && !(b[0].1@ is Nan)
}

pub open spec fn all_placed(s: Seq<Quad>) -> bool {
    forall|i: int| 0 <= i < s.len() ==> placed(#[trigger] s[i])
}

fn arrange(boxes: &Vec<Quad>, rule: Rule) -> (r: Vec<Quad>)
    ensures
        r@ == arranged(boxes@, rule),
{
    let mut out: Vec<Quad> = Vec::new();
    let mut i: usize = 0;
    while i < boxes.len()
        invariant
            i <= boxes@.len(),
            out@ == arranged(boxes@.take(i as int), rule),
            out@.len() == i,
        decreases boxes@.len() - i,
    {
        let x: Quad = boxes[i];
        let ghost done = out@;
        let mut pos: usize = out.len();
        proof {
            assert(done.take(pos as int) =~= done);
            assert(sunk(done, x, rule) =~= sunk(done, x, rule) + done.skip(pos as int));
        }
        while pos > 0 && rule.comes_before(&x, &out[pos - 1])
            invariant
                pos <= out@.len(),
                out@ == done,
                sunk(done, x, rule) == sunk(done.take(pos as int), x, rule) + done.skip(
                    pos as int,
                ),
            decreases pos,
        {
            proof {
                let s = done.take(pos as int);
                assert(s.last() == done[pos - 1]);
                assert(s.drop_last() =~= done.take(pos - 1));
                assert(sunk(done.take(pos - 1), x, rule).push(s.last()) + done.skip(pos as int)
                    =~= sunk(done.take(pos - 1), x, rule) + done.skip(pos - 1));
            }
            pos = pos - 1;
        }
        proof {
            let s = done.take(pos as int);
            if pos > 0 {
                assert(s.last() == done[pos - 1]);
            }
            assert(s.push(x) + done.skip(pos as int) =~= done.insert(pos as int, x));
            assert(boxes@.take(i + 1).drop_last() =~= boxes@.take(i as int));
            assert(boxes@.take(i + 1).last() == x);
        }
        out.insert(pos, x);
        i = i + 1;
    }
    proof {
        assert(boxes@.take(i as int) =~= boxes@);
    }
    out
}

/// Puts the boxes into reading order: top to bottom, left to right.
pub fn sort_boxes(boxes: Vec<Quad>) -> (r: Vec<Quad>)
    requires
        boxes@.len() <= 1 || all_placed(boxes@),
    ensures
        r@ == reading_order(boxes@),
{
    let rows: Vec<Quad> = arrange(&boxes, Rule::Above);
    arrange(&rows, Rule::Beside)
}

/// Puts the boxes into reading order; none where there are two or more and one of
/// them has no place.
pub fn order_boxes(boxes: Vec<Quad>) -> (r: Option<Vec<Quad>>)
    ensures
        match r {
            Some(sorted) => (boxes@.len() <= 1 || all_placed(boxes@)) && sorted@ == reading_order(
                boxes@,
            ),
            None => boxes@.len() > 1 && !all_placed(boxes@),
        },
{
    let n: usize = boxes.len();
    let mut i: usize = 0;
    while i < n && n > 1
        invariant
            i <= n,
            n == boxes@.len(),
            n > 1 ==> forall|k: int| 0 <= k < i ==> placed(#[trigger] boxes@[k]),
            n <= 1 ==> i == 0,
        decreases n - i,
    {
        let (x, y) = boxes[i][0];
        if x.is_nan() || y.is_nan() {
            assert(!placed(boxes@[i as int]));
            return None;
        }
        i = i + 1;
    }
    Some(sort_boxes(boxes))
}

/// The least of four numbers; a NaN counts for nothing.
pub open spec fn least_of(a: Val, b: Val, c: Val, d: Val) -> Val {
    Val::PosInf.smaller(a).smaller(b).smaller(c).smaller(d)
}

/// The greatest of four numbers; a NaN counts for nothing.
pub open spec fn greatest_of(a: Val, b: Val, c: Val, d: Val) -> Val {
    Val::NegInf.larger(a).larger(b).larger(c).larger(d)
}

/// A number without its fraction, as a 32-bit integer.
pub open spec fn pixel(v: Val) -> int {
    model::to_int(v, i32::MIN as int, i32::MAX as int)
}

/// The bounds of a box: left, top, right, bottom.
pub open spec fn bounds(q: Quad) -> Seq<int> {
    seq![
        pixel(least_of(q[0].0@, q[1].0@, q[2].0@, q[3].0@)),
        pixel(least_of(q[0].1@, q[1].1@, q[2].1@, q[3].1@)),
        pixel(greatest_of(q[0].0@, q[1].0@, q[2].0@, q[3].0@)),
        pixel(greatest_of(q[0].1@, q[1].1@, q[2].1@, q[3].1@)),
    ]
}

/// The integers are the given ones.
pub open spec fn are(b: [i32; 4], s: Seq<int>) -> bool {
    s.len() == 4 && forall|i: int| 0 <= i < 4 ==> #[trigger] b@[i] == s[i]
}

fn lowest(a: F64, b: F64, c: F64, d: F64) -> (r: i32)
    ensures
        r == pixel(least_of(a@, b@, c@, d@)),
{
    let top: F64 = infinity();
    top.smaller(a).smaller(b).smaller(c).smaller(d).to_i32()
}

fn highest(a: F64, b: F64, c: F64, d: F64) -> (r: i32)
    ensures
        r == pixel(greatest_of(a@, b@, c@, d@)),
{
    let bottom: F64 = infinity().negate();
    bottom.larger(a).larger(b).larger(c).larger(d).to_i32()
}

fn infinity() -> (r: F64)
    ensures
        r@ == Val::PosInf,
{
    let r: F64 = F64::from_u16(1).over(F64::from_u16(0));
    r
}

/// The axis-aligned bounds of a box: left, top, right, bottom.
pub fn quad_to_box4(q: &Quad) -> (r: [i32; 4])
    ensures
        are(r, bounds(*q)),
{
    let left: i32 = lowest(q[0].0, q[1].0, q[2].0, q[3].0);
    let top: i32 = lowest(q[0].1, q[1].1, q[2].1, q[3].1);
    let right: i32 = highest(q[0].0, q[1].0, q[2].0, q[3].0);
    let bottom: i32 = highest(q[0].1, q[1].1, q[2].1, q[3].1);
    [left, top, right, bottom]
}

// ---- laws ----

proof fn lemma_sunk_multiset(s: Seq<Quad>, x: Quad, rule: Rule)
    ensures
        sunk(s, x, rule).to_multiset() == s.to_multiset().insert(x),
    decreases s.len(),
{
    broadcast use vstd::seq_lib::group_to_multiset_ensures;

    if s.len() > 0 && rule.before(x, s.last()) {
        lemma_sunk_multiset(s.drop_last(), x, rule);
        assert(s.drop_last().push(s.last()) =~= s);
        assert(sunk(s, x, rule).to_multiset() =~= s.to_multiset().insert(x));
    }
}

proof fn lemma_arranged_multiset(s: Seq<Quad>, rule: Rule)
    ensures
        arranged(s, rule).to_multiset() == s.to_multiset(),
    decreases s.len(),
{
    broadcast use vstd::seq_lib::group_to_multiset_ensures;

    if s.len() > 0 {
        lemma_arranged_multiset(s.drop_last(), rule);
        lemma_sunk_multiset(arranged(s.drop_last(), rule), s.last(), rule);
        assert(s.drop_last().push(s.last()) =~= s);
    }
}

/// Putting boxes into reading order neither loses a box nor adds one.
pub proof fn law_reading_order_keeps_boxes(s: Seq<Quad>)
    ensures
        reading_order(s).to_multiset() == s.to_multiset(),
{
    lemma_arranged_multiset(s, Rule::Above);
    lemma_arranged_multiset(arranged(s, Rule::Above), Rule::Beside);
}

/// No box belongs before its predecessor.
pub open spec fn settled(s: Seq<Quad>, rule: Rule) -> bool {
    forall|i: int, j: int|
        0 <= i && j == i + 1 && j < s.len() ==> !rule.before(#[trigger] s[j], #[trigger] s[i])
}

proof fn lemma_sunk_settled(s: Seq<Quad>, x: Quad)
    requires
        settled(s, Rule::Beside),
    ensures
        settled(sunk(s, x, Rule::Beside), Rule::Beside),
        sunk(s, x, Rule::Beside).len() == s.len() + 1,
        sunk(s, x, Rule::Beside).last() == x || (s.len() > 0 && sunk(
            s,
            x,
            Rule::Beside,
        ).last() == s.last()),
    decreases s.len(),
{
    let rule = Rule::Beside;
    if s.len() > 0 && rule.before(x, s.last()) {
        let rest = s.drop_last();
        assert(settled(rest, rule)) by {
            assert forall|i: int, j: int| 0 <= i && j == i + 1 && j < rest.len() implies !rule.before(
                #[trigger] rest[j],
                #[trigger] rest[i],
            ) by {
                assert(rest[i] == s[i] && rest[j] == s[j]);
            }
        }
        lemma_sunk_settled(rest, x);
        let t = sunk(rest, x, rule);
        let u = t.push(s.last());
        assert forall|i: int, j: int| 0 <= i && j == i + 1 && j < u.len() implies !rule.before(
            #[trigger] u[j],
            #[trigger] u[i],
        ) by {
            if j < t.len() {
                assert(u[i] == t[i] && u[j] == t[j]);
            } else {
                assert(u[i] == t.last());
                if rest.len() > 0 && t.last() == rest.last() {
                    assert(s[s.len() - 2] == rest.last());
                    assert(!rule.before(s[s.len() - 1], s[s.len() - 2]));
                }
            }
        }
    } else {
        let u = s.push(x);
        assert forall|i: int, j: int| 0 <= i && j == i + 1 && j < u.len() implies !rule.before(
            #[trigger] u[j],
            #[trigger] u[i],
        ) by {
            if j < s.len() {
                assert(u[i] == s[i] && u[j] == s[j]);
            }
        }
    }
}

proof fn lemma_arranged_settled(s: Seq<Quad>)
    ensures
        settled(arranged(s, Rule::Beside), Rule::Beside),
    decreases s.len(),
{
    if s.len() > 0 {
        lemma_arranged_settled(s.drop_last());
        lemma_sunk_settled(arranged(s.drop_last(), Rule::Beside), s.last());
    }
}

/// In reading order, of two neighbours on one line the left one comes first.
pub proof fn law_reading_order_runs_left_to_right(s: Seq<Quad>)
    ensures
        settled(reading_order(s), Rule::Beside),
{
    lemma_arranged_settled(arranged(s, Rule::Above));
}

/// No box belongs before any of those ahead of it.
pub open spec fn sorted(s: Seq<Quad>, rule: Rule) -> bool {
    forall|i: int, j: int|
        0 <= i < j < s.len() ==> !rule.before(#[trigger] s[j], #[trigger] s[i])
}

proof fn lemma_sunk_sorted(s: Seq<Quad>, x: Quad)
    requires
        sorted(s, Rule::Above),
        all_placed(s),
        placed(x),
    ensures
        sorted(sunk(s, x, Rule::Above), Rule::Above),
        all_placed(sunk(s, x, Rule::Above)),
        sunk(s, x, Rule::Above).len() == s.len() + 1,
        forall|i: int|
            0 <= i <= s.len() ==> (#[trigger] sunk(s, x, Rule::Above)[i]) == x || s.contains(
                sunk(s, x, Rule::Above)[i],
            ),
    decreases s.len(),
{
    let rule = Rule::Above;
    if s.len() > 0 && rule.before(x, s.last()) {
        let rest = s.drop_last();
        assert(sorted(rest, rule)) by {
            assert forall|i: int, j: int| 0 <= i < j < rest.len() implies !rule.before(
                #[trigger] rest[j],
                #[trigger] rest[i],
            ) by {
                assert(rest[i] == s[i] && rest[j] == s[j]);
            }
        }
        assert forall|i: int| 0 <= i < rest.len() implies placed(#[trigger] rest[i]) by {
            assert(rest[i] == s[i]);
        }
        lemma_sunk_sorted(rest, x);
        let t = sunk(rest, x, rule);
        let u = t.push(s.last());
        assert forall|i: int| 0 <= i <= s.len() implies (#[trigger] u[i]) == x || s.contains(
            u[i],
        ) by {
            if i < t.len() {
                assert(u[i] == t[i]);
                if t[i] != x {
                    let k = choose|k: int| 0 <= k < rest.len() && rest[k] == t[i];
                    assert(s[k] == u[i]);
                }
            } else {
                assert(u[i] == s[s.len() - 1]);
            }
        }
        assert forall|i: int, j: int| 0 <= i < j < u.len() implies !rule.before(
            #[trigger] u[j],
            #[trigger] u[i],
        ) by {
            if j < t.len() {
                assert(u[i] == t[i] && u[j] == t[j]);
            } else if t[i] != x {
                let k = choose|k: int| 0 <= k < rest.len() && rest[k] == t[i];
                assert(s[k] == u[i]);
                assert(!rule.before(s[s.len() - 1], s[k]));
            }
        }
        assert forall|i: int| 0 <= i < u.len() implies placed(#[trigger] u[i]) by {
            if i < t.len() {
                assert(u[i] == t[i]);
            } else {
                assert(u[i] == s[s.len() - 1]);
            }
        }
    } else {
        let u = s.push(x);
        assert forall|i: int, j: int| 0 <= i < j < u.len() implies !rule.before(
            #[trigger] u[j],
            #[trigger] u[i],
        ) by {
            if j < s.len() {
                assert(u[i] == s[i] && u[j] == s[j]);
            } else if i < s.len() - 1 {
                assert(!rule.before(s[s.len() - 1], s[i]));
                assert(placed(s[i]) && placed(s[s.len() - 1]));
            }
        }
        assert forall|i: int| 0 <= i <= s.len() implies (#[trigger] u[i]) == x || s.contains(
            u[i],
        ) by {
            if i < s.len() {
                assert(u[i] == s[i]);
            }
        }
    }
}

proof fn lemma_arranged_sorted(s: Seq<Quad>)
    requires
        all_placed(s),
    ensures
        sorted(arranged(s, Rule::Above), Rule::Above),
        all_placed(arranged(s, Rule::Above)),
        arranged(s, Rule::Above).len() == s.len(),
        forall|i: int|
            0 <= i < s.len() ==> s.contains(#[trigger] arranged(s, Rule::Above)[i]),
    decreases s.len(),
{
    if s.len() > 0 {
        let rest = s.drop_last();
        assert forall|i: int| 0 <= i < rest.len() implies placed(#[trigger] rest[i]) by {
            assert(rest[i] == s[i]);
        }
        lemma_arranged_sorted(rest);
        lemma_sunk_sorted(arranged(rest, Rule::Above), s.last());
        let done = arranged(rest, Rule::Above);
        let all = arranged(s, Rule::Above);
        assert forall|i: int| 0 <= i < s.len() implies s.contains(#[trigger] all[i]) by {
            if all[i] == s.last() {
                assert(s[s.len() - 1] == all[i]);
            } else {
                let k = choose|k: int| 0 <= k < done.len() && done[k] == all[i];
                assert(rest.contains(done[k]));
                let m = choose|m: int| 0 <= m < rest.len() && rest[m] == all[i];
                assert(s[m] == all[i]);
            }
        }
    }
}

proof fn lemma_arranged_unchanged(s: Seq<Quad>)
    requires
        sorted(s, Rule::Beside),
    ensures
        arranged(s, Rule::Beside) == s,
    decreases s.len(),
{
    if s.len() > 0 {
        let rest = s.drop_last();
        assert(sorted(rest, Rule::Beside)) by {
            assert forall|i: int, j: int| 0 <= i < j < rest.len() implies !Rule::Beside.before(
                #[trigger] rest[j],
                #[trigger] rest[i],
            ) by {
                assert(rest[i] == s[i] && rest[j] == s[j]);
            }
        }
        lemma_arranged_unchanged(rest);
        if rest.len() > 0 {
            assert(rest.last() == s[s.len() - 2]);
            assert(!Rule::Beside.before(s[s.len() - 1], s[s.len() - 2]));
        }
        assert(rest.push(s.last()) =~= s);
    }
}

/// Two boxes start in the same row, or their rows differ by ten pixels or more.
pub open spec fn lines_apart(a: Quad, b: Quad) -> bool {
    a[0].1@ == b[0].1@ || !b[0].1@.minus(a[0].1@, Format::Double).magnitude().less(
        Val::Fin(10real),
    )
}

/// Where the lines are clearly apart, reading order is top to bottom and, in a
/// row, left to right: no box is above one ahead of it, nor left of one ahead
/// of it in its row.
pub proof fn law_reading_order_runs_top_to_bottom(s: Seq<Quad>)
    requires
        all_placed(s),
        forall|i: int, j: int|
            0 <= i < s.len() && 0 <= j < s.len() ==> lines_apart(#[trigger] s[i], #[trigger] s[j]),
    ensures
        sorted(reading_order(s), Rule::Above),
{
    let t = arranged(s, Rule::Above);
    lemma_arranged_sorted(s);
    assert forall|i: int, j: int| 0 <= i < j < t.len() implies !Rule::Beside.before(
        #[trigger] t[j],
        #[trigger] t[i],
    ) by {
        assert(!Rule::Above.before(t[j], t[i]));
        assert(s.contains(t[i]) && s.contains(t[j]));
        let a = choose|a: int| 0 <= a < s.len() && s[a] == t[i];
        let b = choose|b: int| 0 <= b < s.len() && s[b] == t[j];
        assert(lines_apart(s[a], s[b]));
        assert(placed(t[i]) && placed(t[j]));
    }
    lemma_arranged_unchanged(t);
}

/// Box `a` starts at least ten pixels above box `b`.
pub open spec fn ten_above(a: Quad, b: Quad) -> bool {
    match (a[0].1@, b[0].1@) {
        (Val::Fin(p), Val::Fin(q)) => p + 10real <= q,
        (p, q) => p.less(q),
    }
}

/// Boxes ten pixels apart are not beside each other.
proof fn lemma_ten_above(a: Quad, b: Quad)
    requires
        ten_above(a, b),
    ensures
        !Rule::Beside.before(b, a),
        a[0].1@.less(b[0].1@),
{
    if let (Val::Fin(p), Val::Fin(q)) = (a[0].1@, b[0].1@) {
        let gap = model::nearest(Format::Double, q + -p);
        assert(b[0].1@.minus(a[0].1@, Format::Double) == gap);
        bounds::lemma_stays_above(10, q + -p);
        assert(gap.magnitude() == gap);
    }
}

/// No box starts ten pixels or more above one ahead of it.
pub open spec fn in_lines(s: Seq<Quad>) -> bool {
    forall|i: int, j: int| 0 <= i < j < s.len() ==> !ten_above(#[trigger] s[j], #[trigger] s[i])
}

/// Where a box ends up among the others: those that it passes are the last ones.
proof fn lemma_sunk_place(s: Seq<Quad>, x: Quad, rule: Rule) -> (p: int)
    ensures
        0 <= p <= s.len(),
        sunk(s, x, rule) == s.insert(p, x),
        forall|i: int| p <= i < s.len() ==> rule.before(x, #[trigger] s[i]),
    decreases s.len(),
{
    if s.len() > 0 && rule.before(x, s.last()) {
        let rest = s.drop_last();
        let p = lemma_sunk_place(rest, x, rule);
        assert(sunk(s, x, rule) =~= s.insert(p, x));
        assert forall|i: int| p <= i < s.len() implies rule.before(x, #[trigger] s[i]) by {
            if i < rest.len() {
                assert(rest[i] == s[i]);
            }
        }
        p
    } else {
        assert(s.push(x) =~= s.insert(s.len() as int, x));
        s.len() as int
    }
}

proof fn lemma_arranged_in_lines(t: Seq<Quad>)
    requires
        forall|i: int, j: int|
            0 <= i < j < t.len() ==> !(#[trigger] t[j])[0].1@.less((#[trigger] t[i])[0].1@),
    ensures
        in_lines(arranged(t, Rule::Beside)),
        arranged(t, Rule::Beside).len() == t.len(),
        forall|i: int|
            0 <= i < t.len() ==> t.contains(#[trigger] arranged(t, Rule::Beside)[i]),
    decreases t.len(),
{
    if t.len() > 0 {
        let rest = t.drop_last();
        let x = t.last();
        assert forall|i: int, j: int| 0 <= i < j < rest.len() implies !(#[trigger] rest[j])[0].1@.less(
            (#[trigger] rest[i])[0].1@,
        ) by {
            assert(rest[i] == t[i] && rest[j] == t[j]);
        }
        lemma_arranged_in_lines(rest);
        let u = arranged(rest, Rule::Beside);
        let p = lemma_sunk_place(u, x, Rule::Beside);
        let v = u.insert(p, x);
        assert forall|i: int| 0 <= i < u.len() implies t.contains(#[trigger] u[i]) && !x[0].1@.less(
            u[i][0].1@,
        ) by {
            assert(rest.contains(u[i]));
            let k = choose|k: int| 0 <= k < rest.len() && rest[k] == u[i];
            assert(t[k] == u[i]);
            assert(t[t.len() - 1] == x);
        }
        assert forall|i: int, j: int| 0 <= i < j < v.len() implies !ten_above(
            #[trigger] v[j],
            #[trigger] v[i],
        ) by {
            if ten_above(v[j], v[i]) {
                lemma_ten_above(v[j], v[i]);
            }
            if i == p {
                assert(v[j] == u[j - 1]);
            } else if j == p {
                assert(v[i] == u[i]);
            } else {
                let a = if i < p {
                    i
                } else {
                    i - 1
                };
                let b = if j < p {
                    j
                } else {
                    j - 1
                };
                assert(v[i] == u[a] && v[j] == u[b]);
            }
        }
        assert forall|i: int| 0 <= i < v.len() implies t.contains(#[trigger] v[i]) by {
            if i < p {
                assert(v[i] == u[i]);
            } else if i > p {
                assert(v[i] == u[i - 1]);
            } else {
                assert(t[t.len() - 1] == x);
            }
        }
    }
}

/// In reading order a box that starts at least ten pixels above another one comes
/// before it, whatever boxes there are besides.
pub proof fn law_lines_are_read_top_to_bottom(s: Seq<Quad>)
    requires
        all_placed(s),
    ensures
        in_lines(reading_order(s)),
{
    let t = arranged(s, Rule::Above);
    lemma_arranged_sorted(s);
    assert forall|i: int, j: int| 0 <= i < j < t.len() implies !(#[trigger] t[j])[0].1@.less(
        (#[trigger] t[i])[0].1@,
    ) by {
        assert(!Rule::Above.before(t[j], t[i]));
    }
    lemma_arranged_in_lines(t);
}

/// No two boxes start at the same point.
pub open spec fn all_differ(s: Seq<Quad>) -> bool {
    forall|i: int, j: int|
        0 <= i < j < s.len() ==> (#[trigger] s[i])[0].0@ != (#[trigger] s[j])[0].0@ || s[i][0].1@
            != s[j][0].1@
}

/// What holds of the boxes holds of them in any order.
proof fn lemma_same_boxes(s: Seq<Quad>, t: Seq<Quad>)
    requires
        s.to_multiset() == t.to_multiset(),
        all_placed(s),
        all_differ(s),
    ensures
        all_placed(t),
        all_differ(t),
{
    broadcast use vstd::seq_lib::group_to_multiset_ensures;

    assert(s.no_duplicates()) by {
        assert forall|i: int, j: int| 0 <= i < j < s.len() implies s[i] != s[j] by {}
    }
    s.lemma_multiset_has_no_duplicates();
    t.lemma_multiset_has_no_duplicates_conv();
    assert forall|i: int| 0 <= i < t.len() implies s.contains(#[trigger] t[i]) by {
        assert(t.contains(t[i]));
        assert(t.to_multiset().count(t[i]) > 0);
    }
    assert forall|i: int| 0 <= i < t.len() implies placed(#[trigger] t[i]) by {
        assert(s.contains(t[i]));
        let k = choose|k: int| 0 <= k < s.len() && s[k] == t[i];
        assert(placed(s[k]));
    }
    assert forall|i: int, j: int| 0 <= i < j < t.len() implies (#[trigger] t[i])[0].0@ != (
    #[trigger] t[j])[0].0@ || t[i][0].1@ != t[j][0].1@ by {
        assert(s.contains(t[i]) && s.contains(t[j]));
        let a = choose|a: int| 0 <= a < s.len() && s[a] == t[i];
        let b = choose|b: int| 0 <= b < s.len() && s[b] == t[j];
        assert(t[i] != t[j]);
        if a < b {
            assert(s[a][0].0@ != s[b][0].0@ || s[a][0].1@ != s[b][0].1@);
        } else {
            assert(s[b][0].0@ != s[a][0].0@ || s[b][0].1@ != s[a][0].1@);
        }
    }
}

/// Each box belongs before all that follow it.
spec fn rises(s: Seq<Quad>) -> bool {
    forall|i: int, j: int|
        0 <= i < j < s.len() ==> Rule::Above.before(#[trigger] s[i], #[trigger] s[j])
}

proof fn lemma_rises(s: Seq<Quad>)
    requires
        all_placed(s),
        all_differ(s),
    ensures
        rises(arranged(s, Rule::Above)),
{
    let t = arranged(s, Rule::Above);
    lemma_arranged_sorted(s);
    lemma_arranged_multiset(s, Rule::Above);
    lemma_same_boxes(s, t);
    assert forall|i: int, j: int| 0 <= i < j < t.len() implies Rule::Above.before(
        #[trigger] t[i],
        #[trigger] t[j],
    ) by {
        assert(!Rule::Above.before(t[j], t[i]));
        assert(placed(t[i]) && placed(t[j]));
        lemma_one_before(t[i], t[j]);
    }
}

/// Of two placed boxes that start at different points one belongs before the other.
proof fn lemma_one_before(a: Quad, b: Quad)
    requires
        placed(a),
        placed(b),
        a[0].0@ != b[0].0@ || a[0].1@ != b[0].1@,
    ensures
        Rule::Above.before(a, b) || Rule::Above.before(b, a),
{
}

/// There is one rising order.
proof fn lemma_rising_once(a: Seq<Quad>, b: Seq<Quad>)
    requires
        a.to_multiset() == b.to_multiset(),
        rises(a),
        rises(b),
    ensures
        a == b,
    decreases a.len(),
{
    broadcast use vstd::seq_lib::group_to_multiset_ensures;

    a.to_multiset_ensures();
    b.to_multiset_ensures();
    if a.len() == 0 {
        assert(a =~= b);
    } else {
        let n = a.len() - 1;
        assert(a.to_multiset().count(a[n]) > 0) by {
            assert(a.contains(a[n]));
        }
        assert(b.to_multiset().count(b[n]) > 0) by {
            assert(b.contains(b[n]));
        }
        assert(b.contains(a[n]) && a.contains(b[n]));
        let k = choose|k: int| 0 <= k < b.len() && b[k] == a[n];
        let m = choose|m: int| 0 <= m < a.len() && a[m] == b[n];
        if k < n && m < n {
            assert(Rule::Above.before(b[k], b[n]));
            assert(Rule::Above.before(a[m], a[n]));
        }
        assert(a[n] == b[n]);
        let (c, d) = (a.drop_last(), b.drop_last());
        assert(a =~= c.push(a[n]) && b =~= d.push(b[n]));
        assert(c.to_multiset() =~= a.to_multiset().remove(a[n])) by {
            assert(a.remove(n) =~= c);
        }
        assert(d.to_multiset() =~= b.to_multiset().remove(b[n])) by {
            assert(b.remove(n) =~= d);
        }
        assert forall|i: int, j: int| 0 <= i < j < c.len() implies Rule::Above.before(
            #[trigger] c[i],
            #[trigger] c[j],
        ) by {
            assert(c[i] == a[i] && c[j] == a[j]);
        }
        assert forall|i: int, j: int| 0 <= i < j < d.len() implies Rule::Above.before(
            #[trigger] d[i],
            #[trigger] d[j],
        ) by {
            assert(d[i] == b[i] && d[j] == b[j]);
        }
        lemma_rising_once(c, d);
    }
}

/// Boxes that start at different points have one reading order, in whatever order
/// they come.
pub proof fn law_reading_order_is_one(s: Seq<Quad>, t: Seq<Quad>)
    requires
        s.to_multiset() == t.to_multiset(),
        all_placed(s),
        all_differ(s),
    ensures
        reading_order(s) == reading_order(t),
{
    lemma_same_boxes(s, t);
    lemma_rises(s);
    lemma_rises(t);
    lemma_arranged_multiset(s, Rule::Above);
    lemma_arranged_multiset(t, Rule::Above);
    lemma_rising_once(arranged(s, Rule::Above), arranged(t, Rule::Above));
}

/// Boxes that start at different points and are in reading order stay as they are.
pub proof fn law_reading_order_is_kept(s: Seq<Quad>)
    requires
        all_placed(s),
        all_differ(s),
    ensures
        reading_order(reading_order(s)) == reading_order(s),
{
    law_reading_order_keeps_boxes(s);
    law_reading_order_is_one(s, reading_order(s));
}

/// The rows `p` and `q` differ by less than ten pixels, by more than is lost in
/// rounding.
pub open spec fn one_line(p: Val, q: Val) -> bool {
    match (p, q) {
        (Val::Fin(a), Val::Fin(b)) => -10real + 1real / 1000000000000real <= a - b <= 10real - 1real
            / 1000000000000real,
        _ => false,
    }
}

proof fn lemma_one_line(a: real, b: real)
    requires
        one_line(Val::Fin(a), Val::Fin(b)),
    ensures
        Val::Fin(a).minus(Val::Fin(b), Format::Double).magnitude().less(Val::Fin(10real)),
{
    let d = a + -b;
    let y = bounds::lemma_double_error(d);
    assert(Val::Fin(a).minus(Val::Fin(b), Format::Double) == Val::Fin(y));
}

/// In reading order, of two neighbours whose rows differ by less than ten pixels the
/// first is not right of the second, however far apart their columns are.
pub proof fn law_a_line_is_read_left_to_right(boxes: Vec<Quad>, r: Vec<Quad>, i: int)
    requires
        call_ensures(sort_boxes, (boxes,), r),
        0 <= i,
        i + 1 < r@.len(),
        one_line(r@[i][0].1@, r@[i + 1][0].1@),
    ensures
        !r@[i + 1][0].0@.less(r@[i][0].0@),
        r@[i][0].0@ is Fin && r@[i + 1][0].0@ is Fin ==> r@[i][0].0@->Fin_0 <= r@[i
            + 1][0].0@->Fin_0,
{
    let s = r@;
    let j = i + 1;
    law_reading_order_runs_left_to_right(boxes@);
    assert(!Rule::Beside.before(s[j], s[i]));
    if let (Val::Fin(a), Val::Fin(b)) = (s[j][0].1@, s[i][0].1@) {
        lemma_one_line(a, b);
    }
}

/// Two boxes come out with the left one first, unless one is
/// ten pixels or more above the other: that one comes first. Nothing else decides.
pub proof fn law_two_boxes_are_ordered(boxes: Vec<Quad>, r: Vec<Quad>, a: Quad, b: Quad)
    requires
        call_ensures(sort_boxes, (boxes,), r),
        boxes@ == seq![a, b] || boxes@ == seq![b, a],
        placed(a),
        placed(b),
        ten_above(a, b) || (one_line(a[0].1@, b[0].1@) && a[0].0@.less(b[0].0@)),
    ensures
        r@ == seq![a, b],
{
    broadcast use vstd::seq_lib::group_to_multiset_ensures;

    let s = boxes@;
    assert forall|i: int| 0 <= i < s.len() implies placed(#[trigger] s[i]) by {}
    law_reading_order_keeps_boxes(s);
    s.to_multiset_ensures();
    r@.to_multiset_ensures();
    assert(r@.len() == 2);
    assert(s.contains(a) && s.contains(b)) by {
        assert(s[0] == a || s[0] == b);
        assert(s[1] == a || s[1] == b);
        assert(s[0] != s[1] || a == b);
    }
    assert(s.to_multiset().count(a) > 0 && s.to_multiset().count(b) > 0);
    assert(r@.contains(a) && r@.contains(b));
    law_lines_are_read_top_to_bottom(s);
    let t = r@;
    if a == b {
        assert(t[0] == a && t[1] == a) by {
            assert(t.contains(t[0]) && t.contains(t[1]));
            assert(s.contains(t[0]) && s.contains(t[1]));
        }
        assert(t =~= seq![a, b]);
    } else if t[0] == b {
        assert(t[1] == a);
        if ten_above(a, b) {
            assert(!ten_above(t[1], t[0]));
        } else {
            law_a_line_is_read_left_to_right(boxes, r, 0);
        }
        assert(false);
    } else {
        assert(t[0] == a) by {
            assert(t.contains(t[0]));
            assert(s.contains(t[0]));
        }
        assert(t[1] == b);
        assert(t =~= seq![a, b]);
    }
}

/// The coordinate of corner `i`: its column, or its row.
pub open spec fn coordinate(q: Quad, i: int, row: bool) -> Val {
    if row {
        q@[i].1@
    } else {
        q@[i].0@
    }
}

/// `lo` and `hi` are the least and the greatest of the corners' coordinates, without
/// their fractions.
pub open spec fn are_ends(q: Quad, row: bool, lo: int, hi: int) -> bool {
    &&& forall|i: int|
        0 <= i < 4 ==> (#[trigger] coordinate(q, i, row) matches Val::Fin(x) && lo as real <= x && x
            < (hi + 1) as real)
    &&& exists|i: int|
        0 <= i < 4 && (#[trigger] coordinate(q, i, row) matches Val::Fin(x) && x < (lo + 1) as real)
    &&& exists|i: int|
        0 <= i < 4 && (#[trigger] coordinate(q, i, row) matches Val::Fin(x) && hi as real <= x)
}

proof fn lemma_ends(q: Quad, row: bool, a: real, b: real, c: real, d: real)
    requires
        coordinate(q, 0, row) == Val::Fin(a),
        coordinate(q, 1, row) == Val::Fin(b),
        coordinate(q, 2, row) == Val::Fin(c),
        coordinate(q, 3, row) == Val::Fin(d),
        0real <= a < 0x7fff_ffffreal,
        0real <= b < 0x7fff_ffffreal,
        0real <= c < 0x7fff_ffffreal,
        0real <= d < 0x7fff_ffffreal,
    ensures
        are_ends(
            q,
            row,
            pixel(least_of(Val::Fin(a), Val::Fin(b), Val::Fin(c), Val::Fin(d))),
            pixel(greatest_of(Val::Fin(a), Val::Fin(b), Val::Fin(c), Val::Fin(d))),
        ),
{
    let low = least_of(Val::Fin(a), Val::Fin(b), Val::Fin(c), Val::Fin(d))->Fin_0;
    let top = greatest_of(Val::Fin(a), Val::Fin(b), Val::Fin(c), Val::Fin(d))->Fin_0;
    let (lo, hi) = (low.floor(), top.floor());
    assert(low <= a && low <= b && low <= c && low <= d);
    assert(top >= a && top >= b && top >= c && top >= d);
    assert(lo as real <= low && low < (lo + 1) as real);
    assert(hi as real <= top && top < (hi + 1) as real);
    assert(pixel(Val::Fin(low)) == lo && pixel(Val::Fin(top)) == hi);
    assert forall|i: int| 0 <= i < 4 implies (#[trigger] coordinate(q, i, row) matches Val::Fin(x)
        && lo as real <= x && x < (hi + 1) as real) by {
        assert(i == 0 || i == 1 || i == 2 || i == 3);
    }
    let k = if low == a {
        0
    } else if low == b {
        1
    } else if low == c {
        2
    } else {
        3int
    };
    assert(coordinate(q, k, row) == Val::Fin(low));
    let m = if top == a {
        0
    } else if top == b {
        1
    } else if top == c {
        2
    } else {
        3int
    };
    assert(coordinate(q, m, row) == Val::Fin(top));
}

/// The bounds `r` go round the corners of `q`, and no pixel farther: left and right are
/// its least and greatest column, top and bottom its least and greatest row.
pub open spec fn goes_round(r: [i32; 4], q: Quad) -> bool {
    are_ends(q, false, r@[0] as int, r@[2] as int) && are_ends(q, true, r@[1] as int, r@[3] as int)
}

/// The corners have coordinates that are not negative, and that 32 bits hold.
pub open spec fn is_in_reach(q: Quad) -> bool {
    forall|i: int, row: bool|
        0 <= i < 4 ==> (#[trigger] coordinate(q, i, row) matches Val::Fin(x) && 0real <= x && x
            < 0x7fff_ffffreal)
}

pub proof fn lemma_goes_round(q: &Quad, r: [i32; 4])
    requires
        are(r, bounds(*q)),
        is_in_reach(*q),
    ensures
        goes_round(r, *q),
{
    let s = bounds(*q);
    assert(r@[0] == s[0] && r@[1] == s[1] && r@[2] == s[2] && r@[3] == s[3]);
    assert(q@[0] == q[0] && q@[1] == q[1] && q@[2] == q[2] && q@[3] == q[3]);
    lemma_ends(
        *q,
        false,
        coordinate(*q, 0, false)->Fin_0,
        coordinate(*q, 1, false)->Fin_0,
        coordinate(*q, 2, false)->Fin_0,
        coordinate(*q, 3, false)->Fin_0,
    );
    lemma_ends(
        *q,
        true,
        coordinate(*q, 0, true)->Fin_0,
        coordinate(*q, 1, true)->Fin_0,
        coordinate(*q, 2, true)->Fin_0,
        coordinate(*q, 3, true)->Fin_0,
    );
}

/// The bounds of a box go round it.
pub proof fn law_bounds_go_round_the_box(q: &Quad, r: [i32; 4])
    requires
        call_ensures(quad_to_box4, (q,), r),
        is_in_reach(*q),
    ensures
        goes_round(r, *q),
{
    lemma_goes_round(q, r);
}

} // verus!
