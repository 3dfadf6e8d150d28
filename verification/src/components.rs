//! Connected regions of a binary map.

use crate::float::model;
use crate::float::model::Format;
use crate::float::F64;
use vstd::arithmetic::div_mod::*;
use vstd::prelude::*;
use vstd::set_lib::*;

verus! {

/// Pixel `p` of the map, counted row by row, is foreground.
pub open spec fn on(map: Seq<u8>, p: int) -> bool {
    0 <= p < map.len() && map[p] != 0
}

/// Two pixels of rows of length `w` touch, sideways, up and down or diagonally.
pub open spec fn near(w: int, p: int, q: int) -> bool {
    -1 <= p % w - q % w <= 1 && -1 <= p / w - q / w <= 1
}

/// A walk over foreground pixels, each of which touches the next.
pub open spec fn is_path(map: Seq<u8>, w: int, path: Seq<int>) -> bool {
    &&& path.len() > 0
    &&& forall|i: int| 0 <= i < path.len() ==> on(map, #[trigger] path[i])
    &&& forall|i: int, j: int|
        0 <= i && j == i + 1 && j < path.len() ==> near(w, #[trigger] path[i], #[trigger] path[j])
}

/// The path leads from `p` to `q`.
pub open spec fn joins(map: Seq<u8>, w: int, path: Seq<int>, p: int, q: int) -> bool {
    is_path(map, w, path) && path[0] == p && path.last() == q
}

/// Some walk leads from `p` to `q`.
pub open spec fn linked(map: Seq<u8>, w: int, p: int, q: int) -> bool {
    exists|path: Seq<int>| #[trigger] joins(map, w, path, p, q)
}

/// The region of pixel `p`: all that can be reached from it.
pub open spec fn region(map: Seq<u8>, w: int, p: int) -> Set<int> {
    Set::new(|q: int| linked(map, w, p, q))
}

/// `p` is the first pixel of its region, row by row.
pub open spec fn leads(map: Seq<u8>, w: int, p: int) -> bool {
    on(map, p) && forall|q: int| linked(map, w, p, q) ==> p <= q
}

/// `p` ends a horizontal run of foreground pixels, on either side.
pub open spec fn run_end(map: Seq<u8>, w: int, p: int) -> bool {
    p % w == 0 || !on(map, p - 1) || p % w == w - 1 || !on(map, p + 1)
}

/// The points, as column and row, are the ends of all runs of the region, each
/// of them once.
pub open spec fn lists_ends(
    points: Seq<(usize, usize)>,
    map: Seq<u8>,
    w: int,
    area: Set<int>,
) -> bool {
    &&& points.no_duplicates()
    &&& forall|x: usize, y: usize| #[trigger]
        points.contains((x, y)) <==> x < w && area.contains(y * w + x) && run_end(
            map,
            w,
            y * w + x,
        )
}

/// The first pixels below `k` of the regions of at least four pixels, in order.
pub open spec fn large_upto(map: Seq<u8>, w: int, k: int) -> Seq<int>
    decreases k,
{
    if k <= 0 {
        Seq::empty()
    } else {
        let rest = large_upto(map, w, k - 1);
        if leads(map, w, k - 1) && region(map, w, k - 1).len() >= 4 {
            rest.push(k - 1)
        } else {
            rest
        }
    }
}

/// Pixel `p` belongs to a region that is taken out when `limit` regions are
/// wanted: fewer large ones than that come before it.
pub open spec fn taken(map: Seq<u8>, w: int, limit: int, p: int) -> bool {
    exists|s: int|
        #![trigger leads(map, w, s)]
        leads(map, w, s) && linked(map, w, s, p) && large_upto(map, w, s).len() < limit
}

/// The first pixel of the run of `p` in its row of length `w`.
pub open spec fn left_of(map: Seq<u8>, w: int, p: int) -> int
    decreases p,
{
    if p <= 0 || p % w == 0 || !on(map, p - 1) {
        p
    } else {
        left_of(map, w, p - 1)
    }
}

/// The last pixel of the run of `p` in its row of length `w`.
pub open spec fn right_of(map: Seq<u8>, w: int, p: int) -> int
    decreases map.len() - p,
{
    if p % w == w - 1 || !on(map, p + 1) {
        p
    } else {
        right_of(map, w, p + 1)
    }
}

/// The pixels from `a` to below `n` at which a stretch of foreground starts.
pub open spec fn starts(map: Seq<u8>, a: int, n: int) -> Seq<usize>
    decreases n - a,
{
    if n <= a {
        Seq::empty()
    } else {
        let rest = starts(map, a, n - 1);
        if on(map, n - 1) && (n - 1 == a || !on(map, n - 2)) {
            rest.push((n - 1) as usize)
        } else {
            rest
        }
    }
}

/// The first pixels of the stretches beside the columns `left` to `right` of row
/// `y`: those of the row above, then those of the row below.
pub open spec fn beside(
    map: Seq<u8>,
    w: int,
    h: int,
    y: int,
    left: int,
    right: int,
) -> Seq<usize> {
    let lo = if left > 0 {
        left - 1
    } else {
        0
    };
    let hi = if right + 1 < w {
        right + 1
    } else {
        w - 1
    };
    let above = if y > 0 {
        starts(map, (y - 1) * w + lo, (y - 1) * w + hi + 1)
    } else {
        Seq::empty()
    };
    let below = if y + 1 < h {
        starts(map, (y + 1) * w + lo, (y + 1) * w + hi + 1)
    } else {
        Seq::empty()
    };
    above + below
}

/// The map without the pixels from `a` to `b`.
pub open spec fn cleared(map: Seq<u8>, a: int, b: int) -> Seq<u8> {
    Seq::new(
        map.len(),
        |p: int|
            if a <= p <= b {
                0
            } else {
                map[p]
            },
    )
}

/// The ends of a run of row `y`: one point where it is one pixel.
pub open spec fn run_points(y: int, left: int, right: int) -> Seq<(usize, usize)> {
    if left == right {
        seq![(left as usize, y as usize)]
    } else {
        seq![(left as usize, y as usize), (right as usize, y as usize)]
    }
}

/// A region while its runs are gathered: what is left of the map, the pixels whose
/// runs are still to be gathered, and the ends of those that have been.
pub ghost struct Walk {
    pub map: Seq<u8>,
    pub stack: Seq<usize>,
    pub points: Seq<(usize, usize)>,
}

impl Walk {
    /// One step: the last pixel of the stack is taken off; unless its run is gone
    /// already, the run is gathered and the stretches beside it are put on.
    pub open spec fn next(self, w: int, h: int) -> Walk {
        if self.stack.len() == 0 {
            self
        } else {
            let at = self.stack.last() as int;
            let rest = self.stack.drop_last();
            if self.map[at] == 0 {
                Walk { map: self.map, stack: rest, points: self.points }
            } else {
                let y = at / w;
                let a = left_of(self.map, w, at);
                let b = right_of(self.map, w, at);
                let map = cleared(self.map, a, b);
                Walk {
                    map,
                    stack: rest + beside(map, w, h, y, a - y * w, b - y * w),
                    points: self.points + run_points(y, a - y * w, b - y * w),
                }
            }
        }
    }

    /// After `n` steps.
    pub open spec fn after(self, w: int, h: int, n: nat) -> Walk
        decreases n,
    {
        if n == 0 {
            self
        } else {
            self.after(w, h, (n - 1) as nat).next(w, h)
        }
    }

    /// At the start, when only pixel `seed` is known.
    pub open spec fn from(map: Seq<u8>, seed: int) -> Walk {
        Walk { map, stack: seq![seed as usize], points: Seq::empty() }
    }
}

/// The points are the ends of the runs of the region of `seed`, in the order in
/// which the runs are gathered.
pub open spec fn in_walk_order(
    points: Seq<(usize, usize)>,
    map: Seq<u8>,
    w: int,
    h: int,
    seed: int,
) -> bool {
    exists|n: nat|
        (#[trigger] Walk::from(map, seed).after(w, h, n)).stack.len() == 0 && points
            == Walk::from(map, seed).after(w, h, n).points
}

/// The map without the regions whose first pixel is before `s`.
pub open spec fn map_from(map: Seq<u8>, w: int, s: int) -> Seq<u8> {
    Seq::new(
        map.len(),
        |p: int|
            if exists|t: int| #![trigger leads(map, w, t)]
                t < s && leads(map, w, t) && linked(map, w, t, p) {
                0
            } else {
                map[p]
            },
    )
}

/// A point of the plane.
pub type Pt = (F64, F64);

/// The points have the columns and rows as coordinates.
pub open spec fn draws(points: Seq<Pt>, cells: Seq<(usize, usize)>) -> bool {
    &&& points.len() == cells.len()
    &&& forall|j: int|
        0 <= j < cells.len() ==> (#[trigger] points[j]).0@ == model::nearest(
            Format::Double,
            cells[j].0 as real,
        ) && points[j].1@ == model::nearest(Format::Double, cells[j].1 as real)
}

/// The points are the ends of all runs of the region of `s`, each of them once, in
/// the order in which the runs are gathered.
pub open spec fn outlines(points: Seq<Pt>, map: Seq<u8>, w: int, h: int, s: int) -> bool {
    exists|cells: Seq<(usize, usize)>| #[trigger]
        draws(points, cells) && lists_ends(cells, map, w, region(map, w, s)) && in_walk_order(
            cells,
            map_from(map, w, s),
            w,
            h,
            s,
        )
}

// ---- walks ----

pub proof fn lemma_linked_self(map: Seq<u8>, w: int, p: int)
    requires
        on(map, p),
    ensures
        linked(map, w, p, p),
{
    assert(joins(map, w, seq![p], p, p));
}

pub proof fn lemma_linked_on(map: Seq<u8>, w: int, p: int, q: int)
    requires
        linked(map, w, p, q),
    ensures
        on(map, p),
        on(map, q),
{
}

/// Walks can be joined.
pub proof fn lemma_linked_trans(map: Seq<u8>, w: int, p: int, q: int, r: int)
    requires
        linked(map, w, p, q),
        linked(map, w, q, r),
    ensures
        linked(map, w, p, r),
{
    let a = choose|path: Seq<int>| #[trigger] joins(map, w, path, p, q);
    let b = choose|path: Seq<int>| #[trigger] joins(map, w, path, q, r);
    let c = a + b.subrange(1, b.len() as int);
    assert forall|i: int, j: int| 0 <= i && j == i + 1 && j < c.len() implies near(
        w,
        #[trigger] c[i],
        #[trigger] c[j],
    ) by {
        if j < a.len() {
            assert(near(w, a[i], a[j]));
        } else {
            let k = i - a.len() + 1;
            assert(c[i] == b[k]);
            assert(c[j] == b[k + 1]);
            assert(near(w, b[k], b[k + 1]));
        }
    }
    assert(c.last() == r);
    assert(joins(map, w, c, p, r));
}

/// Walks can be walked back.
pub proof fn lemma_linked_sym(map: Seq<u8>, w: int, p: int, q: int)
    requires
        linked(map, w, p, q),
    ensures
        linked(map, w, q, p),
{
    let a = choose|path: Seq<int>| #[trigger] joins(map, w, path, p, q);
    let b = a.reverse();
    assert forall|i: int, j: int| 0 <= i && j == i + 1 && j < b.len() implies near(
        w,
        #[trigger] b[i],
        #[trigger] b[j],
    ) by {
        assert(b[i] == a[a.len() - 1 - i]);
        assert(b[j] == a[a.len() - 1 - j]);
        assert(near(w, a[a.len() - 1 - j], a[a.len() - 1 - i]));
    }
    assert(joins(map, w, b, q, p));
}

pub proof fn lemma_linked_step(map: Seq<u8>, w: int, p: int, q: int, r: int)
    requires
        linked(map, w, p, q),
        on(map, r),
        near(w, q, r),
    ensures
        linked(map, w, p, r),
{
    let step = seq![q, r];
    lemma_linked_on(map, w, p, q);
    assert(joins(map, w, step, q, r));
    lemma_linked_trans(map, w, p, q, r);
}

/// A set that holds `p` and with each pixel its foreground neighbours holds the
/// whole region of `p`.
proof fn lemma_closed_covers(map: Seq<u8>, w: int, p: int, q: int, s: Set<int>)
    requires
        s.contains(p),
        forall|a: int, b: int|
            s.contains(a) && on(map, b) && #[trigger] near(w, a, b) ==> s.contains(b),
        linked(map, w, p, q),
    ensures
        s.contains(q),
{
    let path = choose|path: Seq<int>| #[trigger] joins(map, w, path, p, q);
    lemma_path_inside(map, w, path, s, path.len() - 1);
}

proof fn lemma_path_inside(map: Seq<u8>, w: int, path: Seq<int>, s: Set<int>, i: int)
    requires
        is_path(map, w, path),
        s.contains(path[0]),
        forall|a: int, b: int|
            s.contains(a) && on(map, b) && #[trigger] near(w, a, b) ==> s.contains(b),
        0 <= i < path.len(),
    ensures
        s.contains(path[i]),
    decreases i,
{
    if i > 0 {
        lemma_path_inside(map, w, path, s, i - 1);
        assert(near(w, path[i - 1], path[i]));
    }
}

/// Every region has a first pixel.
proof fn lemma_leader(map: Seq<u8>, w: int, p: int, q: int) -> (t: int)
    requires
        linked(map, w, p, q),
    ensures
        t <= q,
        linked(map, w, t, p),
        leads(map, w, t),
    decreases q,
{
    lemma_linked_on(map, w, p, q);
    if forall|r: int| linked(map, w, p, r) ==> q <= r {
        lemma_linked_sym(map, w, p, q);
        assert forall|r: int| linked(map, w, q, r) implies q <= r by {
            lemma_linked_trans(map, w, p, q, r);
        }
        q
    } else {
        let r = choose|r: int| linked(map, w, p, r) && !(q <= r);
        lemma_linked_on(map, w, p, r);
        lemma_leader(map, w, p, r)
    }
}

// ---- pixels ----

pub proof fn lemma_pixel(w: int, x: int, y: int)
    requires
        0 <= x < w,
    ensures
        (y * w + x) / w == y,
        (y * w + x) % w == x,
{
    lemma_fundamental_div_mod_converse(y * w + x, w, y, x);
}

pub proof fn lemma_pixel_of(w: int, p: int)
    requires
        w > 0,
    ensures
        0 <= p % w < w,
        (p / w) * w + p % w == p,
{
    lemma_fundamental_div_mod(p, w);
    assert(w * (p / w) == (p / w) * w) by (nonlinear_arith);
}

proof fn lemma_in_map(w: int, h: int, x: int, y: int)
    requires
        0 <= x < w,
        0 <= y < h,
    ensures
        0 <= y * w + x < w * h,
        0 <= y * w,
{
    assert(0 <= y * w && y * w + x < w * h) by (nonlinear_arith)
        requires
            0 <= x < w,
            0 <= y,
            y + 1 <= h,
    ;
}

/// Pixels `p` and `q` lie in one horizontal run of foreground pixels.
spec fn same_run(map: Seq<u8>, w: int, p: int, q: int) -> bool {
    &&& p / w == q / w
    &&& forall|r: int| (p <= r <= q || q <= r <= p) ==> #[trigger] on(map, r)
}

/// The map `cur` is `map` with the pixels of `gone` taken out.
spec fn without(cur: Seq<u8>, map: Seq<u8>, gone: Set<int>) -> bool {
    &&& cur.len() == map.len()
    &&& forall|p: int|
        0 <= p < map.len() ==> #[trigger] cur[p] == if gone.contains(p) {
            0
        } else {
            map[p]
        }
}

/// The set holds a run whole or not at all.
spec fn whole_runs(map: Seq<u8>, w: int, gone: Set<int>) -> bool {
    forall|p: int, q: int|
        q == p + 1 && on(map, p) && on(map, q) && p / w == q / w ==> (#[trigger] gone.contains(p)
            <==> #[trigger] gone.contains(q))
}

/// The columns from `left` to `right` of the run that holds column `x` of row `y`.
fn run_bounds(cur: &Vec<u8>, w: usize, h: usize, x: usize, y: usize) -> (r: (usize, usize))
    requires
        cur@.len() == w * h,
        x < w,
        y < h,
        cur@[y * w + x] != 0,
    ensures
        r.0 <= x <= r.1 < w,
        forall|p: int| y * w + r.0 <= p <= y * w + r.1 ==> #[trigger] on(cur@, p),
        r.0 == 0 || !on(cur@, y * w + r.0 - 1),
        r.1 == w - 1 || !on(cur@, y * w + r.1 + 1),
{
    proof {
        lemma_in_map(w as int, h as int, x as int, y as int);
    }
    let size: usize = cur.len();
    let row: usize = y * w;
    let mut left: usize = x;
    let mut right: usize = x;
    while left > 0 && cur[row + left - 1] != 0
        invariant
            left <= x < w,
            row == y * w,
            row + x < cur@.len(),
            cur@.len() == size,
            forall|p: int| row + left <= p <= row + x ==> #[trigger] on(cur@, p),
        decreases left,
    {
        left = left - 1;
    }
    proof {
        lemma_in_map(w as int, h as int, w - 1, y as int);
    }
    while right + 1 < w && cur[row + right + 1] != 0
        invariant
            x <= right < w,
            row == y * w,
            row + w - 1 < cur@.len(),
            cur@.len() == size,
            forall|p: int| row + x <= p <= row + right ==> #[trigger] on(cur@, p),
        decreases w - right,
    {
        right = right + 1;
    }
    (left, right)
}

proof fn lemma_left_of(map: Seq<u8>, w: int, p: int, l: int)
    requires
        w > 0,
        0 <= l <= p,
        p - l <= p % w,
        forall|q: int| l <= q <= p ==> #[trigger] on(map, q),
        l % w == 0 || !on(map, l - 1),
    ensures
        left_of(map, w, p) == l,
    decreases p - l,
{
    if l < p {
        assert(p % w > 0);
        lemma_pixel_of(w, p);
        lemma_pixel(w, p % w - 1, p / w);
        assert(on(map, p - 1));
        lemma_left_of(map, w, p - 1, l);
    }
}

proof fn lemma_right_of(map: Seq<u8>, w: int, p: int, r: int)
    requires
        w > 0,
        0 <= p <= r,
        r - p <= w - 1 - p % w,
        forall|q: int| p <= q <= r ==> #[trigger] on(map, q),
        r % w == w - 1 || !on(map, r + 1),
    ensures
        right_of(map, w, p) == r,
    decreases r - p,
{
    if p < r {
        lemma_pixel_of(w, p);
        lemma_pixel(w, p % w + 1, p / w);
        assert(on(map, p + 1));
        lemma_right_of(map, w, p + 1, r);
    }
}

/// The stack `after` is `before` and one pixel of each stretch of foreground of
/// row `y`, between the columns `lo` and `hi`.
#[verifier::opaque]
spec fn row_scan(
    w: int,
    cur: Seq<u8>,
    before: Seq<usize>,
    after: Seq<usize>,
    y: int,
    lo: int,
    hi: int,
) -> bool {
    &&& before.len() <= after.len()
    &&& forall|i: int| 0 <= i < before.len() ==> after[i] == before[i]
    &&& forall|i: int|
        before.len() <= i < after.len() ==> y * w + lo <= #[trigger] after[i] <= y * w + hi && on(
            cur,
            after[i] as int,
        )
    &&& forall|q: int|
        y * w + lo <= q <= y * w + hi && #[trigger] on(cur, q) ==> exists|i: int|
            before.len() <= i < after.len() && #[trigger] after[i] <= q && (forall|r: int|
                after[i] <= r <= q ==> #[trigger] on(cur, r))
}

/// Puts one pixel of each stretch of foreground of row `y`, between the columns
/// `lo` and `hi`, on the stack.
fn scan_row(cur: &Vec<u8>, w: usize, y: usize, lo: usize, hi: usize, stack: &mut Vec<usize>)
    requires
        lo <= hi < w,
        y * w + hi < cur@.len(),
    ensures
        row_scan(
            w as int,
            cur@,
            old(stack)@,
            final(stack)@,
            y as int,
            lo as int,
            hi as int,
        ),
        final(stack)@ == old(stack)@ + starts(cur@, y * w + lo, y * w + hi + 1),
{
    let ghost base = stack@.len() as int;
    let ghost start = stack@;
    proof {
        assert(y * w >= 0) by (nonlinear_arith)
            requires
                y >= 0,
                w >= 0,
        ;
    }
    let size: usize = cur.len();
    let row: usize = y * w;
    let mut nx: usize = lo;
    while nx <= hi
        invariant
            lo <= nx <= hi + 1,
            hi < w,
            row == y * w,
            row + hi < cur@.len(),
            cur@.len() == size,
            base <= stack@.len(),
            base == start.len(),
            stack@ == start + starts(cur@, row + lo, row + nx),
            nx <= hi && on(cur@, row + nx) ==> nx == lo || !on(cur@, row + nx - 1),
            forall|i: int| 0 <= i < base ==> stack@[i] == start[i],
            forall|i: int|
                base <= i < stack@.len() ==> row + lo <= #[trigger] stack@[i] <= row + hi && on(
                    cur@,
                    stack@[i] as int,
                ),
            forall|q: int|
                row + lo <= q < row + nx && #[trigger] on(cur@, q) ==> exists|i: int|
                    base <= i < stack@.len() && #[trigger] stack@[i] <= q && (forall|r: int|
                        stack@[i] <= r <= q ==> #[trigger] on(cur@, r)),
        decreases hi + 1 - nx,
    {
        if cur[row + nx] != 0 {
            let ghost before = stack@;
            let ghost first = nx;
            stack.push(row + nx);
            proof {
                let found = starts(cur@, row + lo, row + nx);
                assert(on(cur@, row + nx));
                assert(stack@ =~= start + found.push((row + nx) as usize));
            }
            // One pixel per stretch; the rest of it is claimed with that one.
            while nx <= hi && cur[row + nx] != 0
                invariant
                    lo <= first <= nx <= hi + 1,
                    first < nx || cur@[row + nx] != 0,
                    hi < w,
                    row + hi < cur@.len(),
                    cur@.len() == size,
                    forall|r: int| row + first <= r < row + nx ==> #[trigger] on(cur@, r),
                    stack@ == start + starts(
                        cur@,
                        row + lo,
                        if nx > first {
                            row + nx
                        } else {
                            row + first + 1
                        },
                    ),
                decreases hi + 1 - nx,
            {
                proof {
                    assert(on(cur@, row + nx));
                    if nx > first {
                        assert(on(cur@, row + nx - 1));
                    }
                }
                nx = nx + 1;
            }
            proof {
                assert forall|q: int| row + lo <= q < row + nx && #[trigger] on(cur@, q) implies exists|
                    i: int,
                |
                    base <= i < stack@.len() && #[trigger] stack@[i] <= q && (forall|r: int|
                        stack@[i] <= r <= q ==> #[trigger] on(cur@, r)) by {
                    if q < row + first {
                        let i = choose|i: int|
                            base <= i < before.len() && #[trigger] before[i] <= q && (forall|r: int|
                                before[i] <= r <= q ==> #[trigger] on(cur@, r));
                        assert(stack@[i] == before[i]);
                    } else {
                        assert(stack@[before.len() as int] == row + first);
                    }
                }
            }
        } else {
            nx = nx + 1;
        }
    }
    proof {
        reveal(row_scan);
    }
}

/// Pixels of one run are linked.
proof fn lemma_run_linked(map: Seq<u8>, w: int, s: int, p: int, q: int)
    requires
        w > 0,
        linked(map, w, s, p),
        same_run(map, w, p, q),
    ensures
        linked(map, w, s, q),
    decreases (if p <= q { q - p } else { p - q }),
{
    if p != q {
        let r = if p < q {
            q - 1
        } else {
            q + 1
        };
        lemma_between_rows(w, p, q, r);
        assert(on(map, r) && on(map, q));
        lemma_run_linked(map, w, s, p, r);
        lemma_same_row_columns(w, r, q);
        lemma_linked_step(map, w, s, r, q);
    }
}

/// A pixel between two pixels of a row is in that row.
proof fn lemma_between_rows(w: int, p: int, q: int, r: int)
    requires
        w > 0,
        p / w == q / w,
        p <= r <= q || q <= r <= p,
    ensures
        r / w == p / w,
{
    if p <= q {
        lemma_div_is_ordered(p, r, w);
        lemma_div_is_ordered(r, q, w);
    } else {
        lemma_div_is_ordered(q, r, w);
        lemma_div_is_ordered(r, p, w);
    }
}

proof fn lemma_same_row_columns(w: int, p: int, q: int)
    requires
        w > 0,
        p / w == q / w,
    ensures
        p % w - q % w == p - q,
{
    lemma_fundamental_div_mod(p, w);
    lemma_fundamental_div_mod(q, w);
}

/// What a fill has done so far: `seen` are the pixels it has claimed.
spec fn fill_state(
    map: Seq<u8>,
    w: int,
    seed: int,
    done: Set<int>,
    seen: Set<int>,
    cur: Seq<u8>,
    stack: Seq<usize>,
) -> bool {
    &&& without(cur, map, done.union(seen))
    &&& whole_runs(map, w, done.union(seen))
    &&& seen.finite()
    &&& forall|p: int| #[trigger] seen.contains(p) ==> linked(map, w, seed, p)
    &&& forall|i: int| 0 <= i < stack.len() ==> linked(map, w, seed, #[trigger] stack[i] as int)
    &&& forall|p: int, q: int|
        seen.contains(p) && on(map, q) && #[trigger] near(w, p, q) && !seen.contains(q)
            ==> waits(map, w, stack, q)
    &&& seen.contains(seed) || waits(map, w, stack, seed)
}

/// The run of `q` waits on the stack.
spec fn waits(map: Seq<u8>, w: int, stack: Seq<usize>, q: int) -> bool {
    exists|i: int| 0 <= i < stack.len() && same_run(map, w, #[trigger] stack[i] as int, q)
}

/// The pixels of a row from column `left` to column `right`.
spec fn span(row: int, left: int, right: int) -> Set<int> {
    set_int_range(row + left, row + right + 1)
}

/// A run of the current map is a run of the whole map.
proof fn lemma_run_exact(
    map: Seq<u8>,
    w: int,
    gone: Set<int>,
    cur: Seq<u8>,
    y: int,
    left: int,
    right: int,
)
    requires
        0 <= left <= right < w,
        0 <= y,
        y * w + right < map.len(),
        without(cur, map, gone),
        whole_runs(map, w, gone),
        forall|p: int| y * w + left <= p <= y * w + right ==> #[trigger] on(cur, p),
        left == 0 || !on(cur, y * w + left - 1),
        right == w - 1 || !on(cur, y * w + right + 1),
    ensures
        forall|p: int|
            y * w + left <= p <= y * w + right ==> #[trigger] on(map, p) && !gone.contains(p) && p
                / w == y && p % w == p - y * w,
        left == 0 || !on(map, y * w + left - 1),
        right == w - 1 || !on(map, y * w + right + 1),
{
    let row = y * w;
    assert(row >= 0) by (nonlinear_arith)
        requires
            row == y * w,
            y >= 0,
            w >= 0,
    ;
    assert forall|p: int| row + left <= p <= row + right implies #[trigger] on(map, p)
        && !gone.contains(p) && p / w == y && p % w == p - row by {
        assert(on(cur, p));
        lemma_pixel(w, p - row, y);
    }
    if left > 0 && on(map, row + left - 1) {
        lemma_pixel(w, left - 1, y);
        lemma_pixel(w, left, y);
        let a = row + left - 1;
        let b = row + left;
        assert(on(map, b));
        assert(cur[a] == 0);
        assert(gone.contains(a));
        assert(gone.contains(b));
    }
    if right < w - 1 && on(map, row + right + 1) {
        lemma_pixel(w, right + 1, y);
        lemma_pixel(w, right, y);
        let a = row + right;
        let b = row + right + 1;
        assert(on(map, a));
        assert(cur[b] == 0);
        assert(gone.contains(b));
        assert(gone.contains(a));
    }
}

/// What shares a run with a pixel of the span lies in the span.
proof fn lemma_span_holds_run(map: Seq<u8>, w: int, y: int, left: int, right: int, p: int, q: int)
    requires
        0 <= left <= right < w,
        left == 0 || !on(map, y * w + left - 1),
        right == w - 1 || !on(map, y * w + right + 1),
        y * w + left <= p <= y * w + right,
        same_run(map, w, p, q) || same_run(map, w, q, p),
    ensures
        y * w + left <= q <= y * w + right,
{
    let row = y * w;
    lemma_pixel(w, p - row, y);
    lemma_pixel_of(w, q);
    assert(q / w == y);
    assert(q == row + q % w);
    if q < row + left {
        assert(on(map, row + left - 1));
    }
    if q > row + right {
        assert(on(map, row + right + 1));
    }
}

proof fn lemma_claim_runs(map: Seq<u8>, w: int, gone: Set<int>, y: int, left: int, right: int)
    requires
        0 <= left <= right < w,
        whole_runs(map, w, gone),
        left == 0 || !on(map, y * w + left - 1),
        right == w - 1 || !on(map, y * w + right + 1),
    ensures
        whole_runs(map, w, gone.union(span(y * w, left, right))),
{
    let more = gone.union(span(y * w, left, right));
    assert forall|p: int, q: int|
        q == p + 1 && on(map, p) && on(map, q) && p / w == q / w implies (#[trigger] more.contains(p)
        <==> #[trigger] more.contains(q)) by {
        assert(same_run(map, w, p, q)) by {
            assert forall|r: int| (p <= r <= q || q <= r <= p) implies #[trigger] on(map, r) by {
                assert(r == p || r == q);
            }
        }
        if span(y * w, left, right).contains(p) {
            lemma_span_holds_run(map, w, y, left, right, p, q);
        }
        if span(y * w, left, right).contains(q) {
            lemma_span_holds_run(map, w, y, left, right, q, p);
        }
        assert(gone.contains(p) <==> gone.contains(q));
    }
}

/// The ends of a claimed run join the listed points.
proof fn lemma_claim_ends(
    points: Seq<(usize, usize)>,
    map: Seq<u8>,
    w: int,
    seen: Set<int>,
    y: usize,
    left: usize,
    right: usize,
)
    requires
        lists_ends(points, map, w, seen),
        left <= right < w,
        forall|p: int|
            y * w + left <= p <= y * w + right ==> #[trigger] on(map, p) && !seen.contains(p),
        left == 0 || !on(map, y * w + left - 1),
        right == w - 1 || !on(map, y * w + right + 1),
    ensures
        ({
            let one = points.push((left, y));
            let two = if right != left {
                one.push((right, y))
            } else {
                one
            };
            lists_ends(two, map, w, seen.union(span(y * w, left as int, right as int)))
        }),
{
    let row = y * w;
    let area = seen.union(span(row, left as int, right as int));
    let one = points.push((left, y));
    let two = if right != left {
        one.push((right, y))
    } else {
        one
    };
    lemma_pixel(w, left as int, y as int);
    lemma_pixel(w, right as int, y as int);
    assert(on(map, row + left) && on(map, row + right));
    assert(!points.contains((left, y)));
    assert(!points.contains((right, y)));
    assert(two.no_duplicates()) by {
        assert forall|i: int, j: int| 0 <= i < j < two.len() implies two[i] != two[j] by {
            if j < points.len() {
            } else if i < points.len() {
                assert(points.contains(points[i]));
            }
        }
    }
    assert forall|a: usize, b: usize| #[trigger]
        two.contains((a, b)) <==> a < w && area.contains(b * w + a) && run_end(
            map,
            w,
            b * w + a,
        ) by {
        let p = b * w + a;
        // membership in the longer list
        assert(two.contains((a, b)) <==> points.contains((a, b)) || (a, b) == (left, y) || (a, b)
            == (right, y)) by {
            if points.contains((a, b)) {
                let i = choose|i: int| 0 <= i < points.len() && points[i] == (a, b);
                assert(two[i] == (a, b));
            }
            assert(two[points.len() as int] == (left, y));
            if right != left {
                assert(two[points.len() as int + 1] == (right, y));
            }
        }
        if a < w {
            lemma_pixel(w, a as int, b as int);
            if span(row, left as int, right as int).contains(p) {
                lemma_pixel(w, p - row, y as int);
                assert(b == y);
                assert(a == p - row);
                if left < a && a < right {
                    assert(on(map, p - 1) && on(map, p + 1));
                    assert(!run_end(map, w, p));
                } else {
                    assert(run_end(map, w, p));
                }
            } else if (a, b) == (left, y) || (a, b) == (right, y) {
                assert(false);
            }
        }
    }
}

/// The pixels waiting after a run of row `y` is claimed and the rows beside it
/// are scanned.
proof fn lemma_claim_frontier(
    map: Seq<u8>,
    w: int,
    h: int,
    seed: int,
    done: Set<int>,
    seen: Set<int>,
    cur: Seq<u8>,
    before: Seq<usize>,
    after: Seq<usize>,
    cleared: Seq<u8>,
    y: int,
    left: int,
    right: int,
)
    requires
        w > 0,
        map.len() == w * h,
        0 <= y < h,
        0 <= left <= right < w,
        before.len() > 0,
        fill_state(map, w, seed, done, seen, cur, before),
        forall|p: int| done.contains(p) ==> !linked(map, w, seed, p),
        y * w + left <= before.last() <= y * w + right,
        forall|p: int|
            y * w + left <= p <= y * w + right ==> #[trigger] on(map, p) && !done.union(
                seen,
            ).contains(p),
        left == 0 || !on(map, y * w + left - 1),
        right == w - 1 || !on(map, y * w + right + 1),
        without(cleared, map, done.union(seen.union(span(y * w, left, right)))),
        before.len() - 1 <= after.len(),
        forall|i: int| 0 <= i < before.len() - 1 ==> after[i] == before[i],
        forall|i: int|
            before.len() - 1 <= i < after.len() ==> pushed(
                w,
                cleared,
                y,
                left,
                right,
                #[trigger] after[i] as int,
            ),
        y > 0 ==> scanned(w, cleared, after, y - 1, left, right),
        y + 1 < h ==> scanned(w, cleared, after, y + 1, left, right),
    ensures
        fill_state(map, w, seed, done, seen.union(span(y * w, left, right)), cleared, after),
{
    let row = y * w;
    let run = span(row, left, right);
    let more = seen.union(run);
    let at = before.last() as int;
    assert(done.union(more) =~= done.union(seen).union(run));
    lemma_claim_runs(map, w, done.union(seen), y, left, right);
    lemma_int_range(row + left, row + right + 1);
    // the run is linked to the seed
    assert(linked(map, w, seed, before[before.len() - 1] as int));
    assert forall|p: int| row + left <= p <= row + right implies linked(map, w, seed, p) && p / w
        == y && p % w == p - row by {
        lemma_pixel(w, p - row, y);
        lemma_pixel(w, at - row, y);
        assert(same_run(map, w, at, p));
        lemma_run_linked(map, w, seed, at, p);
    }
    assert forall|p: int| #[trigger] more.contains(p) implies linked(map, w, seed, p) by {
        if run.contains(p) {
            assert(row + left <= p <= row + right);
        }
    }
    // so is what was pushed
    assert forall|i: int| 0 <= i < after.len() implies linked(map, w, seed, #[trigger] after[i] as int) by {
        let t = after[i] as int;
        if i < before.len() - 1 {
            assert(after[i] == before[i]);
        } else {
            assert(pushed(w, cleared, y, left, right, t));
            lemma_pixel_of(w, t);
            let c = if t % w < left {
                left
            } else if t % w > right {
                right
            } else {
                t % w
            };
            let r = row + c;
            assert(linked(map, w, seed, r));
            assert(near(w, r, t));
            assert(on(map, t));
            lemma_linked_step(map, w, seed, r, t);
        }
    }
    assert forall|p: int, q: int|
        more.contains(p) && on(map, q) && #[trigger] near(w, p, q) && !more.contains(q) implies waits(
        map,
        w,
        after,
        q,
    ) by {
        if seen.contains(p) {
            lemma_still_waits(map, w, before, after, y, left, right, q);
        } else {
            assert(row + left <= p <= row + right);
            lemma_linked_step(map, w, seed, p, q);
            assert(!done.contains(q));
            assert(on(cleared, q));
            lemma_pixel_of(w, q);
            let yq = q / w;
            if yq == y {
                // the neighbour in the row is in the run
                assert(same_run(map, w, p, q)) by {
                    assert forall|r: int| (p <= r <= q || q <= r <= p) implies #[trigger] on(
                        map,
                        r,
                    ) by {
                        assert(r == p || r == q);
                    }
                }
                lemma_span_holds_run(map, w, y, left, right, p, q);
                assert(false);
            } else {
                assert(0 <= yq < h) by (nonlinear_arith)
                    requires
                        q == yq * w + q % w,
                        0 <= q % w < w,
                        0 <= q < w * h,
                ;
                assert(scanned(w, cleared, after, yq, left, right));
                let c = q % w;
                assert(left - 1 <= c <= right + 1);
                let i = choose|i: int|
                    0 <= i < after.len() && after[i] as int / w == yq && #[trigger] after[i] <= q && (
                    forall|r: int| after[i] <= r <= q ==> #[trigger] on(cleared, r));
                assert(same_run(map, w, after[i] as int, q)) by {
                    assert forall|r: int| after[i] <= r <= q implies #[trigger] on(map, r) by {
                        assert(on(cleared, r));
                    }
                }
            }
        }
    }
    if !more.contains(seed) {
        lemma_still_waits(map, w, before, after, y, left, right, seed);
    }
}

/// A pixel that the rows beside a run of row `y` can put on the stack.
spec fn pushed(w: int, cur: Seq<u8>, y: int, left: int, right: int, t: int) -> bool {
    &&& on(cur, t)
    &&& t / w == y - 1 || t / w == y + 1
    &&& left - 1 <= t % w <= right + 1
}

/// All runs of row `y` that touch the columns `left - 1` to `right + 1` wait.
spec fn scanned(w: int, cur: Seq<u8>, stack: Seq<usize>, y: int, left: int, right: int) -> bool {
    forall|q: int| #[trigger]
        on(cur, q) && q / w == y && left - 1 <= q % w <= right + 1 ==> exists|i: int|
            0 <= i < stack.len() && stack[i] as int / w == y && #[trigger] stack[i] <= q && (forall|
                r: int,
            |
                stack[i] <= r <= q ==> #[trigger] on(cur, r))
}

proof fn lemma_still_waits(
    map: Seq<u8>,
    w: int,
    before: Seq<usize>,
    after: Seq<usize>,
    y: int,
    left: int,
    right: int,
    q: int,
)
    requires
        0 <= left <= right < w,
        left == 0 || !on(map, y * w + left - 1),
        right == w - 1 || !on(map, y * w + right + 1),
        before.len() > 0,
        y * w + left <= before.last() <= y * w + right,
        before.len() - 1 <= after.len(),
        forall|i: int| 0 <= i < before.len() - 1 ==> after[i] == before[i],
        waits(map, w, before, q),
        !span(y * w, left, right).contains(q),
    ensures
        waits(map, w, after, q),
{
    let i = choose|i: int|
        0 <= i < before.len() && same_run(map, w, #[trigger] before[i] as int, q);
    if i == before.len() - 1 {
        lemma_span_holds_run(map, w, y, left, right, before.last() as int, q);
    } else {
        assert(after[i] == before[i]);
    }
}

/// Takes the columns from `left` to `right` of row `y` out of the map.
fn clear_span(cur: &mut Vec<u8>, w: usize, y: usize, left: usize, right: usize)
    requires
        left <= right < w,
        y * w + right < old(cur)@.len(),
    ensures
        final(cur)@.len() == old(cur)@.len(),
        forall|p: int|
            0 <= p < old(cur)@.len() ==> #[trigger] final(cur)@[p] == if y * w + left <= p <= y * w
                + right {
                0
            } else {
                old(cur)@[p]
            },
{
    let ghost start = cur@;
    let size: usize = cur.len();
    proof {
        assert(y * w >= 0) by (nonlinear_arith)
            requires
                y >= 0,
                w >= 0,
        ;
    }
    let row: usize = y * w;
    let mut c: usize = left;
    while c <= right
        invariant
            left <= c <= right + 1,
            right < w,
            row == y * w,
            row + right < size,
            cur@.len() == size,
            start.len() == size,
            forall|p: int|
                0 <= p < size ==> #[trigger] cur@[p] == if row + left <= p < row + c {
                    0
                } else {
                    start[p]
                },
        decreases right + 1 - c,
    {
        cur.set(row + c, 0);
        c = c + 1;
    }
}

/// Puts the runs that touch the columns `left` to `right` of row `y`, from the
/// row above and the row below, on the stack.
fn scan_beside(
    cur: &Vec<u8>,
    w: usize,
    h: usize,
    y: usize,
    left: usize,
    right: usize,
    stack: &mut Vec<usize>,
)
    requires
        cur@.len() == w * h,
        left <= right < w,
        y < h,
    ensures
        old(stack)@.len() <= final(stack)@.len(),
        forall|i: int| 0 <= i < old(stack)@.len() ==> final(stack)@[i] == old(stack)@[i],
        forall|i: int|
            old(stack)@.len() <= i < final(stack)@.len() ==> pushed(
                w as int,
                cur@,
                y as int,
                left as int,
                right as int,
                #[trigger] final(stack)@[i] as int,
            ),
        y > 0 ==> scanned(w as int, cur@, final(stack)@, y - 1, left as int, right as int),
        y + 1 < h ==> scanned(w as int, cur@, final(stack)@, y + 1, left as int, right as int),
        final(stack)@ == old(stack)@ + beside(
            cur@,
            w as int,
            h as int,
            y as int,
            left as int,
            right as int,
        ),
{
    let lo: usize = if left > 0 {
        left - 1
    } else {
        0
    };
    let hi: usize = if right + 1 < w {
        right + 1
    } else {
        w - 1
    };
    let ghost popped = stack@;
    if y > 0 {
        proof {
            lemma_in_map(w as int, h as int, hi as int, y - 1);
        }
        scan_row(cur, w, y - 1, lo, hi, stack);
        proof {
            lemma_scanned(w as int, cur@, popped, stack@, y - 1, left as int, right as int);
        }
    }
    let ghost upper = stack@;
    if y + 1 < h {
        proof {
            lemma_in_map(w as int, h as int, hi as int, y + 1);
        }
        scan_row(cur, w, y + 1, lo, hi, stack);
        proof {
            lemma_scanned(w as int, cur@, upper, stack@, y + 1, left as int, right as int);
            if y > 0 {
                lemma_scanned_grows(
                    w as int,
                    cur@,
                    upper,
                    stack@,
                    y - 1,
                    left as int,
                    right as int,
                );
            }
        }
    }
    proof {
        assert forall|i: int| popped.len() <= i < stack@.len() implies pushed(
            w as int,
            cur@,
            y as int,
            left as int,
            right as int,
            #[trigger] stack@[i] as int,
        ) by {
            if i < upper.len() {
                assert(stack@[i] == upper[i]);
            }
        }
        assert(stack@ =~= popped + beside(
            cur@,
            w as int,
            h as int,
            y as int,
            left as int,
            right as int,
        ));
    }
}

proof fn lemma_walk_run(cur: Seq<u8>, w: int, at: int, x: int, y: int, left: int, right: int)
    requires
        0 <= left <= x <= right < w,
        0 <= y,
        at == y * w + x,
        forall|p: int| y * w + left <= p <= y * w + right ==> #[trigger] on(cur, p),
        left == 0 || !on(cur, y * w + left - 1),
        right == w - 1 || !on(cur, y * w + right + 1),
    ensures
        left_of(cur, w, at) == y * w + left,
        right_of(cur, w, at) == y * w + right,
{
    lemma_pixel(w, x, y);
    lemma_pixel(w, left, y);
    lemma_pixel(w, right, y);
    assert(y * w >= 0) by (nonlinear_arith)
        requires
            y >= 0,
            w > 0,
    ;
    lemma_left_of(cur, w, at, y * w + left);
    lemma_right_of(cur, w, at, y * w + right);
}

/// Claims the run of the pixel `at` that was taken off the stack, and puts the
/// runs beside it on the stack; returns the columns of the run.
fn claim_run(
    cur: &mut Vec<u8>,
    w: usize,
    h: usize,
    at: usize,
    stack: &mut Vec<usize>,
    Ghost(before): Ghost<Seq<usize>>,
    Ghost(map): Ghost<Seq<u8>>,
    Ghost(seed): Ghost<int>,
    Ghost(done): Ghost<Set<int>>,
    Ghost(seen): Ghost<Set<int>>,
) -> (r: (usize, usize))
    requires
        w > 0,
        map.len() == w * h,
        before.len() > 0,
        before.last() == at,
        old(stack)@ == before.drop_last(),
        fill_state(map, w as int, seed, done, seen, old(cur)@, before),
        forall|p: int| done.contains(p) ==> !linked(map, w as int, seed, p),
        at < map.len(),
        old(cur)@[at as int] != 0,
    ensures
        r.0 <= r.1 < w,
        ({
            let y = at as int / w as int;
            let run = span(y * w, r.0 as int, r.1 as int);
            &&& fill_state(
                map,
                w as int,
                seed,
                done,
                seen.union(run),
                final(cur)@,
                final(stack)@,
            )
            &&& forall|p: int|
                y * w + r.0 <= p <= y * w + r.1 ==> #[trigger] on(map, p) && !seen.contains(p)
            &&& r.0 == 0 || !on(map, y * w + r.0 - 1)
            &&& r.1 == w - 1 || !on(map, y * w + r.1 + 1)
            &&& forall|points: Seq<(usize, usize)>|
                (#[trigger] (Walk { map: old(cur)@, stack: before, points }).next(
                    w as int,
                    h as int,
                )) == (Walk {
                    map: final(cur)@,
                    stack: final(stack)@,
                    points: points + run_points(y, r.0 as int, r.1 as int),
                })
        }),
{
    let ghost whole = cur@;
    let size: usize = cur.len();
    proof {
        lemma_pixel_of(w as int, at as int);
    }
    let y: usize = at / w;
    let x: usize = at % w;
    proof {
        assert(y < h) by (nonlinear_arith)
            requires
                at == y * w + x,
                at < w * h,
                x >= 0,
                w > 0,
        ;
    }
    let (left, right) = run_bounds(cur, w, h, x, y);
    proof {
        lemma_walk_run(cur@, w as int, at as int, x as int, y as int, left as int, right as int);
        lemma_in_map(w as int, h as int, right as int, y as int);
        lemma_run_exact(
            map,
            w as int,
            done.union(seen),
            cur@,
            y as int,
            left as int,
            right as int,
        );
    }
    clear_span(cur, w, y, left, right);
    let ghost run = span(y * w, left as int, right as int);
    let ghost more = seen.union(run);
    proof {
        assert(without(cur@, map, done.union(more)));
        assert(cur@ =~= cleared(whole, y * w + left, y * w + right));
    }
    let ghost popped = stack@;
    scan_beside(cur, w, h, y, left, right, stack);
    proof {
        assert(popped == before.drop_last());
        lemma_claim_frontier(
            map,
            w as int,
            h as int,
            seed,
            done,
            seen,
            whole,
            before,
            stack@,
            cur@,
            y as int,
            left as int,
            right as int,
        );
    }
    (left, right)
}

/// Takes the region of `seed` out of the map; returns the ends of its runs and
/// its size.
fn fill(
    cur: &mut Vec<u8>,
    w: usize,
    h: usize,
    seed: usize,
    Ghost(map): Ghost<Seq<u8>>,
    Ghost(done): Ghost<Set<int>>,
) -> (r: (Vec<(usize, usize)>, usize))
    requires
        w > 0,
        map.len() == w * h,
        without(old(cur)@, map, done),
        whole_runs(map, w as int, done),
        on(map, seed as int),
        forall|p: int| done.contains(p) ==> !linked(map, w as int, seed as int, p),
    ensures
        without(final(cur)@, map, done.union(region(map, w as int, seed as int))),
        whole_runs(map, w as int, done.union(region(map, w as int, seed as int))),
        lists_ends(r.0@, map, w as int, region(map, w as int, seed as int)),
        region(map, w as int, seed as int).finite(),
        r.1 == region(map, w as int, seed as int).len(),
        in_walk_order(r.0@, old(cur)@, w as int, h as int, seed as int),
{
    let mut stack: Vec<usize> = Vec::new();
    stack.push(seed);
    let mut points: Vec<(usize, usize)> = Vec::new();
    let mut count: usize = 0;
    let ghost mut seen: Set<int> = Set::empty();
    let ghost start = Walk::from(cur@, seed as int);
    let ghost mut steps: nat = 0;
    let size: usize = cur.len();
    proof {
        assert(start =~= (Walk { map: cur@, stack: stack@, points: points@ }));
        assert(done.union(seen) =~= done);
        lemma_linked_self(map, w as int, seed as int);
        assert(same_run(map, w as int, stack@[0] as int, seed as int)) by {
            assert forall|r: int| (seed <= r <= seed) implies #[trigger] on(map, r) by {
                assert(r == seed);
            }
        }
        assert(lists_ends(points@, map, w as int, seen));
    }
    while stack.len() > 0
        invariant
            w > 0,
            map.len() == w * h,
            size == map.len(),
            fill_state(map, w as int, seed as int, done, seen, cur@, stack@),
            forall|p: int| done.contains(p) ==> !linked(map, w as int, seed as int, p),
            lists_ends(points@, map, w as int, seen),
            count == seen.len(),
            forall|p: int| seen.contains(p) ==> 0 <= p < size,
            start.after(w as int, h as int, steps) == (Walk {
                map: cur@,
                stack: stack@,
                points: points@,
            }),
        decreases size - count, stack.len(),
    {
        let ghost before = stack@;
        let ghost known = points@;
        proof {
            steps = steps + 1;
        }
        let at: usize = match stack.pop() {
            Some(t) => t,
            None => 0,
        };
        proof {
            assert(linked(map, w as int, seed as int, before[before.len() - 1] as int));
            lemma_linked_on(map, w as int, seed as int, at as int);
            lemma_pixel_of(w as int, at as int);
        }
        if cur[at] == 0 {
            proof {
                // claimed meanwhile, with its run
                assert(seen.contains(at as int));
                lemma_skip(
                    map,
                    w as int,
                    seed as int,
                    done,
                    seen,
                    cur@,
                    before,
                );
                assert(stack@ =~= before.drop_last());
            }
        } else {
            let y: usize = at / w;
            let (left, right) = claim_run(
                cur,
                w,
                h,
                at,
                &mut stack,
                Ghost(before),
                Ghost(map),
                Ghost(seed as int),
                Ghost(done),
                Ghost(seen),
            );
            let ghost run = span(y * w, left as int, right as int);
            proof {
                lemma_int_range(y * w + left, y * w + right + 1);
                assert(seen.disjoint(run));
                lemma_set_disjoint_lens(seen, run);
                let more = seen.union(run);
                assert forall|p: int| more.contains(p) implies 0 <= p < size by {
                    if run.contains(p) {
                        assert(on(map, p));
                    }
                }
                let all = set_int_range(0, size as int);
                lemma_int_range(0, size as int);
                lemma_len_subset(more, all);
                lemma_claim_ends(points@, map, w as int, seen, y, left, right);
                seen = more;
            }
            count = count + (right - left + 1);
            points.push((left, y));
            if right != left {
                points.push((right, y));
            }
            proof {
                assert(points@ =~= known + run_points(y as int, left as int, right as int));
            }
        }
    }
    proof {
        let area = region(map, w as int, seed as int);
        assert(seen.contains(seed as int));
        assert forall|q: int| linked(map, w as int, seed as int, q) implies seen.contains(q) by {
            lemma_closed_covers(map, w as int, seed as int, q, seen);
        }
        assert(seen =~= area);
        assert(start.after(w as int, h as int, steps).stack.len() == 0);
    }
    (points, count)
}

/// An entry whose run is claimed already can leave the stack.
proof fn lemma_skip(
    map: Seq<u8>,
    w: int,
    seed: int,
    done: Set<int>,
    seen: Set<int>,
    cur: Seq<u8>,
    before: Seq<usize>,
)
    requires
        w > 0,
        before.len() > 0,
        fill_state(map, w, seed, done, seen, cur, before),
        forall|p: int| done.contains(p) ==> !linked(map, w, seed, p),
        seen.contains(before.last() as int),
    ensures
        fill_state(map, w, seed, done, seen, cur, before.drop_last()),
{
    let after = before.drop_last();
    let at = before.last() as int;
    assert forall|q: int| linked(map, w, seed, q) && !seen.contains(q) && waits(map, w, before, q) implies waits(
        map,
        w,
        after,
        q,
    ) by {
        let i = choose|i: int|
            0 <= i < before.len() && same_run(map, w, #[trigger] before[i] as int, q);
        if i == before.len() - 1 {
            lemma_run_stays(map, w, done.union(seen), at, q);
            assert(false);
        } else {
            assert(after[i] == before[i]);
        }
    }
    assert forall|p: int, q: int|
        seen.contains(p) && on(map, q) && #[trigger] near(w, p, q) && !seen.contains(q) implies waits(
        map,
        w,
        after,
        q,
    ) by {
        lemma_linked_step(map, w, seed, p, q);
    }
    if !seen.contains(seed) {
        assert(waits(map, w, before, seed));
        let i = choose|i: int|
            0 <= i < before.len() && same_run(map, w, #[trigger] before[i] as int, seed);
        assert(on(map, seed));
        lemma_linked_self(map, w, seed);
        assert(waits(map, w, after, seed));
    }
    assert forall|i: int| 0 <= i < after.len() implies linked(map, w, seed, #[trigger] after[i] as int) by {
        assert(after[i] == before[i]);
    }
}

/// A set of whole runs holds the run of each of its pixels.
proof fn lemma_run_stays(map: Seq<u8>, w: int, gone: Set<int>, p: int, q: int)
    requires
        w > 0,
        whole_runs(map, w, gone),
        same_run(map, w, p, q),
        gone.contains(p),
    ensures
        gone.contains(q),
    decreases (if p <= q { q - p } else { p - q }),
{
    if p != q {
        let r = if p < q {
            q - 1
        } else {
            q + 1
        };
        lemma_between_rows(w, p, q, r);
        assert(on(map, r) && on(map, q));
        lemma_run_stays(map, w, gone, p, r);
    }
}

proof fn lemma_scanned(
    w: int,
    cur: Seq<u8>,
    before: Seq<usize>,
    after: Seq<usize>,
    y: int,
    left: int,
    right: int,
)
    requires
        0 <= left <= right < w,
        row_scan(
            w,
            cur,
            before,
            after,
            y,
            if left > 0 {
                left - 1
            } else {
                0
            },
            if right + 1 < w {
                right + 1
            } else {
                w - 1
            },
        ),
    ensures
        scanned(w, cur, after, y, left, right),
        before.len() <= after.len(),
        forall|i: int| 0 <= i < before.len() ==> after[i] == before[i],
        forall|i: int|
            before.len() <= i < after.len() ==> on(cur, #[trigger] after[i] as int) && after[i] as int
                / w == y && left - 1 <= after[i] as int % w <= right + 1,
{
    reveal(row_scan);
    assert forall|i: int| before.len() <= i < after.len() implies on(cur, #[trigger] after[i] as int)
        && after[i] as int / w == y && left - 1 <= after[i] as int % w <= right + 1 by {
        lemma_pixel(w, after[i] - y * w, y);
    }
    assert forall|q: int| #[trigger]
        on(cur, q) && q / w == y && left - 1 <= q % w <= right + 1 implies exists|i: int|
        0 <= i < after.len() && after[i] as int / w == y && #[trigger] after[i] <= q && (forall|
            r: int,
        |
            after[i] <= r <= q ==> #[trigger] on(cur, r)) by {
        lemma_pixel_of(w, q);
        let i = choose|i: int|
            before.len() <= i < after.len() && #[trigger] after[i] <= q && (forall|r: int|
                after[i] <= r <= q ==> #[trigger] on(cur, r));
        lemma_pixel(w, after[i] - y * w, y);
    }
}

proof fn lemma_scanned_grows(
    w: int,
    cur: Seq<u8>,
    before: Seq<usize>,
    after: Seq<usize>,
    y: int,
    left: int,
    right: int,
)
    requires
        scanned(w, cur, before, y, left, right),
        before.len() <= after.len(),
        forall|i: int| 0 <= i < before.len() ==> after[i] == before[i],
    ensures
        scanned(w, cur, after, y, left, right),
{
    assert forall|q: int| #[trigger]
        on(cur, q) && q / w == y && left - 1 <= q % w <= right + 1 implies exists|i: int|
        0 <= i < after.len() && after[i] as int / w == y && #[trigger] after[i] <= q && (forall|
            r: int,
        |
            after[i] <= r <= q ==> #[trigger] on(cur, r)) by {
        let i = choose|i: int|
            0 <= i < before.len() && before[i] as int / w == y && #[trigger] before[i] <= q && (
            forall|r: int| before[i] <= r <= q ==> #[trigger] on(cur, r));
        assert(after[i] == before[i]);
    }
}

proof fn lemma_large_prefix(map: Seq<u8>, w: int, a: int, b: int)
    requires
        a <= b,
    ensures
        large_upto(map, w, a).len() <= large_upto(map, w, b).len(),
        forall|i: int|
            0 <= i < large_upto(map, w, a).len() ==> large_upto(map, w, a)[i] == large_upto(
                map,
                w,
                b,
            )[i],
    decreases b - a,
{
    if a < b {
        lemma_large_prefix(map, w, a, b - 1);
        if b <= 0 {
            assert(large_upto(map, w, a) =~= large_upto(map, w, b));
        }
    }
}

/// The pixels of the regions that start below `k`.
spec fn done_below(map: Seq<u8>, w: int, k: int) -> Set<int> {
    Set::new(
        |p: int|
            exists|s: int|
                #![trigger leads(map, w, s)]
                s < k && leads(map, w, s) && linked(map, w, s, p),
    )
}

/// A foreground pixel that no earlier region holds is the first of its own.
proof fn lemma_first(map: Seq<u8>, w: int, seed: int)
    requires
        on(map, seed),
        !done_below(map, w, seed).contains(seed),
    ensures
        leads(map, w, seed),
        forall|p: int| done_below(map, w, seed).contains(p) ==> !linked(map, w, seed, p),
        done_below(map, w, seed + 1) =~= done_below(map, w, seed).union(region(map, w, seed)),
{
    assert forall|q: int| linked(map, w, seed, q) implies seed <= q by {
        if q < seed {
            let t = lemma_leader(map, w, seed, q);
            assert(t < seed && leads(map, w, t) && linked(map, w, t, seed));
        }
    }
    assert forall|p: int| done_below(map, w, seed).contains(p) implies !linked(map, w, seed, p) by {
        if linked(map, w, seed, p) {
            let s = choose|s: int|
                #![trigger leads(map, w, s)]
                s < seed && leads(map, w, s) && linked(map, w, s, p);
            lemma_linked_sym(map, w, seed, p);
            lemma_linked_trans(map, w, s, p, seed);
        }
    }
    let below = done_below(map, w, seed);
    let more = done_below(map, w, seed + 1);
    assert forall|p: int| more.contains(p) <==> below.union(region(map, w, seed)).contains(p) by {
        if more.contains(p) {
            let s = choose|s: int|
                #![trigger leads(map, w, s)]
                s < seed + 1 && leads(map, w, s) && linked(map, w, s, p);
            if s < seed {
                assert(below.contains(p));
            }
        } else if below.contains(p) {
            let s = choose|s: int|
                #![trigger leads(map, w, s)]
                s < seed && leads(map, w, s) && linked(map, w, s, p);
            assert(s < seed + 1 && leads(map, w, s) && linked(map, w, s, p));
        } else if region(map, w, seed).contains(p) {
            assert(seed < seed + 1 && leads(map, w, seed) && linked(map, w, seed, p));
        }
    }
}

/// A pixel that an earlier region holds, or none, starts no region.
proof fn lemma_not_first(map: Seq<u8>, w: int, seed: int)
    requires
        !on(map, seed) || done_below(map, w, seed).contains(seed),
    ensures
        !leads(map, w, seed),
        done_below(map, w, seed + 1) =~= done_below(map, w, seed),
{
    if on(map, seed) {
        let s = choose|s: int|
            #![trigger leads(map, w, s)]
            s < seed && leads(map, w, s) && linked(map, w, s, seed);
        lemma_linked_sym(map, w, s, seed);
    }
    let below = done_below(map, w, seed);
    let more = done_below(map, w, seed + 1);
    assert forall|p: int| more.contains(p) <==> below.contains(p) by {
        if more.contains(p) {
            let s = choose|s: int|
                #![trigger leads(map, w, s)]
                s < seed + 1 && leads(map, w, s) && linked(map, w, s, p);
            assert(s < seed);
        }
    }
}

/// Takes the regions out of a map of `w` columns and `h` rows, until `limit`
/// regions of at least four pixels are found, and returns the ends of the runs
/// of those, by column and row.
pub fn component_runs(fg: &mut Vec<u8>, w: usize, h: usize, limit: usize) -> (r: Vec<
    Vec<(usize, usize)>,
>)
    requires
        old(fg)@.len() == w * h,
    ensures
        ({
            let map = old(fg)@;
            let large = large_upto(map, w as int, map.len() as int);
            &&& r@.len() == if large.len() <= limit {
                large.len() as int
            } else {
                limit as int
            }
            &&& forall|i: int|
                0 <= i < r@.len() ==> lists_ends(
                    #[trigger] r@[i]@,
                    map,
                    w as int,
                    region(map, w as int, large[i]),
                ) && in_walk_order(
                    r@[i]@,
                    map_from(map, w as int, large[i]),
                    w as int,
                    h as int,
                    large[i],
                )
            &&& final(fg)@.len() == map.len()
            &&& forall|p: int|
                0 <= p < map.len() ==> #[trigger] final(fg)@[p] == if taken(
                    map,
                    w as int,
                    limit as int,
                    p,
                ) {
                    0
                } else {
                    map[p]
                }
        }),
{
    let ghost map = fg@;
    let ghost wi = w as int;
    let mut out: Vec<Vec<(usize, usize)>> = Vec::new();
    let size: usize = fg.len();
    let mut seed: usize = 0;
    let mut full: bool = false;
    proof {
        let none = done_below(map, wi, 0);
        assert forall|p: int| !none.contains(p) by {
            if none.contains(p) {
                let s = choose|s: int|
                    #![trigger leads(map, wi, s)]
                    s < 0 && leads(map, wi, s) && linked(map, wi, s, p);
            }
        }
    }
    while seed < size && !full
        invariant
            size == map.len(),
            map.len() == w * h,
            wi == w,
            seed <= size,
            fg@.len() == size,
            without(fg@, map, done_below(map, wi, seed as int)),
            whole_runs(map, wi, done_below(map, wi, seed as int)),
            out@.len() == large_upto(map, wi, seed as int).len(),
            out@.len() <= limit,
            full ==> seed < size && out@.len() == limit,
            forall|s: int|
                s < seed && #[trigger] leads(map, wi, s) ==> large_upto(map, wi, s).len() < limit,
            forall|i: int|
                0 <= i < out@.len() ==> lists_ends(
                    #[trigger] out@[i]@,
                    map,
                    wi,
                    region(map, wi, large_upto(map, wi, seed as int)[i]),
                ) && in_walk_order(
                    out@[i]@,
                    map_from(map, wi, large_upto(map, wi, seed as int)[i]),
                    wi,
                    h as int,
                    large_upto(map, wi, seed as int)[i],
                ),
        decreases size - seed, (if full { 0int } else { 1int }),
    {
        let ghost below = done_below(map, wi, seed as int);
        proof {
            assert(w > 0) by (nonlinear_arith)
                requires
                    seed < w * h,
                    seed >= 0,
                    w >= 0,
                    h >= 0,
            ;
        }
        if fg[seed] == 0 {
            proof {
                lemma_not_first(map, wi, seed as int);
            }
            seed = seed + 1;
        } else if out.len() >= limit {
            full = true;
        } else {
            proof {
                assert(!below.contains(seed as int));
                lemma_first(map, wi, seed as int);
                assert(fg@ =~= map_from(map, wi, seed as int));
            }
            let (points, count) = fill(fg, w, h, seed, Ghost(map), Ghost(below));
            let ghost found = out@;
            let ghost large = large_upto(map, wi, seed as int);
            if count >= 4 {
                out.push(points);
            }
            proof {
                let more = large_upto(map, wi, seed + 1);
                assert forall|i: int| 0 <= i < out@.len() implies lists_ends(
                    #[trigger] out@[i]@,
                    map,
                    wi,
                    region(map, wi, more[i]),
                ) && in_walk_order(
                    out@[i]@,
                    map_from(map, wi, more[i]),
                    wi,
                    h as int,
                    more[i],
                ) by {
                    if i < found.len() {
                        assert(out@[i] == found[i]);
                        assert(more[i] == large[i]);
                    }
                }
            }
            seed = seed + 1;
        }
    }
    proof {
        lemma_large_prefix(map, wi, seed as int, size as int);
        assert forall|p: int| 0 <= p < size implies done_below(map, wi, seed as int).contains(p) == taken(
            map,
            wi,
            limit as int,
            p,
        ) by {
            if taken(map, wi, limit as int, p) {
                let s = choose|s: int|
                    #![trigger leads(map, wi, s)]
                    leads(map, wi, s) && linked(map, wi, s, p) && large_upto(map, wi, s).len()
                        < limit;
                if s >= seed {
                    lemma_large_prefix(map, wi, seed as int, s);
                }
            }
        }
    }
    out
}

/// The corner points of the regions of a binary map: the ends of their
/// horizontal runs, which have the convex hull of all their pixels. Regions of
/// fewer than four pixels are passed over, and at most `limit` are returned.
pub fn component_extrema(fg: &mut Vec<u8>, w: usize, h: usize, limit: usize) -> (r: Vec<Vec<Pt>>)
    requires
        old(fg)@.len() == w * h,
    ensures
        ({
            let map = old(fg)@;
            let large = large_upto(map, w as int, map.len() as int);
            &&& r@.len() == if large.len() <= limit {
                large.len() as int
            } else {
                limit as int
            }
            &&& forall|i: int|
                0 <= i < r@.len() ==> outlines(
                    #[trigger] r@[i]@,
                    map,
                    w as int,
                    h as int,
                    large[i],
                )
            &&& final(fg)@.len() == map.len()
            &&& forall|p: int|
                0 <= p < map.len() ==> #[trigger] final(fg)@[p] == if taken(
                    map,
                    w as int,
                    limit as int,
                    p,
                ) {
                    0
                } else {
                    map[p]
                }
        }),
{
    let ghost map = fg@;
    let runs: Vec<Vec<(usize, usize)>> = component_runs(fg, w, h, limit);
    let mut out: Vec<Vec<Pt>> = Vec::new();
    let mut i: usize = 0;
    while i < runs.len()
        invariant
            i <= runs@.len(),
            out@.len() == i,
            forall|k: int| 0 <= k < i ==> draws(#[trigger] out@[k]@, runs@[k]@),
        decreases runs@.len() - i,
    {
        let mut points: Vec<Pt> = Vec::new();
        let mut j: usize = 0;
        while j < runs[i].len()
            invariant
                i < runs@.len(),
                j <= runs@[i as int]@.len(),
                points@.len() == j,
                forall|k: int|
                    0 <= k < j ==> (#[trigger] points@[k]).0@ == model::nearest(
                        Format::Double,
                        runs@[i as int]@[k].0 as real,
                    ) && points@[k].1@ == model::nearest(
                        Format::Double,
                        runs@[i as int]@[k].1 as real,
                    ),
            decreases runs@[i as int]@.len() - j,
        {
            let (x, y) = runs[i][j];
            points.push((F64::from_u64(x as u64), F64::from_u64(y as u64)));
            j = j + 1;
        }
        out.push(points);
        i = i + 1;
    }
    proof {
        let large = large_upto(map, w as int, map.len() as int);
        assert forall|k: int| 0 <= k < out@.len() implies outlines(
            #[trigger] out@[k]@,
            map,
            w as int,
            h as int,
            large[k],
        ) by {
            assert(draws(out@[k]@, runs@[k]@));
            assert(lists_ends(runs@[k]@, map, w as int, region(map, w as int, large[k])));
        }
    }
    out
}

// ---- laws ----

/// The run of a pixel ends, on the right, in a pixel of the same row and region.
proof fn lemma_right_end(map: Seq<u8>, w: int, s: int, p: int) -> (r: int)
    requires
        w > 0,
        linked(map, w, s, p),
    ensures
        r >= p,
        r / w == p / w,
        linked(map, w, s, r),
        run_end(map, w, r),
    decreases map.len() - p,
{
    lemma_linked_on(map, w, s, p);
    if p % w == w - 1 || !on(map, p + 1) {
        p
    } else {
        lemma_pixel_of(w, p);
        lemma_pixel(w, p % w + 1, p / w);
        lemma_linked_step(map, w, s, p, p + 1);
        lemma_right_end(map, w, s, p + 1)
    }
}

/// The run of a pixel ends, on the left, in a pixel of the same row and region.
proof fn lemma_left_end(map: Seq<u8>, w: int, s: int, p: int) -> (r: int)
    requires
        w > 0,
        linked(map, w, s, p),
    ensures
        r <= p,
        r / w == p / w,
        linked(map, w, s, r),
        run_end(map, w, r),
    decreases p,
{
    lemma_linked_on(map, w, s, p);
    if p % w == 0 || !on(map, p - 1) {
        p
    } else {
        lemma_pixel_of(w, p);
        lemma_pixel(w, p % w - 1, p / w);
        lemma_linked_step(map, w, s, p, p - 1);
        lemma_left_end(map, w, s, p - 1)
    }
}

/// How far a point lies in the direction `(a, b)`.
pub open spec fn reach(a: real, b: real, x: int, y: int) -> real {
    a * x as real + b * y as real
}

/// The ends of the runs of a region have the convex hull of all its pixels: in no
/// direction does a pixel lie farther than all of them.
pub proof fn law_run_ends_span_the_hull(
    points: Seq<(usize, usize)>,
    map: Seq<u8>,
    w: int,
    s: int,
    p: int,
    a: real,
    b: real,
)
    requires
        0 < w <= usize::MAX,
        map.len() <= usize::MAX,
        lists_ends(points, map, w, region(map, w, s)),
        linked(map, w, s, p),
    ensures
        exists|i: int|
            0 <= i < points.len() && reach(
                a,
                b,
                (#[trigger] points[i]).0 as int,
                points[i].1 as int,
            ) >= reach(a, b, p % w, p / w),
{
    let r = if a >= 0real {
        lemma_right_end(map, w, s, p)
    } else {
        lemma_left_end(map, w, s, p)
    };
    lemma_pixel_of(w, r);
    lemma_pixel_of(w, p);
    lemma_linked_on(map, w, s, r);
    let (x, y) = (r % w, r / w);
    assert(0 <= y <= r) by (nonlinear_arith)
        requires
            y == r / w,
            w > 0,
            r >= 0,
    ;
    let point = (x as usize, y as usize);
    assert(region(map, w, s).contains(point.1 * w + point.0));
    assert(points.contains(point));
    let i = choose|i: int| 0 <= i < points.len() && points[i] == point;
    let (xr, pr) = (x as real, (p % w) as real);
    assert(a * xr >= a * pr) by (nonlinear_arith)
        requires
            a >= 0real && xr >= pr || a <= 0real && xr <= pr,
    ;
    assert(points[i].0 == x && points[i].1 == y);
}

/// Every foreground pixel belongs to the region of one first pixel, and of no other.
pub proof fn law_every_pixel_has_one_region(map: Seq<u8>, w: int, p: int)
    requires
        on(map, p),
    ensures
        exists|s: int| #![trigger leads(map, w, s)] leads(map, w, s) && linked(map, w, s, p),
        forall|s: int, t: int|
            #![trigger leads(map, w, s), leads(map, w, t)]
            leads(map, w, s) && linked(map, w, s, p) && leads(map, w, t) && linked(map, w, t, p)
                ==> s == t,
{
    lemma_linked_self(map, w, p);
    let t = lemma_leader(map, w, p, p);
    assert(leads(map, w, t));
    assert forall|s: int, t: int|
        #![trigger leads(map, w, s), leads(map, w, t)]
        leads(map, w, s) && linked(map, w, s, p) && leads(map, w, t) && linked(
            map,
            w,
            t,
            p,
        ) implies s == t by {
        lemma_linked_sym(map, w, t, p);
        lemma_linked_trans(map, w, s, p, t);
        lemma_linked_sym(map, w, s, t);
    }
}

} // verus!
