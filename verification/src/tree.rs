//! A disk-resident spatial tree of representative primitives. Each node is
//! summarised by at most eight rectangle proxies with a conservative
//! accumulated error: every point of a proxy lies within the error of some
//! rectangle it stands for. Rectangles are merged two neighbours at a time,
//! cheapest first; once few enough remain, only merges that cost nothing go
//! on. The tree's directory is read back only from the design it was built
//! from, and only when its checksum, limits, node records and the groups'
//! contiguous, independently rooted trees all check out.
use crate::geometry::{
    ceil_half, distance_to_rect, spec_ceil_half, spec_contains, spec_distance_to_rect,
};
use crate::crc::crc32_of;
use crate::labels::BBox;
use vstd::prelude::*;

verus! {

/// Most proxies a node keeps.
pub const PROXIES: usize = 8;

/// A primitive of a tree: its box in design units, its rank, its gate
/// size, its stroke thickness, its kind and its flags.
#[derive(Clone, Copy, Debug, PartialEq, Eq)]
pub struct Prim {
    pub x0: i64,
    pub y0: i64,
    pub x1: i64,
    pub y1: i64,
    pub rank: u32,
    pub gate_dim: u64,
    pub thickness: u64,
    pub kind: u8,
    pub flags: u8,
}

/// The box a primitive covers.
pub open spec fn prim_box(p: Prim) -> BBox {
    BBox { x0: p.x0, y0: p.y0, x1: p.x1, y1: p.y1 }
}

pub open spec fn min_i(a: int, b: int) -> int {
    if a <= b {
        a
    } else {
        b
    }
}

pub open spec fn max_i(a: int, b: int) -> int {
    if a >= b {
        a
    } else {
        b
    }
}

/// The smallest box holding both boxes.
pub open spec fn union_box(a: BBox, b: BBox) -> BBox {
    BBox {
        x0: min_i(a.x0 as int, b.x0 as int) as i64,
        y0: min_i(a.y0 as int, b.y0 as int) as i64,
        x1: max_i(a.x1 as int, b.x1 as int) as i64,
        y1: max_i(a.y1 as int, b.y1 as int) as i64,
    }
}

/// Two rectangles merged: the union box, the lower rank and the larger gate
/// size; thickness, kind and flags are the first's.
pub open spec fn merged(a: Prim, b: Prim) -> Prim {
    let u = union_box(prim_box(a), prim_box(b));
    Prim {
        x0: u.x0,
        y0: u.y0,
        x1: u.x1,
        y1: u.y1,
        rank: min_i(a.rank as int, b.rank as int) as u32,
        gate_dim: max_i(a.gate_dim as int, b.gate_dim as int) as u64,
        ..a
    }
}

/// What merging two rectangles costs: for two of one column, half the gap
/// between them (rounded up); likewise for two of one row; otherwise how far
/// the union reaches beyond the nearer of the two.
pub open spec fn merge_delta(a: Prim, b: Prim) -> int {
    if a.x0 == b.x0 && a.x1 == b.x1 {
        spec_ceil_half(max_i(a.y0 as int, b.y0 as int) - min_i(a.y1 as int, b.y1 as int))
    } else if a.y0 == b.y0 && a.y1 == b.y1 {
        spec_ceil_half(max_i(a.x0 as int, b.x0 as int) - min_i(a.x1 as int, b.x1 as int))
    } else {
        let u = union_box(prim_box(a), prim_box(b));
        min_i(spec_distance_to_rect(u, prim_box(a)), spec_distance_to_rect(u, prim_box(b)))
    }
}

fn min64(a: i64, b: i64) -> (r: i64)
    ensures
        r == min_i(a as int, b as int),
{
    if a <= b {
        a
    } else {
        b
    }
}

fn max64(a: i64, b: i64) -> (r: i64)
    ensures
        r == max_i(a as int, b as int),
{
    if a >= b {
        a
    } else {
        b
    }
}

fn bbox(p: &Prim) -> (r: BBox)
    ensures
        r == prim_box(*p),
{
    BBox { x0: p.x0, y0: p.y0, x1: p.x1, y1: p.y1 }
}

/// Merges two rectangles into their union and says what it cost.
pub fn merge(a: Prim, b: Prim) -> (r: (Prim, u64))
    ensures
        r.0 == merged(a, b),
        r.1 == merge_delta(a, b),
{
    let bounds = BBox {
        x0: min64(a.x0, b.x0),
        y0: min64(a.y0, b.y0),
        x1: max64(a.x1, b.x1),
        y1: max64(a.y1, b.y1),
    };
    let delta = if a.x0 == b.x0 && a.x1 == b.x1 {
        ceil_half(max64(a.y0, b.y0) as i128 - min64(a.y1, b.y1) as i128)
    } else if a.y0 == b.y0 && a.y1 == b.y1 {
        ceil_half(max64(a.x0, b.x0) as i128 - min64(a.x1, b.x1) as i128)
    } else {
        let da = distance_to_rect(bounds, bbox(&a));
        let db = distance_to_rect(bounds, bbox(&b));
        if da <= db {
            da
        } else {
            db
        }
    };
    let rank = if a.rank <= b.rank {
        a.rank
    } else {
        b.rank
    };
    let gate_dim = if a.gate_dim >= b.gate_dim {
        a.gate_dim
    } else {
        b.gate_dim
    };
    (Prim { x0: bounds.x0, y0: bounds.y0, x1: bounds.x1, y1: bounds.y1, rank, gate_dim, ..a }, delta)
}

/// Whether `p` orders strictly before `q` by the proxy key: `x0`, `x1`,
/// `y0`, `y1`, then rank.
pub open spec fn key_lt(p: Prim, q: Prim) -> bool {
    if p.x0 != q.x0 {
        p.x0 < q.x0
    } else if p.x1 != q.x1 {
        p.x1 < q.x1
    } else if p.y0 != q.y0 {
        p.y0 < q.y0
    } else if p.y1 != q.y1 {
        p.y1 < q.y1
    } else {
        p.rank < q.rank
    }
}

fn before(p: &Prim, q: &Prim) -> (r: bool)
    ensures
        r == key_lt(*p, *q),
{
    if p.x0 != q.x0 {
        p.x0 < q.x0
    } else if p.x1 != q.x1 {
        p.x1 < q.x1
    } else if p.y0 != q.y0 {
        p.y0 < q.y0
    } else if p.y1 != q.y1 {
        p.y1 < q.y1
    } else {
        p.rank < q.rank
    }
}

/// Whether some box of `boxes` contains the box of `p`.
pub open spec fn covered(boxes: Seq<Prim>, p: Prim) -> bool {
    exists|k: int| 0 <= k < boxes.len() && spec_contains(prim_box(#[trigger] boxes[k]), prim_box(p))
}

/// Whether nothing can be summarised: no primitive, or one that is not a
/// rectangle (of kind `rect_kind`).
pub open spec fn unsummarised(input: Seq<Prim>, rect_kind: u8) -> bool {
    input.len() == 0 || exists|j: int| 0 <= j < input.len() && (#[trigger] input[j]).kind != rect_kind
}

spec fn work_covers(work: Seq<(Prim, u64)>, p: Prim) -> bool {
    exists|k: int| 0 <= k < work.len() && spec_contains(prim_box(#[trigger] work[k].0), prim_box(p))
}

fn add_error(e: u64, d: u64) -> (r: u64)
    ensures
        r == if e + d > u64::MAX {
            u64::MAX as int
        } else {
            e + d
        },
{
    if e > u64::MAX - d {
        u64::MAX
    } else {
        e + d
    }
}

/// Whether a box has its corners in order.
pub open spec fn upright(b: BBox) -> bool {
    b.x0 <= b.x1 && b.y0 <= b.y1
}

/// Whether the point `(x, y)` lies within `e` of box `b`, in each axis.
pub open spec fn near_box(x: int, y: int, b: BBox, e: int) -> bool {
    b.x0 - e <= x <= b.x1 + e && b.y0 - e <= y <= b.y1 + e
}

/// Whether the point `(x, y)` lies within `e` of one of `boxes`.
pub open spec fn near_any(boxes: Seq<Prim>, x: int, y: int, e: int) -> bool {
    exists|j: int| 0 <= j < boxes.len() && near_box(x, y, prim_box(#[trigger] boxes[j]), e)
}

/// Whether every point of `q` lies within `e` of one of `boxes`: the
/// one-sided Hausdorff distance from `q` to them, in L-infinity, is at most
/// `e`.
pub open spec fn approximates(q: BBox, boxes: Seq<Prim>, e: int) -> bool {
    forall|x: int, y: int| q.x0 <= x <= q.x1 && q.y0 <= y <= q.y1 ==> #[trigger] near_any(boxes, x, y, e)
}

proof fn lemma_near_widens(x: int, y: int, cx: int, cy: int, b: BBox, e: int, d: int)
    requires
        near_box(cx, cy, b, e),
        cx - d <= x <= cx + d,
        cy - d <= y <= cy + d,
    ensures
        near_box(x, y, b, e + d),
{
}

proof fn lemma_near_any_widens(boxes: Seq<Prim>, x: int, y: int, cx: int, cy: int, e: int, d: int, f: int)
    requires
        near_any(boxes, cx, cy, e),
        cx - d <= x <= cx + d,
        cy - d <= y <= cy + d,
        e + d <= f,
    ensures
        near_any(boxes, x, y, f),
{
    let j = choose|j: int| 0 <= j < boxes.len() && near_box(cx, cy, prim_box(#[trigger] boxes[j]), e);
    lemma_near_widens(x, y, cx, cy, prim_box(boxes[j]), e, d);
    assert(near_box(x, y, prim_box(boxes[j]), f));
}

/// A rectangle of the input approximates itself.
proof fn lemma_self_approximates(boxes: Seq<Prim>, j: int, e: int)
    requires
        0 <= j < boxes.len(),
        e >= 0,
    ensures
        approximates(prim_box(boxes[j]), boxes, e),
{
    assert forall|x: int, y: int|
        boxes[j].x0 <= x <= boxes[j].x1 && boxes[j].y0 <= y <= boxes[j].y1 implies #[trigger] near_any(boxes, x, y, e) by {
        assert(near_box(x, y, prim_box(boxes[j]), e));
    }
}

pub open spec fn clamp(v: int, lo: int, hi: int) -> int {
    if v < lo {
        lo
    } else if v > hi {
        hi
    } else {
        v
    }
}

/// Points of the union lie within the merge's cost of one of the two.
proof fn lemma_union_near(a: Prim, b: Prim, x: int, y: int) -> (r: (bool, int, int))
    requires
        upright(prim_box(a)),
        upright(prim_box(b)),
        union_box(prim_box(a), prim_box(b)).x0 <= x <= union_box(prim_box(a), prim_box(b)).x1,
        union_box(prim_box(a), prim_box(b)).y0 <= y <= union_box(prim_box(a), prim_box(b)).y1,
    ensures
        r.0 ==> a.x0 <= r.1 <= a.x1 && a.y0 <= r.2 <= a.y1,
        !r.0 ==> b.x0 <= r.1 <= b.x1 && b.y0 <= r.2 <= b.y1,
        r.1 - merge_delta(a, b) <= x <= r.1 + merge_delta(a, b),
        r.2 - merge_delta(a, b) <= y <= r.2 + merge_delta(a, b),
{
    let u = union_box(prim_box(a), prim_box(b));
    let ax = clamp(x, a.x0 as int, a.x1 as int);
    let ay = clamp(y, a.y0 as int, a.y1 as int);
    let bx = clamp(x, b.x0 as int, b.x1 as int);
    let by = clamp(y, b.y0 as int, b.y1 as int);
    if a.x0 == b.x0 && a.x1 == b.x1 {
        let g = max_i(a.y0 as int, b.y0 as int) - min_i(a.y1 as int, b.y1 as int);
        assert(spec_ceil_half(g) >= 0);
        if (y - ay) <= spec_ceil_half(g) && (ay - y) <= spec_ceil_half(g) {
            (true, ax, ay)
        } else {
            (false, bx, by)
        }
    } else if a.y0 == b.y0 && a.y1 == b.y1 {
        let g = max_i(a.x0 as int, b.x0 as int) - min_i(a.x1 as int, b.x1 as int);
        assert(spec_ceil_half(g) >= 0);
        if (x - ax) <= spec_ceil_half(g) && (ax - x) <= spec_ceil_half(g) {
            (true, ax, ay)
        } else {
            (false, bx, by)
        }
    } else {
        let da = spec_distance_to_rect(u, prim_box(a));
        let db = spec_distance_to_rect(u, prim_box(b));
        if da <= db {
            (true, ax, ay)
        } else {
            (false, bx, by)
        }
    }
}

/// Merging is conservative: the union of two rectangles approximates what
/// they approximated, within the larger of their errors plus the cost of
/// the merge.
pub proof fn law_merge_within_cost(a: Prim, b: Prim, ea: int, eb: int, boxes: Seq<Prim>, e: int)
    requires
        upright(prim_box(a)),
        upright(prim_box(b)),
        approximates(prim_box(a), boxes, ea),
        approximates(prim_box(b), boxes, eb),
        ea <= e,
        eb <= e,
        e >= merge_delta(a, b) + max_i(ea, eb),
    ensures
        upright(prim_box(merged(a, b))),
        approximates(prim_box(merged(a, b)), boxes, e),
{
    let m = merged(a, b);
    assert forall|x: int, y: int| m.x0 <= x <= m.x1 && m.y0 <= y <= m.y1 implies #[trigger] near_any(boxes, x, y, e) by {
        let (in_a, cx, cy) = lemma_union_near(a, b, x, y);
        if in_a {
            assert(near_any(boxes, cx, cy, ea));
            lemma_near_any_widens(boxes, x, y, cx, cy, ea, merge_delta(a, b), e);
        } else {
            assert(near_any(boxes, cx, cy, eb));
            lemma_near_any_widens(boxes, x, y, cx, cy, eb, merge_delta(a, b), e);
        }
    }
}


/// Every box lies within `u64::MAX` of any box: coordinates are `i64`.
proof fn lemma_everything_near(q: BBox, boxes: Seq<Prim>)
    requires
        boxes.len() > 0,
        upright(prim_box(boxes[0])),
    ensures
        approximates(q, boxes, u64::MAX as int),
{
    assert forall|x: int, y: int| q.x0 <= x <= q.x1 && q.y0 <= y <= q.y1 implies #[trigger] near_any(
        boxes,
        x,
        y,
        u64::MAX as int,
    ) by {
        assert(near_box(x, y, prim_box(boxes[0]), u64::MAX as int));
    }
}

proof fn lemma_approximates_widens(q: BBox, boxes: Seq<Prim>, e: int, f: int)
    requires
        approximates(q, boxes, e),
        e <= f,
    ensures
        approximates(q, boxes, f),
{
    assert forall|x: int, y: int| q.x0 <= x <= q.x1 && q.y0 <= y <= q.y1 implies #[trigger] near_any(boxes, x, y, f) by {
        assert(near_any(boxes, x, y, e));
        lemma_near_any_widens(boxes, x, y, x, y, e, 0, f);
    }
}

/// Whether every box of `boxes` has its corners in order.
pub open spec fn all_upright(boxes: Seq<Prim>) -> bool {
    forall|j: int| 0 <= j < boxes.len() ==> upright(prim_box(#[trigger] boxes[j]))
}

spec fn work_approximates(work: Seq<(Prim, u64)>, input: Seq<Prim>) -> bool {
    forall|k: int|
        0 <= k < work.len() ==> upright(prim_box((#[trigger] work[k]).0)) && approximates(
            prim_box(work[k].0),
            input,
            work[k].1 as int,
        )
}

/// Where rectangle `p` goes among the ordered work `t` from `k` on: before
/// the first item it orders strictly before, else at the end; items it ties
/// with keep their place ahead of it.
pub open spec fn first_after(t: Seq<(Prim, u64)>, p: Prim, k: int) -> int
    decreases t.len() - k,
{
    if k < 0 || k >= t.len() {
        t.len() as int
    } else if key_lt(p, t[k].0) {
        k
    } else {
        first_after(t, p, k + 1)
    }
}

/// The first `n` rectangles of `input`, ordered by `x0`, `x1`, `y0`, `y1`
/// and rank (ties in input order), each with error `e`.
pub open spec fn initial_work(input: Seq<Prim>, e: u64, n: nat) -> Seq<(Prim, u64)>
    decreases n,
{
    if n == 0 {
        Seq::empty()
    } else {
        let t = initial_work(input, e, (n - 1) as nat);
        t.insert(first_after(t, input[n - 1], 0), (input[n - 1], e))
    }
}

/// The accumulated error of merging work items `i` and `i + 1`: the larger
/// of their errors plus the merge's cost, held at `u64::MAX`.
pub open spec fn pair_err(w: Seq<(Prim, u64)>, i: int) -> int {
    let m = max_i(w[i].1 as int, w[i + 1].1 as int) + merge_delta(w[i].0, w[i + 1].0);
    if m > u64::MAX {
        u64::MAX as int
    } else {
        m
    }
}

/// Among the first `n` neighbour pairs, the first of least accumulated
/// error.
pub open spec fn best_upto(w: Seq<(Prim, u64)>, n: int) -> int
    decreases n,
{
    if n <= 1 {
        0
    } else {
        let b = best_upto(w, n - 1);
        if pair_err(w, n - 1) < pair_err(w, b) {
            n - 1
        } else {
            b
        }
    }
}

/// The least-error pair lies among the pairs looked at.
pub proof fn lemma_best_in_range(w: Seq<(Prim, u64)>, n: int)
    requires
        n >= 1,
    ensures
        0 <= best_upto(w, n) < n,
    decreases n,
{
    if n > 1 {
        lemma_best_in_range(w, n - 1);
    }
}

/// The work after merging items `i` and `i + 1` into their union.
pub open spec fn merge_at(w: Seq<(Prim, u64)>, i: int) -> Seq<(Prim, u64)> {
    w.take(i).push((merged(w[i].0, w[i + 1].0), pair_err(w, i) as u64)) + w.skip(i + 2)
}

/// The greedy merging: while more than one item is left, merge the
/// neighbour pair of least accumulated error (the first such), unless at
/// most `PROXIES` are left and that merge costs something.
pub open spec fn reduce(w: Seq<(Prim, u64)>) -> Seq<(Prim, u64)>
    decreases w.len(),
{
    if w.len() <= 1 {
        w
    } else {
        let i = best_upto(w, w.len() - 1);
        proof {
            lemma_best_in_range(w, w.len() - 1);
        }
        if w.len() <= PROXIES && merge_delta(w[i].0, w[i + 1].0) != 0 {
            w
        } else {
            reduce(merge_at(w, i))
        }
    }
}

/// The largest error among the first `n` work items.
pub open spec fn max_err(w: Seq<(Prim, u64)>, n: int) -> u64
    decreases n,
{
    if n <= 1 {
        w[0].1
    } else {
        max_i(max_err(w, n - 1) as int, w[n - 1].1 as int) as u64
    }
}

/// What `summarize` answers: nothing for an unsummarisable input;
/// otherwise the proxies the greedy merging leaves, and the largest of
/// their accumulated errors.
pub open spec fn summarized(input: Seq<Prim>, inherited: u64, rect_kind: u8) -> (Seq<Prim>, u64) {
    if unsummarised(input, rect_kind) {
        (Seq::empty(), 0)
    } else {
        let w = reduce(initial_work(input, inherited, input.len()));
        (w.map_values(|x: (Prim, u64)| x.0), max_err(w, w.len() as int))
    }
}

/// What a summary of `input` (with errors so far `inherited`) by `out`
/// with error `error` guarantees: nothing for an empty input or one with
/// another kind than `rect_kind`; otherwise one to `PROXIES` rectangles,
/// no more than the input, each input rectangle inside one of them, an
/// error no smaller than `inherited` (and equal to it if nothing merged),
/// and, for rectangles with their corners in order, every point of every
/// proxy within the error of some input rectangle.
pub open spec fn summary_of(input: Seq<Prim>, inherited: u64, rect_kind: u8, out: Seq<Prim>, error: u64) -> bool {
    &&& unsummarised(input, rect_kind) ==> out.len() == 0 && error == 0
    &&& !unsummarised(input, rect_kind) ==> {
        &&& 1 <= out.len() <= PROXIES
        &&& out.len() <= input.len()
        &&& forall|k: int| 0 <= k < out.len() ==> (#[trigger] out[k]).kind == rect_kind
        &&& forall|j: int| 0 <= j < input.len() ==> covered(out, #[trigger] input[j])
        &&& error >= inherited
        &&& out.len() == input.len() ==> error == inherited
        &&& all_upright(input) ==> forall|k: int|
            0 <= k < out.len() ==> approximates(prim_box(#[trigger] out[k]), input, error as int)
    }
}

/// Summarises the rectangles `input`, whose errors so far are `inherited`,
/// by at most `PROXIES` rectangles and the error of the summary. Nothing
/// summarises an empty input or one with another kind than `rect_kind`.
/// Otherwise the rectangles, ordered by `x0`, `x1`, `y0`, `y1` and rank,
/// are merged two neighbours at a time, the pair of least accumulated
/// error first; while more than `PROXIES` remain every step merges, then
/// only a merge that costs nothing. Every input rectangle lies inside some
/// proxy, the error never falls below `inherited`, and (for rectangles
/// with their corners in order) every point of every proxy lies within the
/// error of some input rectangle.
#[verifier::spinoff_prover]
pub fn summarize(input: &[Prim], inherited: u64, rect_kind: u8) -> (r: (Vec<Prim>, u64))
    ensures
        r.0@ == summarized(input@, inherited, rect_kind).0,
        r.1 == summarized(input@, inherited, rect_kind).1,
        summary_of(input@, inherited, rect_kind, r.0@, r.1),
{
    if input.len() == 0 {
        return (Vec::new(), 0);
    }
    let mut i: usize = 0;
    while i < input.len()
        invariant
            i <= input@.len(),
            forall|j: int| 0 <= j < i ==> (#[trigger] input@[j]).kind == rect_kind,
        decreases input@.len() - i,
    {
        if input[i].kind != rect_kind {
            return (Vec::new(), 0);
        }
        i = i + 1;
    }
    assert(!unsummarised(input@, rect_kind));
    let ghost norm = all_upright(input@);
    let n = input.len();
    let mut work: Vec<(Prim, u64)> = Vec::new();
    let mut i: usize = 0;
    while i < n
        invariant
            n == input@.len(),
            norm == all_upright(input@),
            i <= n,
            work@.len() == i,
            work@ == initial_work(input@, inherited, i as nat),
            forall|k: int| 0 <= k < work@.len() ==> (#[trigger] work@[k]).1 == inherited,
            forall|k: int| 0 <= k < work@.len() ==> (#[trigger] work@[k]).0.kind == rect_kind,
            forall|j: int| 0 <= j < n ==> (#[trigger] input@[j]).kind == rect_kind,
            forall|j: int| 0 <= j < i ==> work_covers(work@, #[trigger] input@[j]),
            norm ==> work_approximates(work@, input@),
        decreases n - i,
    {
        let p = input[i];
        let mut pos: usize = 0;
        while pos < work.len() && !before(&p, &work[pos].0)
            invariant
                pos <= work@.len(),
                first_after(work@, p, pos as int) == first_after(work@, p, 0),
            decreases work@.len() - pos,
        {
            pos = pos + 1;
        }
        assert(first_after(work@, p, 0) == pos);
        let ghost old_work = work@;
        work.insert(pos, (p, inherited));
        proof {
            assert(work@ == initial_work(input@, inherited, (i + 1) as nat));
            assert forall|j: int| 0 <= j < i + 1 implies work_covers(work@, #[trigger] input@[j]) by {
                if j == i {
                    assert(work@[pos as int].0 == p);
                    assert(spec_contains(prim_box(work@[pos as int].0), prim_box(input@[j])));
                } else {
                    let k = choose|k: int|
                        0 <= k < old_work.len() && spec_contains(prim_box(#[trigger] old_work[k].0), prim_box(input@[j]));
                    if k < pos {
                        assert(work@[k] == old_work[k]);
                    } else {
                        assert(work@[k + 1] == old_work[k]);
                    }
                }
            }
            assert forall|k: int| 0 <= k < work@.len() implies (#[trigger] work@[k]).0.kind == rect_kind by {
                if k < pos {
                    assert(work@[k] == old_work[k]);
                } else if k > pos {
                    assert(work@[k] == old_work[k - 1]);
                }
            }
            if norm {
                lemma_self_approximates(input@, i as int, inherited as int);
                assert(upright(prim_box(input@[i as int])));
                assert forall|k: int| 0 <= k < work@.len() implies upright(prim_box((#[trigger] work@[k]).0))
                    && approximates(prim_box(work@[k].0), input@, work@[k].1 as int) by {
                    if k < pos {
                        assert(work@[k] == old_work[k]);
                    } else if k > pos {
                        assert(work@[k] == old_work[k - 1]);
                    }
                }
            }
        }
        i = i + 1;
    }
    let ghost w0 = work@;
    assert(w0 == initial_work(input@, inherited, input@.len()));
    while work.len() > 1
        invariant
            reduce(work@) == reduce(w0),
            n == input@.len(),
            n > 0,
            norm == all_upright(input@),
            1 <= work@.len() <= n,
            forall|k: int| 0 <= k < work@.len() ==> (#[trigger] work@[k]).1 >= inherited,
            forall|k: int| 0 <= k < work@.len() ==> (#[trigger] work@[k]).0.kind == rect_kind,
            work@.len() == n ==> forall|k: int| 0 <= k < work@.len() ==> (#[trigger] work@[k]).1 == inherited,
            forall|j: int| 0 <= j < n ==> work_covers(work@, #[trigger] input@[j]),
            norm ==> work_approximates(work@, input@),
        ensures
            work@.len() <= PROXIES,
            reduce(work@) == reduce(w0),
            reduce(work@) == work@,
        decreases work@.len(),
    {
        let (p0, d0) = merge(work[0].0, work[1].0);
        let m0 = if work[0].1 >= work[1].1 {
            work[0].1
        } else {
            work[1].1
        };
        let mut best_err = add_error(m0, d0);
        let mut best_i: usize = 0;
        let mut best_p = p0;
        let mut best_d = d0;
        let mut i: usize = 1;
        while i < work.len() - 1
            invariant
                1 <= i < work@.len(),
                best_i + 1 < work@.len(),
                best_i == best_upto(work@, i as int),
                best_err == pair_err(work@, best_i as int),
                best_p == merged(work@[best_i as int].0, work@[best_i + 1].0),
                best_d == merge_delta(work@[best_i as int].0, work@[best_i + 1].0),
                best_err == (if max_i(work@[best_i as int].1 as int, work@[best_i + 1].1 as int) + best_d
                    > u64::MAX {
                    u64::MAX as int
                } else {
                    max_i(work@[best_i as int].1 as int, work@[best_i + 1].1 as int) + best_d
                }),
            decreases work@.len() - i,
        {
            let (p, d) = merge(work[i].0, work[i + 1].0);
            let m = if work[i].1 >= work[i + 1].1 {
                work[i].1
            } else {
                work[i + 1].1
            };
            let e = add_error(m, d);
            if e < best_err {
                best_err = e;
                best_i = i;
                best_p = p;
                best_d = d;
            }
            i = i + 1;
        }
        assert(best_i == best_upto(work@, work@.len() - 1));
        if work.len() <= PROXIES && best_d != 0 {
            assert(reduce(work@) == work@);
            break;
        }
        let ghost old_work = work@;
        let ghost bi = best_i as int;
        assert(reduce(old_work) == reduce(merge_at(old_work, bi)));
        proof {
            if norm {
                let a = old_work[bi];
                let b = old_work[bi + 1];
                if max_i(a.1 as int, b.1 as int) + best_d > u64::MAX {
                    lemma_everything_near(prim_box(best_p), input@);
                    assert(upright(prim_box(best_p)));
                } else {
                    law_merge_within_cost(a.0, b.0, a.1 as int, b.1 as int, input@, best_err as int);
                }
            }
        }
        work.set(best_i, (best_p, best_err));
        work.remove(best_i + 1);
        proof {
            assert(work@ =~= merge_at(old_work, bi));
            assert forall|k: int| 0 <= k < work@.len() implies (#[trigger] work@[k]).1 >= inherited
                && work@[k].0.kind == rect_kind by {
                if k < bi {
                    assert(work@[k] == old_work[k]);
                } else if k > bi {
                    assert(work@[k] == old_work[k + 1]);
                }
            }
            assert forall|j: int| 0 <= j < n implies work_covers(work@, #[trigger] input@[j]) by {
                let k = choose|k: int|
                    0 <= k < old_work.len() && spec_contains(prim_box(#[trigger] old_work[k].0), prim_box(input@[j]));
                if k < bi {
                    assert(work@[k] == old_work[k]);
                } else if k == bi || k == bi + 1 {
                    assert(work@[bi].0 == best_p);
                    assert(spec_contains(prim_box(work@[bi].0), prim_box(input@[j])));
                } else {
                    assert(work@[k - 1] == old_work[k]);
                }
            }
            if norm {
                assert forall|k: int| 0 <= k < work@.len() implies upright(prim_box((#[trigger] work@[k]).0))
                    && approximates(prim_box(work@[k].0), input@, work@[k].1 as int) by {
                    if k < bi {
                        assert(work@[k] == old_work[k]);
                    } else if k > bi {
                        assert(work@[k] == old_work[k + 1]);
                    }
                }
            }
        }
    }
    let mut out: Vec<Prim> = Vec::new();
    let mut error: u64 = work[0].1;
    let mut k: usize = 0;
    while k < work.len()
        invariant
            k <= work@.len(),
            work@.len() >= 1,
            out@.len() == k,
            forall|q: int| 0 <= q < k ==> out@[q] == (#[trigger] work@[q]).0,
            k >= 1 ==> error == max_err(work@, k as int),
            k == 0 ==> error == work@[0].1,
            forall|q: int| 0 <= q < k ==> (#[trigger] work@[q]).1 <= error,
            error >= inherited,
            work@.len() == n ==> error == inherited,
            forall|q: int| 0 <= q < work@.len() ==> (#[trigger] work@[q]).1 >= inherited,
            forall|q: int| 0 <= q < work@.len() ==> (#[trigger] work@[q]).0.kind == rect_kind,
            work@.len() == n ==> forall|q: int| 0 <= q < work@.len() ==> (#[trigger] work@[q]).1 == inherited,
        decreases work@.len() - k,
    {
        out.push(work[k].0);
        if work[k].1 > error {
            error = work[k].1;
        }
        k = k + 1;
    }
    proof {
        assert forall|j: int| 0 <= j < input@.len() implies covered(out@, #[trigger] input@[j]) by {
            assert(work_covers(work@, input@[j]));
            let q = choose|q: int|
                0 <= q < work@.len() && spec_contains(prim_box(#[trigger] work@[q].0), prim_box(input@[j]));
            assert(out@[q] == work@[q].0);
        }
        assert forall|q: int| 0 <= q < out@.len() implies (#[trigger] out@[q]).kind == rect_kind by {
            assert(out@[q] == work@[q].0);
        }
        if norm {
            assert forall|q: int| 0 <= q < out@.len() implies approximates(
                prim_box(#[trigger] out@[q]),
                input@,
                error as int,
            ) by {
                assert(out@[q] == work@[q].0);
                lemma_approximates_widens(prim_box(work@[q].0), input@, work@[q].1 as int, error as int);
            }
        }
        assert(out@ =~= work@.map_values(|x: (Prim, u64)| x.0));
        assert(work@ == reduce(initial_work(input@, inherited, input@.len())));
    }
    (out, error)
}

/// Bytes of the directory header.
pub const HEADER: usize = 64;
/// Bytes of a group record.
pub const GROUP: usize = 32;
/// Bytes of a node record.
pub const NODE: usize = 112;
/// Most children of a node.
pub const FANOUT: u32 = 8;
/// Largest tree file accepted, in bytes.
pub const CAP: usize = 536870912;
/// The node flag of a node whose primitives are all rectangles.
pub const RECTANGLES: u32 = 1;
/// The directory format's version.
pub const VERSION: u32 = 3;
/// Bytes of a primitive record in a leaf or proxy block.
pub const PRIM_BYTES: u64 = 64;
/// Deepest group depth.
pub const MAX_DEPTH: u32 = 4096;

/// `crc32fast::hash`: the CRC-32 (IEEE) checksum of `data`, as `crc32_of`
/// states it (reflected polynomial `0xEDB88320`, all-ones initial value and
/// final complement; crc32fast computes it with slicing tables or carry-less
/// multiplication, which give the same value).
#[verifier::external_body]
fn crc32(data: &[u8]) -> (r: u32)
    ensures
        r == crc32_of(data@),
{
    crc32fast::hash(data)
}

/// The limits a directory is read with: the file's magic, and the most
/// groups, primitives and primitives per leaf that a tree may have.
pub struct TreeLimits {
    pub magic: [u8; 8],
    pub max_groups: u64,
    pub max_points: u64,
    pub chunk: u64,
}

/// What a tree must have been built from: the checksum of the design's
/// data, the source's size, modification time and unit (as bits), the top
/// cell, and the design's layers in order, each as `(layer, datatype)`.
pub struct CacheIdentity {
    pub data_crc: u32,
    pub src_size: u64,
    pub src_mtime: u64,
    pub unit_bits: u64,
    pub top: u32,
    pub layers: Vec<(u32, u32)>,
}

impl CacheIdentity {
    /// The identity of a design whose data is `ovm_data`.
    pub fn new(
        ovm_data: &[u8],
        src_size: u64,
        src_mtime: u64,
        unit_bits: u64,
        top: u32,
        layers: Vec<(u32, u32)>,
    ) -> (r: CacheIdentity)
        ensures
            r.data_crc == crc32_of(ovm_data@),
            r.src_size == src_size,
            r.src_mtime == src_mtime,
            r.unit_bits == unit_bits,
            r.top == top,
            r.layers@ == layers@,
    {
        CacheIdentity { data_crc: crc32(ovm_data), src_size, src_mtime, unit_bits, top, layers }
    }
}

/// Why a directory was refused.
#[derive(Clone, Copy, Debug, PartialEq, Eq, Structural)]
pub enum TreeError {
    /// The directory is malformed.
    Invalid,
    /// The tree was built from another design or source.
    IdentityMismatch,
    /// The directory's checksum does not match.
    ChecksumMismatch,
    /// A node carries flags this reader does not know.
    UnknownFlags,
    /// A block's checksum does not match.
    BlockChecksum,
    /// A block holds a primitive its node cannot hold.
    InvalidPrimitive,
}

impl TreeError {
    /// The error's message.
    pub fn message(&self) -> (r: &'static str)
        ensures
            r == match self {
                TreeError::Invalid => "representatives: invalid tree directory",
                TreeError::IdentityMismatch => "representatives: cache identity mismatch; rebuild design.ovr",
                TreeError::ChecksumMismatch => "representatives: tree directory checksum mismatch",
                TreeError::UnknownFlags => "representatives: unknown tree flags",
                TreeError::BlockChecksum => "representatives: tree block checksum mismatch",
                TreeError::InvalidPrimitive => "representatives: invalid tree primitive",
            },
    {
        match self {
            TreeError::Invalid => "representatives: invalid tree directory",
            TreeError::IdentityMismatch => "representatives: cache identity mismatch; rebuild design.ovr",
            TreeError::ChecksumMismatch => "representatives: tree directory checksum mismatch",
            TreeError::UnknownFlags => "representatives: unknown tree flags",
            TreeError::BlockChecksum => "representatives: tree block checksum mismatch",
            TreeError::InvalidPrimitive => "representatives: invalid tree primitive",
        }
    }
}

/// A group's tree: the index of its layer in the design, its depth, its
/// root node and its primitive count.
#[derive(Clone, Copy, Debug, PartialEq, Eq)]
pub struct Root {
    pub layer: usize,
    pub depth: u32,
    pub root: u32,
    pub count: u32,
}

/// A node record.
#[derive(Clone, Copy, Debug, PartialEq, Eq)]
pub struct Meta {
    pub bbox: BBox,
    pub error: u64,
    pub gate_min: u64,
    pub gate_max: u64,
    pub minor: u64,
    pub first: u32,
    pub children: u32,
    pub count: u32,
    pub flags: u32,
    pub leaf_off: u64,
    pub proxy_off: u64,
    pub proxies: u32,
    pub leaf_crc: u32,
    pub proxy_crc: u32,
}

/// A checked tree directory: the groups' roots and the nodes.
pub struct TreeDirectory {
    pub roots: Vec<Root>,
    pub nodes: Vec<Meta>,
}

/// The little-endian `u32` at `o`.
pub open spec fn le32(d: Seq<u8>, o: int) -> u32 {
    (d[o] + 256 * d[o + 1] + 65536 * d[o + 2] + 16777216 * d[o + 3]) as u32
}

/// The little-endian `u64` at `o`.
pub open spec fn le64(d: Seq<u8>, o: int) -> u64 {
    (le32(d, o) + 4294967296 * le32(d, o + 4)) as u64
}

/// The little-endian two's-complement `i64` at `o`.
pub open spec fn lei64(d: Seq<u8>, o: int) -> i64 {
    le64(d, o) as i64
}

pub open spec fn hdr_ng(d: Seq<u8>) -> int {
    le32(d, 44) as int
}

pub open spec fn hdr_nn(d: Seq<u8>) -> int {
    le32(d, 48) as int
}

pub open spec fn hdr_end(d: Seq<u8>) -> int {
    le64(d, 56) as int
}

/// The file's shape: its size, magic and version.
pub open spec fn shape_ok(d: Seq<u8>, lim: TreeLimits) -> bool {
    &&& HEADER + 4 <= d.len() <= CAP
    &&& d.subrange(0, 8) == lim.magic@
    &&& le32(d, 8) == VERSION
}

/// The tree was built from the design and source that `id` names.
pub open spec fn identity_ok(d: Seq<u8>, id: CacheIdentity) -> bool {
    &&& le32(d, 12) == id.data_crc
    &&& le64(d, 16) == id.src_size
    &&& le64(d, 24) == id.src_mtime
    &&& le64(d, 32) == id.unit_bits
    &&& le32(d, 40) == id.top
}

/// The directory's extent: within the limits, ending where its records
/// and checksum end, inside the file.
pub open spec fn layout_ok(d: Seq<u8>, lim: TreeLimits) -> bool {
    &&& le32(d, 52) == 0
    &&& hdr_ng(d) <= lim.max_groups
    &&& hdr_nn(d) <= 2 * lim.max_points
    &&& hdr_end(d) == HEADER + GROUP * hdr_ng(d) + NODE * hdr_nn(d) + 4
    &&& hdr_end(d) <= d.len()
}

/// The directory's checksum, stored in its last four bytes, is that of
/// everything before.
pub open spec fn checksum_ok(d: Seq<u8>) -> bool {
    crc32_of(d.subrange(0, hdr_end(d) - 4)) == le32(d, hdr_end(d) - 4)
}

pub open spec fn group_off(g: int) -> int {
    HEADER + GROUP * g
}

pub open spec fn group_key(d: Seq<u8>, g: int) -> (u32, u32, u32) {
    (le32(d, group_off(g)), le32(d, group_off(g) + 4), le32(d, group_off(g) + 8))
}

pub open spec fn group_root(d: Seq<u8>, g: int) -> u32 {
    le32(d, group_off(g) + 12)
}

pub open spec fn group_count(d: Seq<u8>, g: int) -> u32 {
    le32(d, group_off(g) + 16)
}

pub open spec fn key_before(a: (u32, u32, u32), b: (u32, u32, u32)) -> bool {
    a.0 < b.0 || (a.0 == b.0 && (a.1 < b.1 || (a.1 == b.1 && a.2 < b.2)))
}

/// The last layer of `layers` that is `key`, as the design's layer map
/// keeps it.
pub open spec fn layer_of(layers: Seq<(u32, u32)>, key: (u32, u32)) -> Option<int>
    decreases layers.len(),
{
    if layers.len() == 0 {
        None
    } else if layers.last() == key {
        Some(layers.len() - 1)
    } else {
        layer_of(layers.drop_last(), key)
    }
}

/// The primitives of the first `k` groups.
pub open spec fn group_total(d: Seq<u8>, k: int) -> int
    decreases k,
{
    if k <= 0 {
        0
    } else {
        group_total(d, k - 1) + group_count(d, k - 1)
    }
}

/// Group `g` on its own: no reserved bits, a known depth, primitives
/// within its members, a root among the nodes and a layer of the design.
pub open spec fn group_ok(d: Seq<u8>, id: CacheIdentity, g: int) -> bool {
    &&& le32(d, group_off(g) + 20) == 0
    &&& group_key(d, g).2 <= MAX_DEPTH
    &&& group_count(d, g) != 0
    &&& group_count(d, g) <= le64(d, group_off(g) + 24)
    &&& group_root(d, g) < hdr_nn(d)
    &&& layer_of(id.layers@, (group_key(d, g).0, group_key(d, g).1)) is Some
}

/// Every group is valid, the keys strictly increase, and the groups hold
/// at most `max_points` primitives.
pub open spec fn groups_ok(d: Seq<u8>, id: CacheIdentity, lim: TreeLimits) -> bool {
    &&& forall|g: int| 0 <= g < hdr_ng(d) ==> #[trigger] group_ok(d, id, g)
    &&& forall|g: int| 0 < g < hdr_ng(d) ==> key_before(group_key(d, g - 1), #[trigger] group_key(d, g))
    &&& forall|g: int| 0 < g <= hdr_ng(d) ==> #[trigger] group_total(d, g) <= lim.max_points
}

pub open spec fn root_of(d: Seq<u8>, id: CacheIdentity, g: int) -> Root {
    Root {
        layer: layer_of(id.layers@, (group_key(d, g).0, group_key(d, g).1))->0 as usize,
        depth: group_key(d, g).2,
        root: group_root(d, g),
        count: group_count(d, g),
    }
}

pub open spec fn node_off(d: Seq<u8>, i: int) -> int {
    HEADER + GROUP * hdr_ng(d) + NODE * i
}

/// Node `i`'s record.
pub open spec fn meta_at(d: Seq<u8>, i: int) -> Meta {
    meta_from(d, node_off(d, i))
}

/// The node record at byte `o`.
#[verifier::opaque]
pub open spec fn meta_from(d: Seq<u8>, o: int) -> Meta {
    Meta {
        bbox: BBox { x0: lei64(d, o), y0: lei64(d, o + 8), x1: lei64(d, o + 16), y1: lei64(d, o + 24) },
        error: le64(d, o + 32),
        gate_min: le64(d, o + 40),
        gate_max: le64(d, o + 48),
        minor: le64(d, o + 56),
        first: le32(d, o + 64),
        children: le32(d, o + 68),
        count: le32(d, o + 72),
        flags: le32(d, o + 76),
        leaf_off: le64(d, o + 80),
        proxy_off: le64(d, o + 88),
        proxies: le32(d, o + 96),
        leaf_crc: le32(d, o + 100),
        proxy_crc: le32(d, o + 104),
    }
}

/// Node `i`'s reserved word.
pub open spec fn meta_reserved(d: Seq<u8>, i: int) -> u32 {
    le32(d, node_off(d, i) + 108)
}

/// A box with no point.
pub open spec fn box_empty(b: BBox) -> bool {
    b.x0 > b.x1 || b.y0 > b.y1
}

/// The bytes of a node's leaf block.
pub open spec fn leaf_bytes(m: Meta) -> int {
    if m.children == 0 {
        m.count * PRIM_BYTES
    } else {
        0
    }
}

/// The bytes of a node's proxy block.
pub open spec fn proxy_bytes(m: Meta) -> int {
    m.proxies * PRIM_BYTES
}

/// Where node `i`'s blocks start: right after the directory and the blocks
/// of the nodes before it.
pub open spec fn block_off(d: Seq<u8>, i: int) -> int
    decreases i,
{
    if i <= 0 {
        hdr_end(d)
    } else {
        block_off(d, i - 1) + leaf_bytes(meta_at(d, i - 1)) + proxy_bytes(meta_at(d, i - 1))
    }
}

/// Whether node `p` lists node `c` among its children.
pub open spec fn parent_of(m: Meta, c: int) -> bool {
    m.children > 0 && m.first <= c < m.first + m.children
}

/// Whether one of the first `k` nodes lists node `c` among its children.
pub open spec fn claimed(d: Seq<u8>, c: int, k: int) -> bool
    decreases k,
{
    if k <= 0 {
        false
    } else {
        claimed(d, c, k - 1) || parent_of(meta_at(d, k - 1), c)
    }
}

/// A parent bounds its child: it contains its box, spans its gate sizes,
/// and has no smaller minor size or error and no flag the child lacks.
pub open spec fn bounds_child(m: Meta, c: Meta) -> bool {
    &&& spec_contains(m.bbox, c.bbox)
    &&& m.gate_min <= c.gate_min
    &&& m.gate_max >= c.gate_max
    &&& m.minor >= c.minor
    &&& m.error >= c.error
    &&& (m.flags == RECTANGLES ==> c.flags == RECTANGLES)
}

/// Every child of `m`, which is node `i`, is unclaimed by the nodes
/// before it and bounded by `m`.
pub open spec fn children_ok(d: Seq<u8>, m: Meta, i: int) -> bool {
    forall|c: int| m.first <= c < m.first + m.children ==> !#[trigger] claimed(d, c, i) && bounds_child(m, meta_at(d, c))
}

/// Node `i` on its own, given the nodes before it.
pub open spec fn node_ok(d: Seq<u8>, lim: TreeLimits, i: int) -> bool {
    let m = meta_at(d, i);
    let off = block_off(d, i);
    &&& !box_empty(m.bbox)
    &&& m.gate_min <= m.gate_max
    &&& m.flags <= RECTANGLES
    &&& m.proxies <= PROXIES
    &&& (m.proxies > 0 ==> m.flags == RECTANGLES)
    &&& if m.children == 0 {
        &&& m.first == 0
        &&& m.count != 0
        &&& m.count <= lim.chunk
        &&& m.leaf_off == off
    } else {
        &&& m.count == 0
        &&& m.leaf_off == 0
        &&& m.leaf_crc == 0
        &&& m.children <= FANOUT
        &&& m.first + m.children <= i
        &&& children_ok(d, m, i)
    }
    &&& if m.proxies > 0 {
        m.proxy_off == off + leaf_bytes(m)
    } else {
        m.proxy_off == 0 && m.proxy_crc == 0
    }
    &&& block_off(d, i + 1) <= d.len()
}

/// The first node from `k` on that is refused, and why.
pub open spec fn node_error(d: Seq<u8>, lim: TreeLimits, k: int) -> Option<TreeError>
    decreases hdr_nn(d) - k,
{
    if k < 0 || k >= hdr_nn(d) {
        None
    } else if meta_reserved(d, k) != 0 {
        Some(TreeError::UnknownFlags)
    } else if !node_ok(d, lim, k) {
        Some(TreeError::Invalid)
    } else {
        node_error(d, lim, k + 1)
    }
}

/// The primitive count of nodes `a` to `b - 1`.
pub open spec fn seg_count(d: Seq<u8>, a: int, b: int) -> int
    decreases b - a,
{
    if b <= a {
        0
    } else {
        seg_count(d, a, b - 1) + meta_at(d, b - 1).count
    }
}

/// Where group `g`'s nodes start: right after the previous group's root.
pub open spec fn seg_start(d: Seq<u8>, g: int) -> int {
    if g <= 0 {
        0
    } else {
        group_root(d, g - 1) + 1
    }
}

/// Group `g`'s nodes run from its start to its root: every node before the
/// root has one parent, the root none, no child lies before the start, and
/// the leaves hold the group's primitives.
pub open spec fn segment_ok(d: Seq<u8>, g: int) -> bool {
    let a = seg_start(d, g);
    let r = group_root(d, g) as int;
    &&& a <= r
    &&& !claimed(d, r, hdr_nn(d))
    &&& forall|i: int| a <= i < r ==> #[trigger] claimed(d, i, hdr_nn(d))
    &&& forall|i: int| a <= i <= r ==> (#[trigger] meta_at(d, i)).children > 0 ==> meta_at(d, i).first >= a
    &&& seg_count(d, a, r + 1) == group_count(d, g)
}

/// The groups' trees are contiguous and independently rooted, cover every
/// node, and the blocks end where the file ends.
pub open spec fn forest_ok(d: Seq<u8>) -> bool {
    &&& forall|g: int| 0 <= g < hdr_ng(d) ==> #[trigger] segment_ok(d, g)
    &&& seg_start(d, hdr_ng(d)) == hdr_nn(d)
    &&& block_off(d, hdr_nn(d)) == d.len()
}

/// What reading a tree directory answers: the first check that fails, in
/// the order the file is read, or nothing.
pub open spec fn directory_result(d: Seq<u8>, id: CacheIdentity, lim: TreeLimits) -> Result<(), TreeError> {
    if !shape_ok(d, lim) {
        Err(TreeError::Invalid)
    } else if !identity_ok(d, id) {
        Err(TreeError::IdentityMismatch)
    } else if !layout_ok(d, lim) {
        Err(TreeError::Invalid)
    } else if !checksum_ok(d) {
        Err(TreeError::ChecksumMismatch)
    } else if !groups_ok(d, id, lim) {
        Err(TreeError::Invalid)
    } else {
        match node_error(d, lim, 0) {
            Some(e) => Err(e),
            None => if forest_ok(d) {
                Ok(())
            } else {
                Err(TreeError::Invalid)
            },
        }
    }
}

/// Whether `data` is a tree directory built from `id` within `lim`.
pub open spec fn directory_ok(d: Seq<u8>, id: CacheIdentity, lim: TreeLimits) -> bool {
    directory_result(d, id, lim) is Ok
}

fn read32(d: &[u8], o: usize) -> (r: u32)
    requires
        o + 4 <= d@.len(),
    ensures
        r == le32(d@, o as int),
{
    d[o] as u32 + 256 * (d[o + 1] as u32) + 65536 * (d[o + 2] as u32) + 16777216 * (d[o + 3] as u32)
}

fn read64(d: &[u8], o: usize) -> (r: u64)
    requires
        o + 8 <= d@.len(),
    ensures
        r == le64(d@, o as int),
{
    let _n = d.len();
    read32(d, o) as u64 + 4294967296 * (read32(d, o + 4) as u64)
}

fn readi64(d: &[u8], o: usize) -> (r: i64)
    requires
        o + 8 <= d@.len(),
    ensures
        r == lei64(d@, o as int),
{
    read64(d, o) as i64
}

/// What the header alone answers: its shape, identity, extent and checksum.
pub open spec fn header_result(d: Seq<u8>, id: CacheIdentity, lim: TreeLimits) -> Result<(), TreeError> {
    if !shape_ok(d, lim) {
        Err(TreeError::Invalid)
    } else if !identity_ok(d, id) {
        Err(TreeError::IdentityMismatch)
    } else if !layout_ok(d, lim) {
        Err(TreeError::Invalid)
    } else if !checksum_ok(d) {
        Err(TreeError::ChecksumMismatch)
    } else {
        Ok(())
    }
}

#[verifier::spinoff_prover]
fn check_header(d: &[u8], id: &CacheIdentity, lim: &TreeLimits) -> (r: Result<(u32, u32, usize), TreeError>)
    ensures
        r is Ok <==> header_result(d@, *id, *lim) is Ok,
        r matches Err(e) ==> header_result(d@, *id, *lim) == Err::<(), TreeError>(e),
        r matches Ok((ng, nn, end)) ==> ng == hdr_ng(d@) && nn == hdr_nn(d@) && end == hdr_end(d@),
{
    let n = d.len();
    if n < HEADER + 4 || n > CAP {
        return Err(TreeError::Invalid);
    }
    let mut k: usize = 0;
    while k < 8
        invariant
            k <= 8,
            n == d@.len(),
            n >= HEADER + 4,
            forall|j: int| 0 <= j < k ==> d@[j] == lim.magic@[j],
        decreases 8 - k,
    {
        if d[k] != lim.magic[k] {
            proof {
                assert(d@.subrange(0, 8)[k as int] != lim.magic@[k as int]);
            }
            return Err(TreeError::Invalid);
        }
        k = k + 1;
    }
    assert(d@.subrange(0, 8) =~= lim.magic@);
    if read32(d, 8) != VERSION {
        return Err(TreeError::Invalid);
    }
    if read32(d, 12) != id.data_crc || read64(d, 16) != id.src_size || read64(d, 24) != id.src_mtime
        || read64(d, 32) != id.unit_bits || read32(d, 40) != id.top {
        return Err(TreeError::IdentityMismatch);
    }
    let ng = read32(d, 44);
    let nn = read32(d, 48);
    if read32(d, 52) != 0 {
        return Err(TreeError::Invalid);
    }
    let end = read64(d, 56);
    if ng as u64 > lim.max_groups || nn as u128 > 2 * (lim.max_points as u128) {
        return Err(TreeError::Invalid);
    }
    let want: u64 = 64 + 32 * (ng as u64) + 112 * (nn as u64) + 4;
    if end != want || end > n as u64 {
        return Err(TreeError::Invalid);
    }
    let end = end as usize;
    let body = vstd::slice::slice_subrange(d, 0, end - 4);
    if crc32(body) != read32(d, end - 4) {
        return Err(TreeError::ChecksumMismatch);
    }
    Ok((ng, nn, end))
}

fn find_layer(layers: &Vec<(u32, u32)>, key: (u32, u32)) -> (r: Option<usize>)
    ensures
        match layer_of(layers@, key) {
            Some(i) => r == Some(i as usize),
            None => r is None,
        },
{
    let mut i: usize = layers.len();
    assert(layers@.take(i as int) =~= layers@);
    while i > 0
        invariant
            i <= layers@.len(),
            layer_of(layers@, key) == layer_of(layers@.take(i as int), key),
        decreases i,
    {
        proof {
            let t = layers@.take(i as int);
            assert(t.last() == layers@[i - 1]);
            assert(t.drop_last() =~= layers@.take(i - 1));
        }
        let (l, dt) = layers[i - 1];
        if l == key.0 && dt == key.1 {
            return Some(i - 1);
        }
        i = i - 1;
    }
    None
}

fn key_before_exec(a: (u32, u32, u32), b: (u32, u32, u32)) -> (r: bool)
    ensures
        r == key_before(a, b),
{
    a.0 < b.0 || (a.0 == b.0 && (a.1 < b.1 || (a.1 == b.1 && a.2 < b.2)))
}

#[verifier::spinoff_prover]
fn read_groups(d: &[u8], id: &CacheIdentity, lim: &TreeLimits, ng: u32, nn: u32) -> (r: Result<Vec<Root>, TreeError>)
    requires
        header_result(d@, *id, *lim) is Ok,
        ng == hdr_ng(d@),
        nn == hdr_nn(d@),
    ensures
        r is Ok <==> groups_ok(d@, *id, *lim),
        r matches Err(e) ==> e == TreeError::Invalid,
        r matches Ok(v) ==> v@ == Seq::new(ng as nat, |g: int| root_of(d@, *id, g)),
{
    let n = d.len();
    let mut roots: Vec<Root> = Vec::new();
    let mut total: u64 = 0;
    let mut g: usize = 0;
    while g < ng as usize
        invariant
            n == d@.len(),
            header_result(d@, *id, *lim) is Ok,
            ng == hdr_ng(d@),
            nn == hdr_nn(d@),
            g <= ng,
            roots@ == Seq::new(g as nat, |h: int| root_of(d@, *id, h)),
            total == group_total(d@, g as int),
            total <= lim.max_points,
            forall|h: int| 0 <= h < g ==> #[trigger] group_ok(d@, *id, h),
            forall|h: int| 0 < h < g ==> key_before(group_key(d@, h - 1), #[trigger] group_key(d@, h)),
            forall|h: int| 0 < h <= g ==> #[trigger] group_total(d@, h) <= lim.max_points,
        decreases ng - g,
    {
        let o = HEADER + GROUP * g;
        let key = (read32(d, o), read32(d, o + 4), read32(d, o + 8));
        let root = read32(d, o + 12);
        let count = read32(d, o + 16);
        if read32(d, o + 20) != 0 {
            assert(!group_ok(d@, *id, g as int));
            return Err(TreeError::Invalid);
        }
        let members = read64(d, o + 24);
        if g > 0 {
            let p = o - GROUP;
            let prev = (read32(d, p), read32(d, p + 4), read32(d, p + 8));
            if !key_before_exec(prev, key) {
                assert(group_key(d@, g - 1) == prev);
                assert(!key_before(group_key(d@, g - 1), group_key(d@, g as int)));
                return Err(TreeError::Invalid);
            }
        }
        if key.2 > MAX_DEPTH || count == 0 || count as u64 > members || root >= nn {
            assert(!group_ok(d@, *id, g as int));
            return Err(TreeError::Invalid);
        }
        assert(group_total(d@, g + 1) == group_total(d@, g as int) + group_count(d@, g as int));
        if count as u64 > lim.max_points - total {
            assert(!(group_total(d@, g + 1) <= lim.max_points));
            return Err(TreeError::Invalid);
        }
        total = total + count as u64;
        let layer = match find_layer(&id.layers, (key.0, key.1)) {
            Some(l) => l,
            None => {
                assert(!group_ok(d@, *id, g as int));
                return Err(TreeError::Invalid);
            },
        };
        roots.push(Root { layer, depth: key.2, root, count });
        proof {
            assert(roots@ =~= Seq::new((g + 1) as nat, |h: int| root_of(d@, *id, h)));
        }
        g = g + 1;
    }
    Ok(roots)
}

fn meta_record(d: &[u8], o: usize) -> (r: Meta)
    requires
        o + NODE <= d@.len(),
    ensures
        r == meta_from(d@, o as int),
{
    reveal(meta_from);
    let _n = d.len();
    Meta {
        bbox: BBox { x0: readi64(d, o), y0: readi64(d, o + 8), x1: readi64(d, o + 16), y1: readi64(d, o + 24) },
        error: read64(d, o + 32),
        gate_min: read64(d, o + 40),
        gate_max: read64(d, o + 48),
        minor: read64(d, o + 56),
        first: read32(d, o + 64),
        children: read32(d, o + 68),
        count: read32(d, o + 72),
        flags: read32(d, o + 76),
        leaf_off: read64(d, o + 80),
        proxy_off: read64(d, o + 88),
        proxies: read32(d, o + 96),
        leaf_crc: read32(d, o + 100),
        proxy_crc: read32(d, o + 104),
    }
}

/// Reads the node record at byte `o`; a record whose reserved word is not
/// zero carries flags this reader does not know.
pub fn read_meta(d: &[u8], o: usize) -> (r: Result<Meta, TreeError>)
    requires
        o + NODE <= d@.len(),
    ensures
        le32(d@, o + 108) != 0 ==> r == Err::<Meta, TreeError>(TreeError::UnknownFlags),
        le32(d@, o + 108) == 0 ==> r == Ok::<Meta, TreeError>(meta_from(d@, o as int)),
{
    let _n = d.len();
    let m = meta_record(d, o);
    if read32(d, o + 108) != 0 {
        return Err(TreeError::UnknownFlags);
    }
    Ok(m)
}

fn bounds_child_exec(m: &Meta, c: &Meta) -> (r: bool)
    ensures
        r == bounds_child(*m, *c),
{
    crate::geometry::contains(m.bbox, c.bbox) && m.gate_min <= c.gate_min && m.gate_max >= c.gate_max
        && m.minor >= c.minor && m.error >= c.error && !(m.flags == RECTANGLES && c.flags != RECTANGLES)
}

/// Claims node `i`'s children, each of which must be unclaimed and bounded
/// by it.
#[verifier::spinoff_prover]
fn claim_children(d: &[u8], i: usize, count: usize, m: &Meta, nodes: &Vec<Meta>, incoming: &mut Vec<bool>) -> (ok: bool)
    requires
        *m == meta_at(d@, i as int),
        m.children > 0,
        m.first + m.children <= i,
        i < count,
        nodes@ == Seq::new(i as nat, |k: int| meta_at(d@, k)),
        old(incoming)@.len() == count,
        forall|c: int| 0 <= c < count ==> old(incoming)@[c] == #[trigger] claimed(d@, c, i as int),
    ensures
        ok <==> children_ok(d@, *m, i as int),
        ok ==> final(incoming)@.len() == count && forall|c: int|
            0 <= c < count ==> final(incoming)@[c] == #[trigger] claimed(d@, c, i + 1),
{
    let ghost before = incoming@;
    let lo = m.first as usize;
    let hi = lo + m.children as usize;
    let mut ci: usize = lo;
    while ci < hi
        invariant
            lo == m.first,
            hi == m.first + m.children,
            hi <= i,
            i < count,
            lo <= ci <= hi,
            nodes@ == Seq::new(i as nat, |k: int| meta_at(d@, k)),
            incoming@.len() == count,
            before.len() == count,
            forall|c: int| 0 <= c < count ==> before[c] == #[trigger] claimed(d@, c, i as int),
            forall|c: int| 0 <= c < count && !(lo <= c < ci) ==> incoming@[c] == #[trigger] before[c],
            forall|c: int| lo <= c < ci ==> #[trigger] incoming@[c],
            forall|c: int| lo <= c < ci ==> !#[trigger] claimed(d@, c, i as int) && bounds_child(*m, meta_at(d@, c)),
        decreases hi - ci,
    {
        proof {
            assert(nodes@[ci as int] == meta_at(d@, ci as int));
            assert(incoming@[ci as int] == before[ci as int]);
            assert(before[ci as int] == claimed(d@, ci as int, i as int));
        }
        let taken = incoming[ci];
        let fits = bounds_child_exec(m, &nodes[ci]);
        if taken || !fits {
            assert(!(!claimed(d@, ci as int, i as int) && bounds_child(*m, meta_at(d@, ci as int))));
            return false;
        }
        let ghost prev = incoming@;
        incoming.set(ci, true);
        proof {
            assert forall|c: int| lo <= c < ci + 1 implies !#[trigger] claimed(d@, c, i as int) && bounds_child(
                *m,
                meta_at(d@, c),
            ) by {
                if c < ci {
                    assert(prev[c]);
                }
            }
        }
        ci = ci + 1;
    }
    proof {
        assert forall|c: int| 0 <= c < count implies incoming@[c] == #[trigger] claimed(d@, c, i + 1) by {
            assert(claimed(d@, c, i + 1) == (claimed(d@, c, i as int) || parent_of(meta_at(d@, i as int), c)));
            if !(lo <= c < hi) {
                assert(incoming@[c] == before[c]);
            }
        }
    }
    true
}

/// Checks node `i`, given the nodes before it, and claims its children.
#[verifier::spinoff_prover]
fn check_node(
    d: &[u8],
    lim: &TreeLimits,
    ng: u32,
    count: usize,
    i: usize,
    offset: u64,
    nodes: &Vec<Meta>,
    incoming: &mut Vec<bool>,
) -> (r: Result<(Meta, u64), TreeError>)
    requires
        shape_ok(d@, *lim),
        layout_ok(d@, *lim),
        ng == hdr_ng(d@),
        count == hdr_nn(d@),
        i < count,
        nodes@ == Seq::new(i as nat, |k: int| meta_at(d@, k)),
        offset == block_off(d@, i as int),
        offset <= d@.len(),
        old(incoming)@.len() == count,
        forall|c: int| 0 <= c < count ==> old(incoming)@[c] == #[trigger] claimed(d@, c, i as int),
    ensures
        r matches Err(e) ==> node_error(d@, *lim, i as int) == Some(e),
        r matches Ok((m, off)) ==> {
            &&& m == meta_at(d@, i as int)
            &&& off == block_off(d@, i + 1)
            &&& off <= d@.len()
            &&& node_error(d@, *lim, i as int) == node_error(d@, *lim, i + 1)
            &&& final(incoming)@.len() == count
            &&& forall|c: int| 0 <= c < count ==> final(incoming)@[c] == #[trigger] claimed(d@, c, i + 1)
        },
{
    let n = d.len();
    let o = HEADER + GROUP * (ng as usize) + NODE * i;
    let m = match read_meta(d, o) {
        Ok(m) => m,
        Err(e) => {
            assert(node_error(d@, *lim, i as int) == Some(TreeError::UnknownFlags));
            return Err(e);
        },
    };
    assert(m == meta_at(d@, i as int));
    assert(meta_reserved(d@, i as int) == 0);
    if m.bbox.x0 > m.bbox.x1 || m.bbox.y0 > m.bbox.y1 || m.gate_min > m.gate_max || m.flags > RECTANGLES
        || m.proxies as usize > PROXIES || (m.proxies > 0 && m.flags != RECTANGLES) {
        assert(!node_ok(d@, *lim, i as int));
        return Err(TreeError::Invalid);
    }
    let mut off2: u64 = offset;
    if m.children == 0 {
        if m.first != 0 || m.count == 0 || m.count as u64 > lim.chunk || m.leaf_off != offset {
            assert(!node_ok(d@, *lim, i as int));
            return Err(TreeError::Invalid);
        }
        off2 = offset + m.count as u64 * 64;
        proof {
            assert forall|c: int| 0 <= c < count implies incoming@[c] == #[trigger] claimed(d@, c, i + 1) by {
                assert(claimed(d@, c, i + 1) == (claimed(d@, c, i as int) || parent_of(meta_at(d@, i as int), c)));
            }
        }
    } else {
        if m.count != 0 || m.leaf_off != 0 || m.leaf_crc != 0 || m.children > FANOUT
            || m.first as u64 + m.children as u64 > i as u64 {
            assert(!node_ok(d@, *lim, i as int));
            return Err(TreeError::Invalid);
        }
        if !claim_children(d, i, count, &m, nodes, incoming) {
            assert(!node_ok(d@, *lim, i as int));
            return Err(TreeError::Invalid);
        }
    }
    assert(off2 == block_off(d@, i as int) + leaf_bytes(m));
    if m.proxies > 0 {
        if m.proxy_off != off2 {
            assert(!node_ok(d@, *lim, i as int));
            return Err(TreeError::Invalid);
        }
    } else if m.proxy_off != 0 || m.proxy_crc != 0 {
        assert(!node_ok(d@, *lim, i as int));
        return Err(TreeError::Invalid);
    }
    let off3 = off2 + m.proxies as u64 * 64;
    assert(off3 == block_off(d@, i + 1));
    if off3 > n as u64 {
        assert(!node_ok(d@, *lim, i as int));
        return Err(TreeError::Invalid);
    }
    assert(!box_empty(m.bbox));
    assert(m.gate_min <= m.gate_max);
    assert(m.flags <= RECTANGLES);
    assert(m.proxies <= PROXIES);
    assert(m.children == 0 ==> m.first == 0 && m.count != 0 && m.count <= lim.chunk && m.leaf_off == block_off(d@, i as int));
    assert(block_off(d@, i + 1) <= d@.len());
    assert(m.children != 0 ==> m.count == 0 && m.leaf_off == 0 && m.leaf_crc == 0 && m.children <= FANOUT
        && m.first + m.children <= i);
    assert(m.children != 0 ==> children_ok(d@, m, i as int));
    assert(if m.proxies > 0 {
        m.proxy_off == block_off(d@, i as int) + leaf_bytes(m)
    } else {
        m.proxy_off == 0 && m.proxy_crc == 0
    });
    assert(node_ok(d@, *lim, i as int));
    assert(node_error(d@, *lim, i as int) == node_error(d@, *lim, i + 1));
    Ok((m, off3))
}

#[verifier::spinoff_prover]
fn read_nodes(d: &[u8], lim: &TreeLimits, ng: u32, nn: u32, end: usize) -> (r: Result<(Vec<Meta>, Vec<bool>, u64), TreeError>)
    requires
        shape_ok(d@, *lim),
        layout_ok(d@, *lim),
        ng == hdr_ng(d@),
        nn == hdr_nn(d@),
        end == hdr_end(d@),
    ensures
        r matches Err(e) ==> node_error(d@, *lim, 0) == Some(e),
        r is Ok ==> node_error(d@, *lim, 0) is None,
        r matches Ok((nodes, incoming, offset)) ==> {
            &&& nodes@ == Seq::new(nn as nat, |i: int| meta_at(d@, i))
            &&& incoming@.len() == nn
            &&& forall|c: int| 0 <= c < nn ==> incoming@[c] == #[trigger] claimed(d@, c, nn as int)
            &&& offset == block_off(d@, nn as int)
        },
{
    let count = nn as usize;
    let mut incoming: Vec<bool> = Vec::new();
    while incoming.len() < count
        invariant
            incoming@.len() <= count,
            forall|c: int| 0 <= c < incoming@.len() ==> !#[trigger] incoming@[c],
        decreases count - incoming@.len(),
    {
        incoming.push(false);
    }
    let mut nodes: Vec<Meta> = Vec::new();
    let mut offset: u64 = end as u64;
    let mut i: usize = 0;
    while i < count
        invariant
            shape_ok(d@, *lim),
            layout_ok(d@, *lim),
            ng == hdr_ng(d@),
            nn == hdr_nn(d@),
            count == nn,
            i <= count,
            nodes@ == Seq::new(i as nat, |k: int| meta_at(d@, k)),
            offset == block_off(d@, i as int),
            offset <= d@.len(),
            node_error(d@, *lim, 0) == node_error(d@, *lim, i as int),
            incoming@.len() == count,
            forall|c: int| 0 <= c < count ==> incoming@[c] == #[trigger] claimed(d@, c, i as int),
        decreases count - i,
    {
        let (m, off) = check_node(d, lim, ng, count, i, offset, &nodes, &mut incoming)?;
        offset = off;
        nodes.push(m);
        proof {
            assert(nodes@ =~= Seq::new((i + 1) as nat, |k: int| meta_at(d@, k)));
        }
        i = i + 1;
    }
    Ok((nodes, incoming, offset))
}

proof fn lemma_seg_count_grows(d: Seq<u8>, a: int, b: int, c: int)
    requires
        b <= c,
    ensures
        seg_count(d, a, b) <= seg_count(d, a, c),
    decreases c - b,
{
    if b < c {
        lemma_seg_count_grows(d, a, b, c - 1);
        if c - 1 >= a {
            assert(seg_count(d, a, c) == seg_count(d, a, c - 1) + meta_at(d, c - 1).count);
        }
    }
}

/// Checks group `g`'s segment of nodes, which starts at `start`.
#[verifier::spinoff_prover]
fn check_segment(d: &[u8], g: usize, start: usize, root: &Root, nodes: &Vec<Meta>, incoming: &Vec<bool>) -> (ok: bool)
    requires
        nodes@ == Seq::new(hdr_nn(d@) as nat, |i: int| meta_at(d@, i)),
        incoming@.len() == hdr_nn(d@),
        forall|c: int| 0 <= c < hdr_nn(d@) ==> incoming@[c] == #[trigger] claimed(d@, c, hdr_nn(d@)),
        start == seg_start(d@, g as int),
        root.root == group_root(d@, g as int),
        root.count == group_count(d@, g as int),
        root.root < hdr_nn(d@),
    ensures
        ok == segment_ok(d@, g as int),
{
    let r = root.root as usize;
    if r < start || incoming[r] {
        return false;
    }
    let mut cnt: u64 = 0;
    let mut i: usize = start;
    while i <= r
        invariant
            start <= i <= r + 1,
            r < nodes@.len(),
            start == seg_start(d@, g as int),
            r == group_root(d@, g as int),
            root.count == group_count(d@, g as int),
            !claimed(d@, r as int, hdr_nn(d@)),
            nodes@ == Seq::new(hdr_nn(d@) as nat, |k: int| meta_at(d@, k)),
            incoming@.len() == hdr_nn(d@),
            forall|c: int| 0 <= c < hdr_nn(d@) ==> incoming@[c] == #[trigger] claimed(d@, c, hdr_nn(d@)),
            cnt == seg_count(d@, start as int, i as int),
            cnt <= root.count,
            forall|j: int| start <= j < i && j < r ==> #[trigger] claimed(d@, j, hdr_nn(d@)),
            forall|j: int| start <= j < i ==> (#[trigger] meta_at(d@, j)).children > 0 ==> meta_at(d@, j).first >= start,
        decreases r + 1 - i,
    {
        let m = nodes[i];
        assert(m == meta_at(d@, i as int));
        assert(incoming@[i as int] == claimed(d@, i as int, hdr_nn(d@)));
        if (i < r && !incoming[i]) || (m.children > 0 && (m.first as usize) < start) {
            assert(!segment_ok(d@, g as int));
            return false;
        }
        assert(seg_count(d@, start as int, i + 1) == cnt + m.count);
        if m.count as u64 > root.count as u64 - cnt {
            proof {
                lemma_seg_count_grows(d@, start as int, i + 1, r + 1);
                assert(seg_count(d@, start as int, r + 1) != group_count(d@, g as int));
            }
            return false;
        }
        cnt = cnt + m.count as u64;
        i = i + 1;
    }
    cnt == root.count as u64
}

#[verifier::spinoff_prover]
fn check_forest(d: &[u8], id: &CacheIdentity, lim: &TreeLimits, roots: &Vec<Root>, nodes: &Vec<Meta>, incoming: &Vec<bool>, offset: u64) -> (ok: bool)
    requires
        groups_ok(d@, *id, *lim),
        roots@ == Seq::new(hdr_ng(d@) as nat, |g: int| root_of(d@, *id, g)),
        nodes@ == Seq::new(hdr_nn(d@) as nat, |i: int| meta_at(d@, i)),
        incoming@.len() == hdr_nn(d@),
        forall|c: int| 0 <= c < hdr_nn(d@) ==> incoming@[c] == #[trigger] claimed(d@, c, hdr_nn(d@)),
        offset == block_off(d@, hdr_nn(d@)),
    ensures
        ok == forest_ok(d@),
{
    let mut start: usize = 0;
    let mut g: usize = 0;
    while g < roots.len()
        invariant
            g <= roots@.len(),
            groups_ok(d@, *id, *lim),
            roots@ == Seq::new(hdr_ng(d@) as nat, |h: int| root_of(d@, *id, h)),
            nodes@ == Seq::new(hdr_nn(d@) as nat, |i: int| meta_at(d@, i)),
            incoming@.len() == hdr_nn(d@),
            forall|c: int| 0 <= c < hdr_nn(d@) ==> incoming@[c] == #[trigger] claimed(d@, c, hdr_nn(d@)),
            start == seg_start(d@, g as int),
            forall|h: int| 0 <= h < g ==> #[trigger] segment_ok(d@, h),
        decreases roots@.len() - g,
    {
        assert(group_ok(d@, *id, g as int));
        if !check_segment(d, g, start, &roots[g], nodes, incoming) {
            return false;
        }
        start = roots[g].root as usize + 1;
        g = g + 1;
    }
    start == nodes.len() && offset == d.len() as u64
}

/// Reads the directory of a tree file `data` that must have been built from
/// the design `id` names, within `limits`: see `directory_result` for what
/// is refused, and in which order. A directory read gives each group's root
/// and every node record.
#[verifier::spinoff_prover]
pub fn parse_tree(data: &[u8], id: &CacheIdentity, limits: &TreeLimits) -> (r: Result<TreeDirectory, TreeError>)
    ensures
        r is Ok <==> directory_ok(data@, *id, *limits),
        r matches Err(e) ==> directory_result(data@, *id, *limits) == Err::<(), TreeError>(e),
        r matches Ok(t) ==> t.roots@ == Seq::new(hdr_ng(data@) as nat, |g: int| root_of(data@, *id, g))
            && t.nodes@ == Seq::new(hdr_nn(data@) as nat, |i: int| meta_at(data@, i)),
{
    let (ng, nn, end) = match check_header(data, id, limits) {
        Ok(h) => h,
        Err(e) => return Err(e),
    };
    let roots = match read_groups(data, id, limits, ng, nn) {
        Ok(v) => v,
        Err(e) => return Err(e),
    };
    let (nodes, incoming, offset) = match read_nodes(data, limits, ng, nn, end) {
        Ok(v) => v,
        Err(e) => return Err(e),
    };
    if !check_forest(data, id, limits, &roots, &nodes, &incoming, offset) {
        return Err(TreeError::Invalid);
    }
    Ok(TreeDirectory { roots, nodes })
}

/// Appends `v` in four little-endian bytes.
fn put32(out: &mut Vec<u8>, v: u32)
    ensures
        final(out)@.len() == old(out)@.len() + 4,
        final(out)@.subrange(0, old(out)@.len() as int) == old(out)@,
        le32(final(out)@, old(out)@.len() as int) == v,
{
    let ghost o = out@.len() as int;
    out.push((v % 256) as u8);
    out.push((v / 256 % 256) as u8);
    out.push((v / 65536 % 256) as u8);
    out.push((v / 16777216) as u8);
    assert(out@.subrange(0, o) =~= old(out)@);
}

/// Appends `v` in eight little-endian bytes.
fn put64(out: &mut Vec<u8>, v: u64)
    ensures
        final(out)@.len() == old(out)@.len() + 8,
        final(out)@.subrange(0, old(out)@.len() as int) == old(out)@,
        le64(final(out)@, old(out)@.len() as int) == v,
{
    let ghost o = out@.len() as int;
    put32(out, (v % 4294967296) as u32);
    let ghost mid = out@;
    put32(out, (v / 4294967296) as u32);
    assert(out@.subrange(0, o + 4) =~= mid.subrange(0, o + 4));
    assert(le32(out@, o) == le32(mid, o)) by {
        assert(out@[o] == mid[o] && out@[o + 1] == mid[o + 1] && out@[o + 2] == mid[o + 2] && out@[o + 3] == mid[o + 3]);
    }
    assert(out@.subrange(0, o) =~= old(out)@) by {
        assert(mid.subrange(0, o) =~= old(out)@);
    }
}

/// Appends the `i64` `v` in eight little-endian two's-complement bytes.
fn puti64(out: &mut Vec<u8>, v: i64)
    ensures
        final(out)@.len() == old(out)@.len() + 8,
        final(out)@.subrange(0, old(out)@.len() as int) == old(out)@,
        lei64(final(out)@, old(out)@.len() as int) == v,
{
    let u = v as u64;
    assert((u as i64) == v) by (bit_vector)
        requires
            u == v as u64,
    ;
    put64(out, u);
}

/// Whether `a` is a prefix of `b`.
pub open spec fn pre(a: Seq<u8>, b: Seq<u8>) -> bool {
    a.len() <= b.len() && b.subrange(0, a.len() as int) == a
}

proof fn lemma_pre_trans(a: Seq<u8>, b: Seq<u8>, c: Seq<u8>)
    requires
        b.len() >= a.len() && b.subrange(0, a.len() as int) == a,
        pre(b, c),
    ensures
        pre(a, c),
{
    assert(c.subrange(0, a.len() as int) =~= a) by {
        assert forall|j: int| 0 <= j < a.len() implies c[j] == a[j] by {
            assert(c.subrange(0, b.len() as int)[j] == c[j]);
            assert(b.subrange(0, a.len() as int)[j] == b[j]);
        }
    }
}

proof fn lemma_keep32(a: Seq<u8>, b: Seq<u8>, o: int)
    requires
        0 <= o,
        o + 4 <= a.len(),
        pre(a, b),
    ensures
        le32(b, o) == le32(a, o),
{
    assert(b.subrange(0, a.len() as int)[o] == b[o]);
    assert(b.subrange(0, a.len() as int)[o + 1] == b[o + 1]);
    assert(b.subrange(0, a.len() as int)[o + 2] == b[o + 2]);
    assert(b.subrange(0, a.len() as int)[o + 3] == b[o + 3]);
}

proof fn lemma_keep64(a: Seq<u8>, b: Seq<u8>, o: int)
    requires
        0 <= o,
        o + 8 <= a.len(),
        pre(a, b),
    ensures
        le64(b, o) == le64(a, o),
{
    lemma_keep32(a, b, o);
    lemma_keep32(a, b, o + 4);
}

proof fn lemma_keep_i64(a: Seq<u8>, b: Seq<u8>, o: int)
    requires
        0 <= o,
        o + 8 <= a.len(),
        pre(a, b),
    ensures
        lei64(b, o) == lei64(a, o),
{
    lemma_keep64(a, b, o);
}

/// Appends node record `m`, which `read_meta` reads back, with a zero
/// reserved word.
#[verifier::spinoff_prover]
pub fn put_meta(out: &mut Vec<u8>, m: &Meta)
    requires
        old(out)@.len() + NODE <= usize::MAX,
    ensures
        final(out)@.len() == old(out)@.len() + NODE,
        final(out)@.subrange(0, old(out)@.len() as int) == old(out)@,
        meta_from(final(out)@, old(out)@.len() as int) == *m,
        le32(final(out)@, old(out)@.len() as int + 108) == 0,
{
    let ghost o = out@.len() as int;
    let ghost s0 = out@;
    puti64(out, m.bbox.x0);
    let ghost s1 = out@;
    puti64(out, m.bbox.y0);
    let ghost s2 = out@;
    puti64(out, m.bbox.x1);
    let ghost s3 = out@;
    puti64(out, m.bbox.y1);
    let ghost s4 = out@;
    put64(out, m.error);
    let ghost s5 = out@;
    put64(out, m.gate_min);
    let ghost s6 = out@;
    put64(out, m.gate_max);
    let ghost s7 = out@;
    put64(out, m.minor);
    let ghost s8 = out@;
    put32(out, m.first);
    let ghost s9 = out@;
    put32(out, m.children);
    let ghost s10 = out@;
    put32(out, m.count);
    let ghost s11 = out@;
    put32(out, m.flags);
    let ghost s12 = out@;
    put64(out, m.leaf_off);
    let ghost s13 = out@;
    put64(out, m.proxy_off);
    let ghost s14 = out@;
    put32(out, m.proxies);
    let ghost s15 = out@;
    put32(out, m.leaf_crc);
    let ghost s16 = out@;
    put32(out, m.proxy_crc);
    let ghost s17 = out@;
    put32(out, 0);
    let ghost s18 = out@;
    proof {
        assert(s18.subrange(0, s18.len() as int) =~= s18);
        lemma_pre_trans(s17, s18, s18);
        lemma_pre_trans(s16, s17, s18);
        lemma_pre_trans(s15, s16, s18);
        lemma_pre_trans(s14, s15, s18);
        lemma_pre_trans(s13, s14, s18);
        lemma_pre_trans(s12, s13, s18);
        lemma_pre_trans(s11, s12, s18);
        lemma_pre_trans(s10, s11, s18);
        lemma_pre_trans(s9, s10, s18);
        lemma_pre_trans(s8, s9, s18);
        lemma_pre_trans(s7, s8, s18);
        lemma_pre_trans(s6, s7, s18);
        lemma_pre_trans(s5, s6, s18);
        lemma_pre_trans(s4, s5, s18);
        lemma_pre_trans(s3, s4, s18);
        lemma_pre_trans(s2, s3, s18);
        lemma_pre_trans(s1, s2, s18);
        lemma_keep_i64(s1, s18, o + 0);
        lemma_keep_i64(s2, s18, o + 8);
        lemma_keep_i64(s3, s18, o + 16);
        lemma_keep_i64(s4, s18, o + 24);
        lemma_keep64(s5, s18, o + 32);
        lemma_keep64(s6, s18, o + 40);
        lemma_keep64(s7, s18, o + 48);
        lemma_keep64(s8, s18, o + 56);
        lemma_keep32(s9, s18, o + 64);
        lemma_keep32(s10, s18, o + 68);
        lemma_keep32(s11, s18, o + 72);
        lemma_keep32(s12, s18, o + 76);
        lemma_keep64(s13, s18, o + 80);
        lemma_keep64(s14, s18, o + 88);
        lemma_keep32(s15, s18, o + 96);
        lemma_keep32(s16, s18, o + 100);
        lemma_keep32(s17, s18, o + 104);
        lemma_keep32(s18, s18, o + 108);
        lemma_pre_trans(s0, s1, s18);
        reveal(meta_from);
    }
}

/// Whether the 64 bytes at `o` are the record of primitive `p` of group
/// `group`: little-endian words for its group and rank, its corners, its
/// gate dimension and its stroke, then its kind, its flags and six zero
/// bytes.
pub open spec fn prim_record(d: Seq<u8>, o: int, p: Prim, group: u32) -> bool {
    &&& le64(d, o) == group * 4294967296 + p.rank
    &&& lei64(d, o + 8) == p.x0
    &&& lei64(d, o + 16) == p.y0
    &&& lei64(d, o + 24) == p.x1
    &&& lei64(d, o + 32) == p.y1
    &&& le64(d, o + 40) == p.gate_dim
    &&& le64(d, o + 48) == p.thickness
    &&& d[o + 56] == p.kind
    &&& d[o + 57] == p.flags
    &&& forall|j: int| o + 58 <= j < o + 64 ==> d[j] == 0
}

proof fn lemma_keep_record(a: Seq<u8>, b: Seq<u8>, o: int, p: Prim, group: u32)
    requires
        0 <= o,
        o + 64 <= a.len(),
        pre(a, b),
        prim_record(a, o, p, group),
    ensures
        prim_record(b, o, p, group),
{
    lemma_keep64(a, b, o);
    lemma_keep_i64(a, b, o + 8);
    lemma_keep_i64(a, b, o + 16);
    lemma_keep_i64(a, b, o + 24);
    lemma_keep_i64(a, b, o + 32);
    lemma_keep64(a, b, o + 40);
    lemma_keep64(a, b, o + 48);
    assert forall|j: int| o + 56 <= j < o + 64 implies b[j] == a[j] by {
        assert(b.subrange(0, a.len() as int)[j] == b[j]);
    }
}

#[verifier::spinoff_prover]
fn put_prim(out: &mut Vec<u8>, p: &Prim, group: u32)
    requires
        old(out)@.len() + 64 <= usize::MAX,
    ensures
        final(out)@.len() == old(out)@.len() + 64,
        pre(old(out)@, final(out)@),
        prim_record(final(out)@, old(out)@.len() as int, *p, group),
{
    let ghost o = out@.len() as int;
    let ghost s0 = out@;
    put64(out, (group as u64) * 4294967296 + p.rank as u64);
    let ghost s1 = out@;
    puti64(out, p.x0);
    let ghost s2 = out@;
    puti64(out, p.y0);
    let ghost s3 = out@;
    puti64(out, p.x1);
    let ghost s4 = out@;
    puti64(out, p.y1);
    let ghost s5 = out@;
    put64(out, p.gate_dim);
    let ghost s6 = out@;
    put64(out, p.thickness);
    let ghost s7 = out@;
    out.push(p.kind);
    out.push(p.flags);
    assert(out@.subrange(0, s7.len() as int) =~= s7);
    let mut z: usize = 0;
    while z < 6
        invariant
            z <= 6,
            s7.len() == o + 56,
            out@.len() == o + 58 + z,
            pre(s7, out@),
            out@[o + 56] == p.kind,
            out@[o + 57] == p.flags,
            forall|j: int| o + 58 <= j < o + 58 + z ==> out@[j] == 0,
        decreases 6 - z,
    {
        let ghost before = out@;
        out.push(0);
        proof {
            assert(out@.subrange(0, before.len() as int) =~= before);
            lemma_pre_trans(s7, before, out@);
        }
        z = z + 1;
    }
    proof {
        assert(out@.subrange(0, out@.len() as int) =~= out@);
        assert(s7.subrange(0, s7.len() as int) =~= s7);
        lemma_pre_trans(s7, s7, out@);
        lemma_pre_trans(s6, s7, out@);
        lemma_pre_trans(s5, s6, out@);
        lemma_pre_trans(s4, s5, out@);
        lemma_pre_trans(s3, s4, out@);
        lemma_pre_trans(s2, s3, out@);
        lemma_pre_trans(s1, s2, out@);
        lemma_keep64(s1, out@, o + 0);
        lemma_keep_i64(s2, out@, o + 8);
        lemma_keep_i64(s3, out@, o + 16);
        lemma_keep_i64(s4, out@, o + 24);
        lemma_keep_i64(s5, out@, o + 32);
        lemma_keep64(s6, out@, o + 40);
        lemma_keep64(s7, out@, o + 48);
        lemma_pre_trans(s0, s1, out@);
    }
}

/// The records of primitives `ps` of group `group`, 64 bytes each.
#[verifier::spinoff_prover]
pub fn prim_bytes(ps: &Vec<Prim>, group: u32) -> (r: Vec<u8>)
    requires
        64 * ps@.len() <= usize::MAX,
    ensures
        r@.len() == 64 * ps@.len(),
        forall|k: int| 0 <= k < ps@.len() ==> prim_record(r@, 64 * k, #[trigger] ps@[k], group),
{
    let mut out: Vec<u8> = Vec::new();
    let mut k: usize = 0;
    while k < ps.len()
        invariant
            k <= ps@.len(),
            64 * ps@.len() <= usize::MAX,
            out@.len() == 64 * k,
            forall|q: int| 0 <= q < k ==> prim_record(out@, 64 * q, #[trigger] ps@[q], group),
        decreases ps@.len() - k,
    {
        let ghost before = out@;
        put_prim(&mut out, &ps[k], group);
        proof {
            assert forall|q: int| 0 <= q < k + 1 implies prim_record(out@, 64 * q, #[trigger] ps@[q], group) by {
                if q < k {
                    lemma_keep_record(before, out@, 64 * q, ps@[q], group);
                }
            }
        }
        k = k + 1;
    }
    out
}

/// `a / b` rounded up.
pub open spec fn ceil_div(a: nat, b: nat) -> nat {
    ((a + b - 1) / b as int) as nat
}

/// The nodes above `n` nodes of one level: each level has an eighth of
/// the one below, rounded up, until one is left.
pub open spec fn levels_above(n: nat) -> nat
    decreases n,
{
    if n <= 1 {
        0
    } else {
        ceil_div(n, FANOUT as nat) + levels_above(ceil_div(n, FANOUT as nat))
    }
}

/// The nodes of a tree over `count` primitives with `chunk` per leaf.
pub open spec fn tree_nodes(count: nat, chunk: nat) -> nat {
    ceil_div(count, chunk) + levels_above(ceil_div(count, chunk))
}

/// How many nodes a tree over `count` primitives, `chunk` per leaf, has.
#[verifier::spinoff_prover]
pub fn node_count(count: usize, chunk: usize) -> (r: usize)
    requires
        chunk > 0,
        tree_nodes(count as nat, chunk as nat) <= usize::MAX,
    ensures
        r == tree_nodes(count as nat, chunk as nat),
{
    let q: usize = count / chunk;
    let rem: usize = count % chunk;
    proof {
        let c = count as int;
        let k = chunk as int;
        assert(c == k * (c / k) + c % k && 0 <= c % k < k) by (nonlinear_arith)
            requires
                k > 0,
        ;
        assert(rem != 0 ==> q < c) by (nonlinear_arith)
            requires
                k > 0,
                c == k * q + rem,
                0 <= rem < k,
                q >= 0,
        ;
        assert((c + k - 1) / k == q + (if rem != 0 {
            1int
        } else {
            0int
        })) by (nonlinear_arith)
            requires
                k > 0,
                c == k * q + rem,
                0 <= rem < k,
        ;
    }
    let mut n: usize = q + if rem != 0 {
        1
    } else {
        0
    };
    assert(n == ceil_div(count as nat, chunk as nat));
    let mut total: usize = n;
    while n > 1
        invariant
            total + levels_above(n as nat) == tree_nodes(count as nat, chunk as nat),
            tree_nodes(count as nat, chunk as nat) <= usize::MAX,
        decreases n,
    {
        let next: usize = n / 8 + if n % 8 != 0 {
            1
        } else {
            0
        };
        assert(next == ceil_div(n as nat, FANOUT as nat));
        assert(levels_above(n as nat) == next + levels_above(next as nat));
        n = next;
        total = total + n;
    }
    total
}

/// A node being built: its record, where its primitives start, and its
/// proxies.
pub struct BuildNode {
    pub meta: Meta,
    pub leaf_start: usize,
    pub proxy: Vec<Prim>,
}

/// The smallest box holding every primitive of a nonempty `s`.
pub open spec fn seq_box(s: Seq<Prim>) -> BBox
    decreases s.len(),
{
    if s.len() <= 1 {
        prim_box(s[0])
    } else {
        union_box(seq_box(s.drop_last()), prim_box(s.last()))
    }
}

/// The smallest gate size of a nonempty `s`.
pub open spec fn min_gate(s: Seq<Prim>) -> u64
    decreases s.len(),
{
    if s.len() <= 1 {
        s[0].gate_dim
    } else {
        min_i(min_gate(s.drop_last()) as int, s.last().gate_dim as int) as u64
    }
}

/// The largest gate size of a nonempty `s`.
pub open spec fn max_gate(s: Seq<Prim>) -> u64
    decreases s.len(),
{
    if s.len() <= 1 {
        s[0].gate_dim
    } else {
        max_i(max_gate(s.drop_last()) as int, s.last().gate_dim as int) as u64
    }
}

/// A primitive's minor size: the smaller side of its box.
pub open spec fn minor_of(p: Prim) -> u64 {
    min_i(p.x1 - p.x0, p.y1 - p.y0) as u64
}

/// The largest minor size of a nonempty `s`.
pub open spec fn max_minor(s: Seq<Prim>) -> u64
    decreases s.len(),
{
    if s.len() <= 1 {
        minor_of(s[0])
    } else {
        max_i(max_minor(s.drop_last()) as int, minor_of(s.last()) as int) as u64
    }
}

/// Whether every primitive of `s` is of kind `rect_kind`.
pub open spec fn all_of_kind(s: Seq<Prim>, rect_kind: u8) -> bool {
    forall|j: int| 0 <= j < s.len() ==> (#[trigger] s[j]).kind == rect_kind
}

fn minor(p: &Prim) -> (r: u64)
    ensures
        r == minor_of(*p),
{
    let w: i128 = p.x1 as i128 - p.x0 as i128;
    let h: i128 = p.y1 as i128 - p.y0 as i128;
    let m: i128 = if w <= h {
        w
    } else {
        h
    };
    m as u64
}

/// The record of the leaf over primitives `s`: their union, gate span,
/// largest minor size, count and rectangle flag, and its proxies' count and
/// error as `summarize` gives them; no children and no blocks yet.
pub open spec fn node_meta(s: Seq<Prim>, rect_kind: u8) -> Meta {
    Meta {
        bbox: seq_box(s),
        error: summarized(s, 0, rect_kind).1,
        gate_min: min_gate(s),
        gate_max: max_gate(s),
        minor: max_minor(s),
        first: 0,
        children: 0,
        count: s.len() as u32,
        flags: if all_of_kind(s, rect_kind) {
            RECTANGLES
        } else {
            0
        },
        leaf_off: 0,
        proxy_off: 0,
        proxies: summarized(s, 0, rect_kind).0.len() as u32,
        leaf_crc: 0,
        proxy_crc: 0,
    }
}

/// The leaf node over primitives `input`, which start at `leaf_start`: its
/// box, gate sizes, minor size, count and rectangle flag, and its proxies
/// and their error as `summarize` gives them.
#[verifier::spinoff_prover]
pub fn node(input: &[Prim], leaf_start: usize, rect_kind: u8) -> (r: BuildNode)
    requires
        0 < input@.len() <= u32::MAX,
    ensures
        r.meta == node_meta(input@, rect_kind),
        r.proxy@ == summarized(input@, 0, rect_kind).0,
        r.leaf_start == leaf_start,
        summary_of(input@, 0, rect_kind, r.proxy@, r.meta.error),
{
    let p0 = input[0];
    let mut bbox = bbox(&p0);
    let mut gate_min = p0.gate_dim;
    let mut gate_max = p0.gate_dim;
    let mut big_minor = minor(&p0);
    let mut rects = p0.kind == rect_kind;
    proof {
        assert(input@.take(1) =~= seq![p0]);
        if rects {
            assert forall|j: int| 0 <= j < input@.take(1).len() implies (#[trigger] input@.take(1)[j]).kind == rect_kind by {
                assert(input@.take(1)[j] == p0);
            }
        } else {
            assert(input@.take(1)[0] == p0);
        }
    }
    let mut i: usize = 1;
    while i < input.len()
        invariant
            1 <= i <= input@.len(),
            bbox == seq_box(input@.take(i as int)),
            gate_min == min_gate(input@.take(i as int)),
            gate_max == max_gate(input@.take(i as int)),
            big_minor == max_minor(input@.take(i as int)),
            rects == all_of_kind(input@.take(i as int), rect_kind),
        decreases input@.len() - i,
    {
        let p = input[i];
        proof {
            let t = input@.take(i + 1);
            assert(t.drop_last() =~= input@.take(i as int));
            assert(t.last() == p);
            assert(all_of_kind(t, rect_kind) == (all_of_kind(input@.take(i as int), rect_kind) && p.kind == rect_kind)) by {
                if all_of_kind(input@.take(i as int), rect_kind) && p.kind == rect_kind {
                    assert forall|j: int| 0 <= j < t.len() implies (#[trigger] t[j]).kind == rect_kind by {
                        if j < i {
                            assert(t[j] == input@.take(i as int)[j]);
                        }
                    }
                }
                if all_of_kind(t, rect_kind) {
                    assert(t[i as int].kind == rect_kind);
                    assert forall|j: int| 0 <= j < i implies (#[trigger] input@.take(i as int)[j]).kind == rect_kind by {
                        assert(t[j] == input@.take(i as int)[j]);
                    }
                }
            }
        }
        bbox = BBox {
            x0: min64(bbox.x0, p.x0),
            y0: min64(bbox.y0, p.y0),
            x1: max64(bbox.x1, p.x1),
            y1: max64(bbox.y1, p.y1),
        };
        if p.gate_dim < gate_min {
            gate_min = p.gate_dim;
        }
        if p.gate_dim > gate_max {
            gate_max = p.gate_dim;
        }
        let mi = minor(&p);
        if mi > big_minor {
            big_minor = mi;
        }
        rects = rects && p.kind == rect_kind;
        i = i + 1;
    }
    proof {
        assert(input@.take(input@.len() as int) =~= input@);
    }
    let (proxy, error) = summarize(input, 0, rect_kind);
    let meta = Meta {
        bbox,
        error,
        gate_min,
        gate_max,
        minor: big_minor,
        first: 0,
        children: 0,
        count: input.len() as u32,
        flags: if rects {
            RECTANGLES
        } else {
            0
        },
        leaf_off: 0,
        proxy_off: 0,
        proxies: proxy.len() as u32,
        leaf_crc: 0,
        proxy_crc: 0,
    };
    BuildNode { meta, leaf_start, proxy }
}

/// Node `i` of `nodes`, if it has children: at most `FANOUT` of them, all
/// before it, no primitives of its own, and it bounds each child.
pub open spec fn parent_ok(nodes: Seq<BuildNode>, i: int) -> bool {
    let m = nodes[i].meta;
    m.children > 0 ==> {
        &&& m.children <= FANOUT
        &&& m.first + m.children <= i
        &&& m.count == 0
        &&& forall|c: int| m.first <= c < m.first + m.children ==> bounds_child(m, (#[trigger] nodes[c]).meta)
    }
}

/// A node keeps at most `PROXIES` proxies, counts them, and its flags are
/// zero or `RECTANGLES`.
pub open spec fn proxies_ok(n: BuildNode, rect_kind: u8) -> bool {
    &&& n.proxy@.len() <= PROXIES
    &&& n.meta.proxies == n.proxy@.len()
    &&& n.meta.flags <= RECTANGLES
    &&& forall|k: int| 0 <= k < n.proxy@.len() ==> (#[trigger] n.proxy@[k]).kind == rect_kind
}

/// Leaf `k` over `len` primitives, `chunk` per leaf: its primitives start
/// at `k * chunk` and it holds a chunk, or what is left.
pub open spec fn leaf_ok(n: BuildNode, k: int, prims: Seq<Prim>, chunk: int, rect_kind: u8) -> bool {
    &&& n.meta.children == 0
    &&& n.leaf_start == k * chunk
    &&& n.meta.count == min_i(chunk, prims.len() - k * chunk)
    &&& n.meta == node_meta(leaf_slice(prims, k, chunk), rect_kind)
    &&& n.proxy@ == summarized(leaf_slice(prims, k, chunk), 0, rect_kind).0
}

/// The primitives of leaf `k`: a chunk from `k * chunk`, or what is left.
pub open spec fn leaf_slice(prims: Seq<Prim>, k: int, chunk: int) -> Seq<Prim> {
    prims.subrange(k * chunk, min_i((k + 1) * chunk, prims.len() as int))
}

/// Node `i` is the parent of the children it names: its record and
/// proxies are what `parent` builds over them.
pub open spec fn parent_exact(nodes: Seq<BuildNode>, i: int, rect_kind: u8) -> bool {
    let m = nodes[i].meta;
    let k = nodes.subrange(m.first as int, m.first + m.children);
    &&& m.children > 0
    &&& m == parent_meta(k, m.first as int, rect_kind)
    &&& nodes[i].proxy@ == parent_summary(k, rect_kind).0
    &&& nodes[i].leaf_start == 0
}

/// The children of node `i` in the levels above the level of nodes `s` to
/// `e - 1`: each level has a parent for every `FANOUT` neighbours of the
/// level below, in order, the last taking what is left; the first node and
/// the end of the range are returned.
pub open spec fn parent_range(s: int, e: int, i: int) -> (int, int)
    decreases i - e,
{
    if e - s <= 1 || i < e {
        (0, 0)
    } else {
        let n = ceil_div((e - s) as nat, FANOUT as nat) as int;
        if i < e + n {
            let f = s + 8 * (i - e);
            (f, min_i(f + 8, e))
        } else {
            parent_range(e, e + n, i)
        }
    }
}

/// Node `i` names the children its place in the levels gives it.
pub open spec fn laid_out(nodes: Seq<BuildNode>, leaves: int, i: int) -> bool {
    &&& nodes[i].meta.first == parent_range(0, leaves, i).0
    &&& nodes[i].meta.first + nodes[i].meta.children == parent_range(0, leaves, i).1
}

/// What every tree built over `len` primitives, `chunk` per leaf, is: the
/// leaves in order, then each level's parents, down to one root.
pub open spec fn built_ok(nodes: Seq<BuildNode>, prims: Seq<Prim>, chunk: int, rect_kind: u8) -> bool {
    &&& nodes.len() == tree_nodes(prims.len(), chunk as nat)
    &&& forall|k: int|
        0 <= k < ceil_div(prims.len(), chunk as nat) ==> leaf_ok(#[trigger] nodes[k], k, prims, chunk, rect_kind)
    &&& forall|i: int|
        ceil_div(prims.len(), chunk as nat) <= i < nodes.len() ==> #[trigger] parent_exact(nodes, i, rect_kind)
    &&& forall|i: int|
        ceil_div(prims.len(), chunk as nat) <= i < nodes.len() ==> #[trigger] laid_out(
            nodes,
            ceil_div(prims.len(), chunk as nat) as int,
            i,
        )
    &&& forall|i: int| 0 <= i < nodes.len() ==> parent_ok(nodes, i)
    &&& forall|i: int| 0 <= i < nodes.len() ==> proxies_ok(#[trigger] nodes[i], rect_kind)
}

proof fn lemma_parent_kept(nodes: Seq<BuildNode>, x: BuildNode, i: int)
    requires
        0 <= i < nodes.len(),
        parent_ok(nodes, i),
    ensures
        parent_ok(nodes.push(x), i),
{
    let m = nodes[i].meta;
    if m.children > 0 {
        assert forall|c: int| m.first <= c < m.first + m.children implies bounds_child(m, (#[trigger] nodes.push(x)[c]).meta) by {
            assert(nodes.push(x)[c] == nodes[c]);
        }
    }
}

/// A parent's record after taking in child record `c`: the union of the
/// boxes, the span of gate sizes, the larger minor size and error, and the
/// flags both have.
pub open spec fn combine(m: Meta, c: Meta) -> Meta {
    Meta {
        bbox: union_box(m.bbox, c.bbox),
        gate_min: min_i(m.gate_min as int, c.gate_min as int) as u64,
        gate_max: max_i(m.gate_max as int, c.gate_max as int) as u64,
        minor: max_i(m.minor as int, c.minor as int) as u64,
        error: max_i(m.error as int, c.error as int) as u64,
        flags: m.flags & c.flags,
        ..m
    }
}

/// The first child's record with the first `n` children's taken in.
pub open spec fn kids_fold(k: Seq<BuildNode>, n: int) -> Meta
    decreases n,
{
    if n <= 0 {
        k[0].meta
    } else {
        combine(kids_fold(k, n - 1), k[n - 1].meta)
    }
}

/// The proxies of the first `n` children, in order.
pub open spec fn kids_proxies(k: Seq<BuildNode>, n: int) -> Seq<Prim>
    decreases n,
{
    if n <= 0 {
        Seq::empty()
    } else {
        kids_proxies(k, n - 1) + k[n - 1].proxy@
    }
}

/// Whether every child has proxies.
pub open spec fn all_have_proxies(k: Seq<BuildNode>) -> bool {
    forall|j: int| 0 <= j < k.len() ==> (#[trigger] k[j]).proxy@.len() > 0
}

/// A parent's proxies and their error: when every child has proxies, the
/// summary of all of them, inheriting the largest child error; otherwise
/// none, with that error.
pub open spec fn parent_summary(k: Seq<BuildNode>, rect_kind: u8) -> (Seq<Prim>, u64) {
    let e = kids_fold(k, k.len() as int).error;
    if all_have_proxies(k) {
        summarized(kids_proxies(k, k.len() as int), e, rect_kind)
    } else {
        (Seq::empty(), e)
    }
}

/// The record of the parent of children `k`, the first of which is node
/// `first`: the children combined, with its children named, no primitives
/// of its own, and its proxies' count and error.
pub open spec fn parent_meta(k: Seq<BuildNode>, first: int, rect_kind: u8) -> Meta {
    Meta {
        first: first as u32,
        children: k.len() as u32,
        count: 0,
        error: parent_summary(k, rect_kind).1,
        proxies: parent_summary(k, rect_kind).0.len() as u32,
        ..kids_fold(k, k.len() as int)
    }
}

/// The parent of `nodes[first..last]`: their union, gate span, largest
/// minor size and error, common flags, and proxies summarising theirs when
/// every child has some.
#[verifier::spinoff_prover]
fn parent(nodes: &Vec<BuildNode>, first: usize, last: usize, rect_kind: u8) -> (r: BuildNode)
    requires
        first < last <= nodes@.len(),
        last - first <= FANOUT,
        last <= u32::MAX,
        forall|i: int| 0 <= i < nodes@.len() ==> proxies_ok(#[trigger] nodes@[i], rect_kind),
    ensures
        r.meta == parent_meta(nodes@.subrange(first as int, last as int), first as int, rect_kind),
        r.proxy@ == parent_summary(nodes@.subrange(first as int, last as int), rect_kind).0,
        r.leaf_start == 0,
        r.meta.first == first,
        r.meta.children == last - first,
        r.meta.count == 0,
        forall|c: int| first <= c < last ==> bounds_child(r.meta, (#[trigger] nodes@[c]).meta),
        proxies_ok(r, rect_kind),
{
    let ghost kids = nodes@.subrange(first as int, last as int);
    let mut meta = nodes[first].meta;
    meta.first = first as u32;
    meta.children = (last - first) as u32;
    meta.count = 0;
    let mut input: Vec<Prim> = Vec::new();
    let mut complete = true;
    let mut k: usize = first;
    proof {
        assert(proxies_ok(nodes@[first as int], rect_kind));
    }
    while k < last
        invariant
            first <= k <= last <= nodes@.len(),
            last - first <= FANOUT,
            meta.first == first,
            meta.children == last - first,
            meta.count == 0,
            meta.flags <= RECTANGLES,
            kids == nodes@.subrange(first as int, last as int),
            meta == (Meta { first: first as u32, children: (last - first) as u32, count: 0, ..kids_fold(kids, k - first) }),
            input@ == kids_proxies(kids, k - first),
            complete == (forall|j: int| 0 <= j < k - first ==> (#[trigger] kids[j]).proxy@.len() > 0),
            input@.len() <= (k - first) * PROXIES,
            forall|q: int| 0 <= q < input@.len() ==> (#[trigger] input@[q]).kind == rect_kind,
            complete ==> input@.len() >= k - first,
            forall|i: int| 0 <= i < nodes@.len() ==> proxies_ok(#[trigger] nodes@[i], rect_kind),
            forall|c: int| first <= c < k ==> {
                let cm = (#[trigger] nodes@[c]).meta;
                &&& spec_contains(meta.bbox, cm.bbox)
                &&& meta.gate_min <= cm.gate_min
                &&& meta.gate_max >= cm.gate_max
                &&& meta.minor >= cm.minor
                &&& meta.error >= cm.error
                &&& (meta.flags == RECTANGLES ==> cm.flags == RECTANGLES)
            },
        decreases last - k,
    {
        let ghost before = meta;
        let c = nodes[k].meta;
        assert(kids[k - first] == nodes@[k as int]);
        meta.bbox = BBox {
            x0: min64(meta.bbox.x0, c.bbox.x0),
            y0: min64(meta.bbox.y0, c.bbox.y0),
            x1: max64(meta.bbox.x1, c.bbox.x1),
            y1: max64(meta.bbox.y1, c.bbox.y1),
        };
        if c.gate_min < meta.gate_min {
            meta.gate_min = c.gate_min;
        }
        if c.gate_max > meta.gate_max {
            meta.gate_max = c.gate_max;
        }
        if c.minor > meta.minor {
            meta.minor = c.minor;
        }
        if c.error > meta.error {
            meta.error = c.error;
        }
        assert(proxies_ok(nodes@[k as int], rect_kind));
        let a = meta.flags;
        let b = c.flags;
        let f = a & b;
        assert(f <= 1 && (f == 1 ==> a == 1 && b == 1)) by (bit_vector)
            requires
                f == a & b,
                a <= 1,
                b <= 1,
        ;
        meta.flags = f;
        if nodes[k].proxy.len() == 0 {
            complete = false;
        }
        let ghost before_input = input@;
        let mut j: usize = 0;
        while j < nodes[k].proxy.len()
            invariant
                j <= nodes@[k as int].proxy@.len() <= PROXIES,
                input@.len() == before_input.len() + j,
                before_input.len() <= (k - first) * PROXIES,
                k < nodes@.len(),
                proxies_ok(nodes@[k as int], rect_kind),
                forall|q: int| 0 <= q < input@.len() ==> (#[trigger] input@[q]).kind == rect_kind,
                input@ == before_input + nodes@[k as int].proxy@.take(j as int),
            decreases nodes@[k as int].proxy@.len() - j,
        {
            input.push(nodes[k].proxy[j]);
            proof {
                assert(nodes@[k as int].proxy@.take(j + 1) =~= nodes@[k as int].proxy@.take(j as int).push(
                    nodes@[k as int].proxy@[j as int],
                ));
                assert(input@ =~= before_input + nodes@[k as int].proxy@.take(j + 1));
            }
            j = j + 1;
        }
        proof {
            assert(nodes@[k as int].proxy@.take(j as int) =~= nodes@[k as int].proxy@);
            assert(kids_proxies(kids, k + 1 - first) == kids_proxies(kids, k - first) + kids[k - first].proxy@);
            assert(kids_fold(kids, k + 1 - first) == combine(kids_fold(kids, k - first), kids[k - first].meta));
        }
        k = k + 1;
    }
    let inherited = meta.error;
    proof {
        if complete {
            assert(!unsummarised(input@, rect_kind));
        }
        assert(complete == all_have_proxies(kids));
        assert(kids.len() == last - first);
    }
    let (proxy, error) = if complete {
        summarize(input.as_slice(), inherited, rect_kind)
    } else {
        (Vec::new(), inherited)
    };
    meta.error = error;
    meta.proxies = proxy.len() as u32;
    BuildNode { meta, leaf_start: 0, proxy }
}

proof fn lemma_leaf_count(len: int, c: int, k: int)
    requires
        c > 0,
        k >= 0,
        len >= 0,
        k == 0 || (k - 1) * c < len,
        k * c >= len,
    ensures
        k == ceil_div(len as nat, c as nat),
{
    assert(k == (len + c - 1) / c) by (nonlinear_arith)
        requires
            c > 0,
            k >= 0,
            len >= 0,
            k == 0 || (k - 1) * c < len,
            k * c >= len,
    ;
}

proof fn lemma_push_keeps(nodes: Seq<BuildNode>, x: BuildNode, leaves: int, prims: Seq<Prim>, chunk: int, rect_kind: u8)
    requires
        0 <= leaves <= nodes.len(),
        forall|i: int| leaves <= i < nodes.len() ==> #[trigger] parent_exact(nodes, i, rect_kind),
        forall|k: int| 0 <= k < leaves ==> leaf_ok(#[trigger] nodes[k], k, prims, chunk, rect_kind),
        forall|i: int| 0 <= i < nodes.len() ==> parent_ok(nodes, i),
        forall|i: int| 0 <= i < nodes.len() ==> proxies_ok(#[trigger] nodes[i], rect_kind),
        proxies_ok(x, rect_kind),
        parent_ok(nodes.push(x), nodes.len() as int),
    ensures
        forall|k: int| 0 <= k < leaves ==> leaf_ok(#[trigger] nodes.push(x)[k], k, prims, chunk, rect_kind),
        forall|i: int| leaves <= i < nodes.len() ==> #[trigger] parent_exact(nodes.push(x), i, rect_kind),
        forall|i: int| 0 <= i < nodes.len() + 1 ==> parent_ok(nodes.push(x), i),
        forall|i: int| 0 <= i < nodes.len() + 1 ==> proxies_ok(#[trigger] nodes.push(x)[i], rect_kind),
{
    assert forall|k: int| 0 <= k < leaves implies leaf_ok(#[trigger] nodes.push(x)[k], k, prims, chunk, rect_kind) by {
        assert(nodes.push(x)[k] == nodes[k]);
    }
    assert forall|i: int| leaves <= i < nodes.len() implies #[trigger] parent_exact(nodes.push(x), i, rect_kind) by {
        let m = nodes[i].meta;
        assert(parent_exact(nodes, i, rect_kind));
        assert(nodes.push(x)[i] == nodes[i]);
        assert(parent_ok(nodes, i));
        assert(m.first + m.children <= i);
        assert(nodes.push(x).subrange(m.first as int, m.first + m.children) =~= nodes.subrange(
            m.first as int,
            m.first + m.children,
        ));
    }
    assert forall|i: int| 0 <= i < nodes.len() + 1 implies parent_ok(nodes.push(x), i) by {
        if i < nodes.len() {
            lemma_parent_kept(nodes, x, i);
        }
    }
    assert forall|i: int| 0 <= i < nodes.len() + 1 implies proxies_ok(#[trigger] nodes.push(x)[i], rect_kind) by {
        if i < nodes.len() {
            assert(nodes.push(x)[i] == nodes[i]);
        }
    }
}

/// The nodes of a tree over `prims`, `chunk` per leaf: a leaf per chunk,
/// in order, then level by level a parent per `FANOUT` neighbours, until
/// one root is left. Every parent bounds its children and keeps at most
/// `PROXIES` proxies.
#[verifier::spinoff_prover]
pub fn build_nodes(prims: &[Prim], chunk: usize, rect_kind: u8) -> (r: Vec<BuildNode>)
    requires
        0 < chunk <= u32::MAX,
        tree_nodes(prims@.len() as nat, chunk as nat) <= u32::MAX,
    ensures
        built_ok(r@, prims@, chunk as int, rect_kind),
{
    let len = prims.len();
    let ghost total = tree_nodes(len as nat, chunk as nat);
    let mut nodes: Vec<BuildNode> = Vec::new();
    let mut lo: usize = 0;
    let mut k: usize = 0;
    while lo < len
        invariant
            len == prims@.len(),
            0 < chunk <= u32::MAX,
            lo <= len,
            lo <= k * chunk,
            lo < len ==> lo == k * chunk,
            k == 0 || (k - 1) * chunk < len,
            nodes@.len() == k,
            forall|j: int| 0 <= j < k ==> leaf_ok(#[trigger] nodes@[j], j, prims@, chunk as int, rect_kind),
            forall|i: int| 0 <= i < nodes@.len() ==> parent_ok(nodes@, i),
            forall|i: int| 0 <= i < nodes@.len() ==> proxies_ok(#[trigger] nodes@[i], rect_kind),
        decreases len - lo,
    {
        let hi = if len - lo < chunk {
            len
        } else {
            lo + chunk
        };
        let leaf = node(vstd::slice::slice_subrange(prims, lo, hi), lo, rect_kind);
        proof {
            assert((k + 1) * chunk == k * chunk + chunk) by (nonlinear_arith);
            assert(hi == min_i((k + 1) * chunk, len as int));
            assert(leaf_slice(prims@, k as int, chunk as int) == prims@.subrange(lo as int, hi as int));
            assert(leaf_ok(leaf, k as int, prims@, chunk as int, rect_kind));
            assert(parent_ok(nodes@.push(leaf), nodes@.len() as int));
            lemma_push_keeps(nodes@, leaf, k as int, prims@, chunk as int, rect_kind);
            assert((k + 1) * chunk == k * chunk + chunk) by (nonlinear_arith);
            assert(k <= lo) by (nonlinear_arith)
                requires
                    lo == k * chunk,
                    chunk >= 1,
                    k >= 0,
            ;
        }
        nodes.push(leaf);
        lo = hi;
        k = k + 1;
    }
    proof {
        assert(k * chunk >= len);
        lemma_leaf_count(len as int, chunk as int, k as int);
    }
    let ghost leaves = k as int;
    let mut start: usize = 0;
    let mut end: usize = nodes.len();
    while end - start > 1
        invariant
            len == prims@.len(),
            0 < chunk <= u32::MAX,
            total == tree_nodes(len as nat, chunk as nat),
            total <= u32::MAX,
            leaves == ceil_div(len as nat, chunk as nat),
            leaves <= start || start == 0,
            start <= end,
            end == nodes@.len(),
            leaves <= nodes@.len(),
            nodes@.len() + levels_above((end - start) as nat) == total,
            forall|j: int| 0 <= j < leaves ==> leaf_ok(#[trigger] nodes@[j], j, prims@, chunk as int, rect_kind),
            forall|i: int| leaves <= i < nodes@.len() ==> #[trigger] parent_exact(nodes@, i, rect_kind),
            forall|i: int| leaves <= i < nodes@.len() ==> #[trigger] laid_out(nodes@, leaves, i),
            forall|i: int| i >= end ==> #[trigger] parent_range(0, leaves, i) == parent_range(start as int, end as int, i),
            forall|i: int| 0 <= i < nodes@.len() ==> parent_ok(nodes@, i),
            forall|i: int| 0 <= i < nodes@.len() ==> proxies_ok(#[trigger] nodes@[i], rect_kind),
        decreases end - start,
    {
        let next = nodes.len();
        let ghost span = (end - start) as nat;
        let mut first: usize = start;
        while first < end
            invariant
                len == prims@.len(),
                total <= u32::MAX,
                start <= first <= end,
                end == next,
                end - start == span,
                span > 1,
                next + levels_above(span) == total,
                0 <= leaves <= next,
                first < end ==> first - start == 8 * (nodes@.len() - next),
                first == end ==> nodes@.len() - next == ceil_div(span, FANOUT as nat),
                nodes@.len() >= next,
                forall|j: int| 0 <= j < leaves ==> leaf_ok(#[trigger] nodes@[j], j, prims@, chunk as int, rect_kind),
                forall|i: int| leaves <= i < nodes@.len() ==> #[trigger] parent_exact(nodes@, i, rect_kind),
                forall|i: int| leaves <= i < nodes@.len() ==> #[trigger] laid_out(nodes@, leaves, i),
                forall|i: int| i >= end ==> #[trigger] parent_range(0, leaves, i) == parent_range(start as int, end as int, i),
                forall|i: int| 0 <= i < nodes@.len() ==> parent_ok(nodes@, i),
                forall|i: int| 0 <= i < nodes@.len() ==> proxies_ok(#[trigger] nodes@[i], rect_kind),
            decreases end - first,
        {
            let last = if end - first <= 8 {
                end
            } else {
                first + 8
            };
            proof {
                assert(levels_above(span) == ceil_div(span, FANOUT as nat) + levels_above(ceil_div(span, FANOUT as nat)));
                assert(nodes@.len() - next < ceil_div(span, FANOUT as nat));
            }
            let p = parent(&nodes, first, last, rect_kind);
            proof {
                let np = nodes@.push(p);
                assert forall|c: int| p.meta.first <= c < p.meta.first + p.meta.children implies bounds_child(
                    p.meta,
                    (#[trigger] np[c]).meta,
                ) by {
                    assert(np[c] == nodes@[c]);
                }
                assert(parent_ok(np, nodes@.len() as int));
                lemma_push_keeps(nodes@, p, leaves, prims@, chunk as int, rect_kind);
                assert(np.subrange(first as int, last as int) =~= nodes@.subrange(first as int, last as int));
                assert(parent_exact(np, nodes@.len() as int, rect_kind));
                let q = nodes@.len() - next;
                assert(parent_range(start as int, end as int, nodes@.len() as int) == (first as int, last as int));
                assert forall|i: int| leaves <= i < np.len() implies #[trigger] laid_out(np, leaves, i) by {
                    if i < nodes@.len() {
                        assert(np[i] == nodes@[i]);
                        assert(laid_out(nodes@, leaves, i));
                    }
                }
            }
            nodes.push(p);
            first = last;
        }
        proof {
            assert(levels_above(span) == ceil_div(span, FANOUT as nat) + levels_above(ceil_div(span, FANOUT as nat)));
            let n = ceil_div(span, FANOUT as nat) as int;
            assert forall|i: int| i >= nodes@.len() implies #[trigger] parent_range(0, leaves, i) == parent_range(
                next as int,
                nodes@.len() as int,
                i,
            ) by {
                assert(parent_range(0, leaves, i) == parent_range(start as int, end as int, i));
                assert(nodes@.len() == end + n);
            }
        }
        start = next;
        end = nodes.len();
    }
    nodes
}

/// `node_count` counts the nodes that `build_nodes` builds over as many
/// primitives, with as many per leaf.
pub proof fn law_node_count_counts_built_nodes(nodes: Seq<BuildNode>, prims: Seq<Prim>, chunk: int, rect_kind: u8)
    requires
        built_ok(nodes, prims, chunk, rect_kind),
    ensures
        nodes.len() == tree_nodes(prims.len(), chunk as nat),
{
}

/// The primitive record at byte `o`, and the group it names.
pub open spec fn prim_from(d: Seq<u8>, o: int) -> (Prim, u32) {
    let word = le64(d, o);
    (
        Prim {
            x0: lei64(d, o + 8),
            y0: lei64(d, o + 16),
            x1: lei64(d, o + 24),
            y1: lei64(d, o + 32),
            rank: (word % 4294967296) as u32,
            gate_dim: le64(d, o + 40),
            thickness: le64(d, o + 48),
            kind: d[o + 56],
            flags: d[o + 57],
        },
        (word / 4294967296) as u32,
    )
}

/// What `prim_bytes` writes, `prim_from` reads back.
pub proof fn law_prim_record_reads_back(d: Seq<u8>, o: int, p: Prim, group: u32)
    requires
        prim_record(d, o, p, group),
    ensures
        prim_from(d, o) == (p, group),
{
    let word = le64(d, o) as int;
    assert(word == group * 4294967296 + p.rank);
    assert(word % 4294967296 == p.rank && word / 4294967296 == group) by (nonlinear_arith)
        requires
            word == group * 4294967296 + p.rank,
            0 <= p.rank < 4294967296,
            0 <= group,
    ;
}

/// Whether primitive `p` of group `group` may sit in a block of node `m`
/// of group `gi`, whose group holds `root_count` primitives: its group and
/// rank, a box inside the node's (with corners in order for a rectangle),
/// a rectangle where the block is a proxy block or the node holds only
/// rectangles, and a gate size within the node's span.
pub open spec fn prim_fits(p: Prim, group: u32, m: Meta, gi: int, root_count: u32, proxy: bool, rect_kind: u8) -> bool {
    &&& group == gi
    &&& p.rank < root_count
    &&& spec_contains(m.bbox, prim_box(p))
    &&& (p.kind == rect_kind ==> upright(prim_box(p)))
    &&& (proxy ==> p.kind == rect_kind)
    &&& (m.flags == RECTANGLES ==> p.kind == rect_kind)
    &&& m.gate_min <= p.gate_dim <= m.gate_max
}

/// Where a node's leaf or proxy block lies, how many records it holds and
/// its checksum.
pub open spec fn block_of(m: Meta, proxy: bool) -> (u64, u32, u32) {
    if proxy {
        (m.proxy_off, m.proxies, m.proxy_crc)
    } else {
        (m.leaf_off, m.count, m.leaf_crc)
    }
}

fn read_prim(bytes: &[u8], k: usize) -> (r: (Prim, u32))
    requires
        64 * k + 64 <= bytes@.len(),
    ensures
        r == prim_from(bytes@, 64 * k),
{
    let _n = bytes.len();
    let o = 64 * k;
    let word = read64(bytes, o);
    let p = Prim {
        x0: readi64(bytes, o + 8),
        y0: readi64(bytes, o + 16),
        x1: readi64(bytes, o + 24),
        y1: readi64(bytes, o + 32),
        rank: (word % 4294967296) as u32,
        gate_dim: read64(bytes, o + 40),
        thickness: read64(bytes, o + 48),
        kind: bytes[o + 56],
        flags: bytes[o + 57],
    };
    (p, (word / 4294967296) as u32)
}

fn prim_fits_exec(p: &Prim, group: u32, m: &Meta, gi: usize, root_count: u32, proxy: bool, rect_kind: u8) -> (r: bool)
    ensures
        r == prim_fits(*p, group, *m, gi as int, root_count, proxy, rect_kind),
{
    group as usize == gi && p.rank < root_count && crate::geometry::contains(m.bbox, bbox(p)) && !(p.kind == rect_kind
        && (p.x0 > p.x1 || p.y0 > p.y1)) && !(proxy && p.kind != rect_kind) && !(m.flags == RECTANGLES && p.kind
        != rect_kind) && p.gate_dim >= m.gate_min && p.gate_dim <= m.gate_max
}

/// The bytes of node `m`'s leaf or proxy block.
pub open spec fn block_bytes(d: Seq<u8>, m: Meta, proxy: bool) -> Seq<u8> {
    d.subrange(block_of(m, proxy).0 as int, block_of(m, proxy).0 + block_of(m, proxy).1 * 64)
}

/// Whether the first `n` records of `bytes` all fit node `m`.
pub open spec fn block_fits(bytes: Seq<u8>, n: int, m: Meta, gi: int, root_count: u32, proxy: bool, rect_kind: u8) -> bool {
    forall|k: int|
        0 <= k < n ==> #[trigger] prim_fits(
            prim_from(bytes, 64 * k).0,
            prim_from(bytes, 64 * k).1,
            m,
            gi,
            root_count,
            proxy,
            rect_kind,
        )
}

/// What reading node `m`'s block answers: a checksum mismatch unless it
/// was verified before, else its primitives if every record fits the node.
pub open spec fn block_result(
    d: Seq<u8>,
    m: Meta,
    gi: int,
    root_count: u32,
    proxy: bool,
    verified: bool,
    rect_kind: u8,
) -> Result<Seq<Prim>, TreeError> {
    let bytes = block_bytes(d, m, proxy);
    let n = block_of(m, proxy).1 as int;
    if !verified && crc32_of(bytes) != block_of(m, proxy).2 {
        Err(TreeError::BlockChecksum)
    } else if block_fits(bytes, n, m, gi, root_count, proxy, rect_kind) {
        Ok(Seq::new(n as nat, |k: int| prim_from(bytes, 64 * k).0))
    } else {
        Err(TreeError::InvalidPrimitive)
    }
}

/// Reads node `m`'s leaf or proxy block from `data` for group `gi`, whose
/// tree holds `root_count` primitives. Unless the block was `verified`
/// before, its checksum is checked first; then every record must fit the
/// node.
#[verifier::spinoff_prover]
pub fn read_block(
    data: &[u8],
    m: &Meta,
    gi: usize,
    root_count: u32,
    proxy: bool,
    verified: bool,
    rect_kind: u8,
) -> (r: Result<Vec<Prim>, TreeError>)
    requires
        block_of(*m, proxy).0 + block_of(*m, proxy).1 * 64 <= data@.len(),
    ensures
        match block_result(data@, *m, gi as int, root_count, proxy, verified, rect_kind) {
            Ok(v) => r matches Ok(w) && w@ == v,
            Err(e) => r == Err::<Vec<Prim>, TreeError>(e),
        },
{
    let (off, n, crc) = if proxy {
        (m.proxy_off, m.proxies, m.proxy_crc)
    } else {
        (m.leaf_off, m.count, m.leaf_crc)
    };
    let len = data.len();
    assert(off + n * 64 <= len);
    let lo = off as usize;
    let hi = lo + n as usize * 64;
    let bytes = vstd::slice::slice_subrange(data, lo, hi);
    let ghost b = bytes@;
    assert(b == data@.subrange(off as int, off + n * 64));
    assert(b == block_bytes(data@, *m, proxy));
    if !verified && crc32(bytes) != crc {
        return Err(TreeError::BlockChecksum);
    }
    let mut prims: Vec<Prim> = Vec::new();
    let mut k: usize = 0;
    while k < n as usize
        invariant
            b == bytes@,
            bytes@.len() == n * 64,
            k <= n,
            n * 64 <= usize::MAX,
            (off, n, crc) == block_of(*m, proxy),
            b == data@.subrange(off as int, off + n * 64),
            verified || crc32_of(b) == crc,
            prims@ == Seq::new(k as nat, |q: int| prim_from(b, 64 * q).0),
            block_fits(b, k as int, *m, gi as int, root_count, proxy, rect_kind),
        decreases n - k,
    {
        let (p, group) = read_prim(bytes, k);
        let fits = prim_fits_exec(&p, group, m, gi, root_count, proxy, rect_kind);
        if !fits {
            assert(!prim_fits(
                prim_from(b, 64 * k).0,
                prim_from(b, 64 * k).1,
                *m,
                gi as int,
                root_count,
                proxy,
                rect_kind,
            ));
            assert(b == block_bytes(data@, *m, proxy));
            assert(!block_fits(b, n as int, *m, gi as int, root_count, proxy, rect_kind));
            return Err(TreeError::InvalidPrimitive);
        }
        prims.push(p);
        proof {
            assert(prims@ =~= Seq::new((k + 1) as nat, |q: int| prim_from(b, 64 * q).0));
            assert forall|q: int| 0 <= q < k + 1 implies #[trigger] prim_fits(
                prim_from(b, 64 * q).0,
                prim_from(b, 64 * q).1,
                *m,
                gi as int,
                root_count,
                proxy,
                rect_kind,
            ) by {
                if q < k {
                    assert(block_fits(b, k as int, *m, gi as int, root_count, proxy, rect_kind));
                }
            }
        }
        k = k + 1;
    }
    assert(b == block_bytes(data@, *m, proxy));
    Ok(prims)
}

proof fn lemma_le32_update(d: Seq<u8>, i: int, v: u8, o: int)
    requires
        0 <= o,
        o + 4 <= d.len(),
        0 <= i < d.len(),
    ensures
        !(o <= i < o + 4) ==> le32(d.update(i, v), o) == le32(d, o),
        (o <= i < o + 4 && v != d[i]) ==> le32(d.update(i, v), o) != le32(d, o),
{
    let e = d.update(i, v);
    assert(e[o] == if i == o { v } else { d[o] });
    assert(e[o + 1] == if i == o + 1 { v } else { d[o + 1] });
    assert(e[o + 2] == if i == o + 2 { v } else { d[o + 2] });
    assert(e[o + 3] == if i == o + 3 { v } else { d[o + 3] });
}

proof fn lemma_le64_update(d: Seq<u8>, i: int, v: u8, o: int)
    requires
        0 <= o,
        o + 8 <= d.len(),
        0 <= i < d.len(),
    ensures
        !(o <= i < o + 8) ==> le64(d.update(i, v), o) == le64(d, o),
        (o <= i < o + 8 && v != d[i]) ==> le64(d.update(i, v), o) != le64(d, o),
{
    lemma_le32_update(d, i, v, o);
    lemma_le32_update(d, i, v, o + 4);
}

/// A directory that reads back refuses any change to one byte of its
/// directory (header, group and node records, checksum): in particular
/// every flipped bit is refused.
#[verifier::spinoff_prover]
#[verifier::rlimit(50)]
pub proof fn law_directory_refuses_changed_byte(d: Seq<u8>, id: CacheIdentity, lim: TreeLimits, i: int, v: u8)
    requires
        directory_ok(d, id, lim),
        0 <= i < hdr_end(d),
        v != d[i],
    ensures
        !directory_ok(d.update(i, v), id, lim),
{
    let e = d.update(i, v);
    assert(shape_ok(d, lim) && identity_ok(d, id) && layout_ok(d, lim) && checksum_ok(d));
    if shape_ok(e, lim) && identity_ok(e, id) && layout_ok(e, lim) {
        lemma_le32_update(d, i, v, 44);
        lemma_le32_update(d, i, v, 48);
        lemma_le64_update(d, i, v, 56);
        assert(hdr_end(e) == hdr_end(d));
        let end = hdr_end(d);
        lemma_le32_update(d, i, v, end - 4);
        assert(d.subrange(0, end - 4).len() == end - 4);
        if i >= end - 4 {
            assert(e.subrange(0, end - 4) =~= d.subrange(0, end - 4));
        } else {
            assert(e.subrange(0, end - 4) =~= d.subrange(0, end - 4).update(i, v));
            crate::crc::law_one_byte_changes_checksum(d.subrange(0, end - 4), i, v);
        }
        assert(!checksum_ok(e));
    }
}


/// A group's directory record: its key (layer, datatype, depth), the index
/// of its root node, its primitive count and how many members its
/// primitives stand for.
#[derive(Clone, Copy, Debug, PartialEq, Eq)]
pub struct GroupRecord {
    pub key: (u32, u32, u32),
    pub root: u32,
    pub count: u32,
    pub members: u64,
}

/// Whether group record `g` of `d` is `rec`, with a zero reserved word.
pub open spec fn group_written(d: Seq<u8>, g: int, rec: GroupRecord) -> bool {
    &&& group_key(d, g) == rec.key
    &&& group_root(d, g) == rec.root
    &&& group_count(d, g) == rec.count
    &&& le32(d, group_off(g) + 20) == 0
    &&& le64(d, group_off(g) + 24) == rec.members
}

/// Whether `d` is the directory of a tree of `groups` and node records
/// `metas`, built from the design `id` names: the magic and version, the
/// identity, the counts and the directory's end, the group records, the
/// node records, and the checksum of everything before it.
pub open spec fn written_directory(
    d: Seq<u8>,
    id: CacheIdentity,
    lim: TreeLimits,
    groups: Seq<GroupRecord>,
    metas: Seq<Meta>,
) -> bool {
    &&& d.len() == HEADER + GROUP * groups.len() + NODE * metas.len() + 4
    &&& d.subrange(0, 8) == lim.magic@
    &&& le32(d, 8) == VERSION
    &&& identity_ok(d, id)
    &&& hdr_ng(d) == groups.len()
    &&& hdr_nn(d) == metas.len()
    &&& le32(d, 52) == 0
    &&& hdr_end(d) == d.len()
    &&& forall|g: int| 0 <= g < groups.len() ==> #[trigger] group_written(d, g, groups[g])
    &&& forall|i: int|
        0 <= i < metas.len() ==> #[trigger] meta_at(d, i) == metas[i] && meta_reserved(d, i) == 0
    &&& checksum_ok(d)
}

/// Whether node record `q` after `ng` group records of `d` is `m`, with a
/// zero reserved word.
pub open spec fn meta_written(d: Seq<u8>, ng: int, q: int, m: Meta) -> bool {
    &&& meta_from(d, HEADER + GROUP * ng + NODE * q) == m
    &&& le32(d, HEADER + GROUP * ng + NODE * q + 108) == 0
}

proof fn lemma_keep_group(a: Seq<u8>, b: Seq<u8>, g: int, rec: GroupRecord)
    requires
        0 <= g,
        group_off(g) + GROUP <= a.len(),
        pre(a, b),
        group_written(a, g, rec),
    ensures
        group_written(b, g, rec),
{
    let o = group_off(g);
    lemma_keep32(a, b, o);
    lemma_keep32(a, b, o + 4);
    lemma_keep32(a, b, o + 8);
    lemma_keep32(a, b, o + 12);
    lemma_keep32(a, b, o + 16);
    lemma_keep32(a, b, o + 20);
    lemma_keep64(a, b, o + 24);
}

proof fn lemma_keep_meta(a: Seq<u8>, b: Seq<u8>, o: int)
    requires
        0 <= o,
        o + NODE <= a.len(),
        pre(a, b),
    ensures
        meta_from(b, o) == meta_from(a, o),
        le32(b, o + 108) == le32(a, o + 108),
{
    reveal(meta_from);
    lemma_keep_i64(a, b, o);
    lemma_keep_i64(a, b, o + 8);
    lemma_keep_i64(a, b, o + 16);
    lemma_keep_i64(a, b, o + 24);
    lemma_keep64(a, b, o + 32);
    lemma_keep64(a, b, o + 40);
    lemma_keep64(a, b, o + 48);
    lemma_keep64(a, b, o + 56);
    lemma_keep32(a, b, o + 64);
    lemma_keep32(a, b, o + 68);
    lemma_keep32(a, b, o + 72);
    lemma_keep32(a, b, o + 76);
    lemma_keep64(a, b, o + 80);
    lemma_keep64(a, b, o + 88);
    lemma_keep32(a, b, o + 96);
    lemma_keep32(a, b, o + 100);
    lemma_keep32(a, b, o + 104);
    lemma_keep32(a, b, o + 108);
}

/// Appends the directory record of a group.
#[verifier::spinoff_prover]
fn put_group(out: &mut Vec<u8>, rec: &GroupRecord)
    requires
        old(out)@.len() + GROUP <= usize::MAX,
    ensures
        final(out)@.len() == old(out)@.len() + GROUP,
        pre(old(out)@, final(out)@),
        le32(final(out)@, old(out)@.len() as int) == rec.key.0,
        le32(final(out)@, old(out)@.len() as int + 4) == rec.key.1,
        le32(final(out)@, old(out)@.len() as int + 8) == rec.key.2,
        le32(final(out)@, old(out)@.len() as int + 12) == rec.root,
        le32(final(out)@, old(out)@.len() as int + 16) == rec.count,
        le32(final(out)@, old(out)@.len() as int + 20) == 0,
        le64(final(out)@, old(out)@.len() as int + 24) == rec.members,
{
    let ghost o = out@.len() as int;
    let ghost s0 = out@;
    put32(out, rec.key.0);
    let ghost s1 = out@;
    put32(out, rec.key.1);
    let ghost s2 = out@;
    put32(out, rec.key.2);
    let ghost s3 = out@;
    put32(out, rec.root);
    let ghost s4 = out@;
    put32(out, rec.count);
    let ghost s5 = out@;
    put32(out, 0);
    let ghost s6 = out@;
    put64(out, rec.members);
    let ghost s7 = out@;
    proof {
        assert(s7.subrange(0, s7.len() as int) =~= s7);
        lemma_pre_trans(s6, s7, s7);
        lemma_pre_trans(s5, s6, s7);
        lemma_pre_trans(s4, s5, s7);
        lemma_pre_trans(s3, s4, s7);
        lemma_pre_trans(s2, s3, s7);
        lemma_pre_trans(s1, s2, s7);
        lemma_pre_trans(s0, s1, s7);
        lemma_keep32(s1, s7, o);
        lemma_keep32(s2, s7, o + 4);
        lemma_keep32(s3, s7, o + 8);
        lemma_keep32(s4, s7, o + 12);
        lemma_keep32(s5, s7, o + 16);
        lemma_keep32(s6, s7, o + 20);
    }
}

/// The header of a tree directory: the magic and version, the design's
/// identity, the group and node counts, a zero word and the directory's
/// end.
#[verifier::spinoff_prover]
fn put_header(out: &mut Vec<u8>, id: &CacheIdentity, lim: &TreeLimits, ng: u32, nn: u32, end: u64)
    requires
        old(out)@.len() == 0,
    ensures
        final(out)@.len() == HEADER,
        final(out)@.subrange(0, 8) == lim.magic@,
        le32(final(out)@, 8) == VERSION,
        identity_ok(final(out)@, *id),
        hdr_ng(final(out)@) == ng,
        hdr_nn(final(out)@) == nn,
        le32(final(out)@, 52) == 0,
        hdr_end(final(out)@) == end,
{
    let mut k: usize = 0;
    while k < 8
        invariant
            k <= 8,
            out@.len() == k,
            forall|j: int| 0 <= j < k ==> out@[j] == lim.magic@[j],
        decreases 8 - k,
    {
        out.push(lim.magic[k]);
        k = k + 1;
    }
    let ghost s0 = out@;
    put32(out, VERSION);
    let ghost s1 = out@;
    put32(out, id.data_crc);
    let ghost s2 = out@;
    put64(out, id.src_size);
    let ghost s3 = out@;
    put64(out, id.src_mtime);
    let ghost s4 = out@;
    put64(out, id.unit_bits);
    let ghost s5 = out@;
    put32(out, id.top);
    let ghost s6 = out@;
    put32(out, ng);
    let ghost s7 = out@;
    put32(out, nn);
    let ghost s8 = out@;
    put32(out, 0);
    let ghost s9 = out@;
    put64(out, end);
    let ghost s10 = out@;
    proof {
        assert(s10.subrange(0, s10.len() as int) =~= s10);
        lemma_pre_trans(s9, s10, s10);
        lemma_pre_trans(s8, s9, s10);
        lemma_pre_trans(s7, s8, s10);
        lemma_pre_trans(s6, s7, s10);
        lemma_pre_trans(s5, s6, s10);
        lemma_pre_trans(s4, s5, s10);
        lemma_pre_trans(s3, s4, s10);
        lemma_pre_trans(s2, s3, s10);
        lemma_pre_trans(s1, s2, s10);
        lemma_pre_trans(s0, s1, s10);
        lemma_keep32(s1, s10, 8);
        lemma_keep32(s2, s10, 12);
        lemma_keep64(s3, s10, 16);
        lemma_keep64(s4, s10, 24);
        lemma_keep64(s5, s10, 32);
        lemma_keep32(s6, s10, 40);
        lemma_keep32(s7, s10, 44);
        lemma_keep32(s8, s10, 48);
        lemma_keep32(s9, s10, 52);
        assert(s10.subrange(0, 8) =~= lim.magic@) by {
            assert forall|j: int| 0 <= j < 8 implies s10[j] == s0[j] by {
                assert(s10.subrange(0, s0.len() as int)[j] == s10[j]);
            }
        }
    }
}

/// The directory is written once its header, its group records, its node
/// records and its checksum are, in that order.
#[verifier::spinoff_prover]
#[verifier::rlimit(40)]
proof fn lemma_directory_written(
    h: Seq<u8>,
    after_groups: Seq<u8>,
    body: Seq<u8>,
    d: Seq<u8>,
    id: CacheIdentity,
    lim: TreeLimits,
    groups: Seq<GroupRecord>,
    metas: Seq<Meta>,
)
    requires
        h.len() == HEADER,
        h.subrange(0, 8) == lim.magic@,
        le32(h, 8) == VERSION,
        identity_ok(h, id),
        hdr_ng(h) == groups.len(),
        hdr_nn(h) == metas.len(),
        le32(h, 52) == 0,
        hdr_end(h) == HEADER + GROUP * groups.len() + NODE * metas.len() + 4,
        after_groups.len() == HEADER + GROUP * groups.len(),
        pre(h, after_groups),
        forall|q: int| 0 <= q < groups.len() ==> #[trigger] group_written(after_groups, q, groups[q]),
        body.len() == HEADER + GROUP * groups.len() + NODE * metas.len(),
        pre(after_groups, body),
        forall|q: int| 0 <= q < metas.len() ==> #[trigger] meta_written(body, groups.len() as int, q, metas[q]),
        d.len() == body.len() + 4,
        d.subrange(0, body.len() as int) == body,
        le32(d, body.len() as int) == crc32_of(body),
    ensures
        written_directory(d, id, lim, groups, metas),
{
    lemma_pre_trans(after_groups, body, d);
    lemma_pre_trans(h, after_groups, d);
    lemma_keep32(h, d, 8);
    lemma_keep32(h, d, 12);
    lemma_keep64(h, d, 16);
    lemma_keep64(h, d, 24);
    lemma_keep64(h, d, 32);
    lemma_keep32(h, d, 40);
    lemma_keep32(h, d, 44);
    lemma_keep32(h, d, 48);
    lemma_keep32(h, d, 52);
    lemma_keep64(h, d, 56);
    assert(d.subrange(0, 8) =~= h.subrange(0, 8)) by {
        assert forall|j: int| 0 <= j < 8 implies d[j] == h[j] by {
            assert(d.subrange(0, h.len() as int)[j] == d[j]);
        }
    }
    assert forall|q: int| 0 <= q < groups.len() implies #[trigger] group_written(d, q, groups[q]) by {
        lemma_keep_group(after_groups, d, q, groups[q]);
    }
    assert forall|q: int| 0 <= q < metas.len() implies #[trigger] meta_at(d, q) == metas[q] && meta_reserved(d, q)
        == 0 by {
        assert(meta_written(body, groups.len() as int, q, metas[q]));
        lemma_keep_meta(body, d, HEADER + GROUP * groups.len() + NODE * q);
        assert(node_off(d, q) == HEADER + GROUP * groups.len() + NODE * q);
    }
    assert(hdr_end(d) == d.len());
    assert(d.subrange(0, hdr_end(d) - 4) == body);
}

/// The directory of a tree file: the header for the design `id` names,
/// the group records, the node records, and the checksum of all of it.
/// The caller has checked the group and primitive limits; the counts are
/// written as 32-bit words.
#[verifier::spinoff_prover]
pub fn directory_bytes(
    id: &CacheIdentity,
    lim: &TreeLimits,
    groups: &Vec<GroupRecord>,
    metas: &Vec<Meta>,
) -> (r: Vec<u8>)
    requires
        groups@.len() <= u32::MAX,
        metas@.len() <= u32::MAX,
        HEADER + GROUP * groups@.len() + NODE * metas@.len() + 4 <= usize::MAX,
    ensures
        written_directory(r@, *id, *lim, groups@, metas@),
{
    let ng = groups.len();
    let nn = metas.len();
    let end: usize = HEADER + GROUP * ng + NODE * nn + 4;
    let mut out: Vec<u8> = Vec::new();
    put_header(&mut out, id, lim, ng as u32, nn as u32, end as u64);
    let ghost h = out@;
    assert(out@.subrange(0, out@.len() as int) =~= out@);
    let mut g: usize = 0;
    while g < ng
        invariant
            g <= ng == groups@.len(),
            nn == metas@.len(),
            end == HEADER + GROUP * ng + NODE * nn + 4 <= usize::MAX,
            out@.len() == HEADER + GROUP * g,
            h.len() == HEADER,
            pre(h, out@),
            forall|q: int| 0 <= q < g ==> #[trigger] group_written(out@, q, groups@[q]),
        decreases ng - g,
    {
        let ghost before = out@;
        put_group(&mut out, &groups[g]);
        proof {
            lemma_pre_trans(h, before, out@);
            assert forall|q: int| 0 <= q < g + 1 implies #[trigger] group_written(out@, q, groups@[q]) by {
                if q < g {
                    lemma_keep_group(before, out@, q, groups@[q]);
                }
            }
        }
        g = g + 1;
    }
    let ghost after_groups = out@;
    assert(out@.subrange(0, out@.len() as int) =~= out@);
    let mut i: usize = 0;
    while i < nn
        invariant
            ng == groups@.len(),
            i <= nn == metas@.len(),
            end == HEADER + GROUP * ng + NODE * nn + 4 <= usize::MAX,
            out@.len() == HEADER + GROUP * ng + NODE * i,
            after_groups.len() == HEADER + GROUP * ng,
            pre(after_groups, out@),
            forall|q: int| 0 <= q < i ==> #[trigger] meta_written(out@, ng as int, q, metas@[q]),
        decreases nn - i,
    {
        let ghost before = out@;
        put_meta(&mut out, &metas[i]);
        proof {
            lemma_pre_trans(after_groups, before, out@);
            assert forall|q: int| 0 <= q < i + 1 implies #[trigger] meta_written(out@, ng as int, q, metas@[q]) by {
                if q < i {
                    assert(meta_written(before, ng as int, q, metas@[q]));
                    lemma_keep_meta(before, out@, HEADER + GROUP * ng + NODE * q);
                } else {
                    assert(before.len() == HEADER + GROUP * ng + NODE * q);
                }
            }
        }
        i = i + 1;
    }
    let ghost body = out@;
    let crc = crc32(out.as_slice());
    put32(&mut out, crc);
    proof {
        lemma_directory_written(h, after_groups, body, out@, *id, *lim, groups@, metas@);
    }
    out
}


/// A directory followed by its blocks keeps what the directory says.
proof fn lemma_written_kept(
    d: Seq<u8>,
    rest: Seq<u8>,
    id: CacheIdentity,
    lim: TreeLimits,
    groups: Seq<GroupRecord>,
    metas: Seq<Meta>,
)
    requires
        written_directory(d, id, lim, groups, metas),
    ensures
        ({
            let e = d + rest;
            &&& e.subrange(0, 8) == lim.magic@
            &&& le32(e, 8) == VERSION
            &&& identity_ok(e, id)
            &&& hdr_ng(e) == groups.len()
            &&& hdr_nn(e) == metas.len()
            &&& le32(e, 52) == 0
            &&& hdr_end(e) == d.len()
            &&& checksum_ok(e)
            &&& forall|g: int| 0 <= g < groups.len() ==> #[trigger] group_written(e, g, groups[g])
            &&& forall|i: int| 0 <= i < metas.len() ==> #[trigger] meta_at(e, i) == metas[i]
        }),
{
    let e = d + rest;
    assert(e.subrange(0, d.len() as int) =~= d);
    lemma_keep32(d, e, 8);
    lemma_keep32(d, e, 12);
    lemma_keep64(d, e, 16);
    lemma_keep64(d, e, 24);
    lemma_keep64(d, e, 32);
    lemma_keep32(d, e, 40);
    lemma_keep32(d, e, 44);
    lemma_keep32(d, e, 48);
    lemma_keep32(d, e, 52);
    lemma_keep64(d, e, 56);
    lemma_keep32(d, e, d.len() - 4);
    assert(e.subrange(0, 8) =~= d.subrange(0, 8));
    assert(e.subrange(0, d.len() - 4) =~= d.subrange(0, d.len() - 4));
    assert forall|g: int| 0 <= g < groups.len() implies #[trigger] group_written(e, g, groups[g]) by {
        lemma_keep_group(d, e, g, groups[g]);
    }
    assert forall|i: int| 0 <= i < metas.len() implies #[trigger] meta_at(e, i) == metas[i] by {
        assert(meta_at(d, i) == metas[i]);
        lemma_keep_meta(d, e, node_off(d, i));
    }
}

/// What a read gives back of a written directory, whatever blocks follow
/// it: the magic, version and design identity it was written for, the
/// counts and the end it names, its checksum, and every group record and
/// node record as written. Within the limits, all that reading checks
/// before the groups and nodes themselves passes, and a successful read
/// (`parse_tree`) gives back exactly the node records written and, for
/// each group, the root, count and depth written.
pub proof fn law_written_directory_reads_back(
    d: Seq<u8>,
    rest: Seq<u8>,
    id: CacheIdentity,
    lim: TreeLimits,
    groups: Seq<GroupRecord>,
    metas: Seq<Meta>,
)
    requires
        written_directory(d, id, lim, groups, metas),
        d.len() + rest.len() <= CAP,
        groups.len() <= lim.max_groups,
        metas.len() <= 2 * lim.max_points,
    ensures
        shape_ok(d + rest, lim),
        identity_ok(d + rest, id),
        layout_ok(d + rest, lim),
        checksum_ok(d + rest),
        hdr_ng(d + rest) == groups.len(),
        hdr_nn(d + rest) == metas.len(),
        forall|g: int| 0 <= g < groups.len() ==> #[trigger] group_written(d + rest, g, groups[g]),
        forall|i: int| 0 <= i < metas.len() ==> #[trigger] meta_at(d + rest, i) == metas[i],
        Seq::new(hdr_nn(d + rest) as nat, |i: int| meta_at(d + rest, i)) == metas,
        forall|g: int|
            0 <= g < groups.len() ==> (#[trigger] root_of(d + rest, id, g)).root == groups[g].root
                && root_of(d + rest, id, g).count == groups[g].count && root_of(d + rest, id, g).depth
                == groups[g].key.2,
{
    lemma_written_kept(d, rest, id, lim, groups, metas);
    assert(Seq::new(hdr_nn(d + rest) as nat, |i: int| meta_at(d + rest, i)) =~= metas);
    assert forall|g: int| 0 <= g < groups.len() implies (#[trigger] root_of(d + rest, id, g)).root
        == groups[g].root && root_of(d + rest, id, g).count == groups[g].count && root_of(
        d + rest,
        id,
        g,
    ).depth == groups[g].key.2 by {
        assert(group_written(d + rest, g, groups[g]));
    }
}

/// A directory written for one design is refused as the directory of any
/// other, whatever blocks follow it: a design whose data checksum, source
/// size, modification time, unit or top cell differs reads an identity
/// mismatch.
pub proof fn law_written_directory_names_its_design(
    d: Seq<u8>,
    rest: Seq<u8>,
    id: CacheIdentity,
    other: CacheIdentity,
    lim: TreeLimits,
    groups: Seq<GroupRecord>,
    metas: Seq<Meta>,
)
    requires
        written_directory(d, id, lim, groups, metas),
        d.len() + rest.len() <= CAP,
        !(other.data_crc == id.data_crc && other.src_size == id.src_size && other.src_mtime
            == id.src_mtime && other.unit_bits == id.unit_bits && other.top == id.top),
    ensures
        directory_result(d + rest, other, lim) == Err::<(), TreeError>(TreeError::IdentityMismatch),
{
    lemma_written_kept(d, rest, id, lim, groups, metas);
}


/// The bytes of node `n`'s leaf block: its primitives, 64 bytes each, when
/// it is a leaf.
pub open spec fn leaf_block(n: BuildNode) -> int {
    if n.meta.children == 0 {
        64 * n.meta.count
    } else {
        0
    }
}

/// The bytes of node `n`'s proxy block, 64 for each proxy.
pub open spec fn proxy_block(n: BuildNode) -> int {
    64 * (n.proxy@.len() as int)
}

/// Where the blocks of node `i` of a group start, when the group's blocks
/// start at `start`: each node before it takes its leaf block, then its
/// proxy block.
pub open spec fn blocks_end(nodes: Seq<BuildNode>, start: int, i: int) -> int
    decreases i,
{
    if i <= 0 {
        start
    } else {
        blocks_end(nodes, start, i - 1) + leaf_block(nodes[i - 1]) + proxy_block(nodes[i - 1])
    }
}

/// The record of node `n` whose blocks start at file offset `at`, in a group
/// whose nodes follow `base` others and whose blocks `blocks` start at
/// `start`: a parent names its children after the nodes before; a leaf
/// names where its block is and the block's checksum; a node with proxies
/// names where they are and their checksum.
pub open spec fn placed_meta(n: BuildNode, base: int, at: int, blocks: Seq<u8>, start: int) -> Meta {
    let lb = leaf_block(n);
    let pb = proxy_block(n);
    let o = at - start;
    Meta {
        first: if n.meta.children == 0 {
            n.meta.first
        } else {
            (n.meta.first + base) as u32
        },
        leaf_off: if n.meta.children == 0 {
            at as u64
        } else {
            n.meta.leaf_off
        },
        leaf_crc: if n.meta.children == 0 {
            crc32_of(blocks.subrange(o, o + lb))
        } else {
            n.meta.leaf_crc
        },
        proxy_off: if pb > 0 {
            (at + lb) as u64
        } else {
            n.meta.proxy_off
        },
        proxy_crc: if pb > 0 {
            crc32_of(blocks.subrange(o + lb, o + lb + pb))
        } else {
            n.meta.proxy_crc
        },
        ..n.meta
    }
}

/// The blocks of node `i` hold its leaf's primitives, then its proxies, as
/// records of group `group`.
pub open spec fn blocks_hold(
    nodes: Seq<BuildNode>,
    prims: Seq<Prim>,
    group: u32,
    start: int,
    blocks: Seq<u8>,
    i: int,
) -> bool {
    let n = nodes[i];
    let o = blocks_end(nodes, start, i) - start;
    &&& n.meta.children == 0 ==> forall|k: int|
        0 <= k < n.meta.count ==> #[trigger] prim_record(blocks, o + 64 * k, prims[n.leaf_start + k], group)
    &&& forall|k: int|
        0 <= k < n.proxy@.len() ==> #[trigger] prim_record(blocks, o + leaf_block(n) + 64 * k, n.proxy@[k], group)
}

proof fn lemma_blocks_end_grows(nodes: Seq<BuildNode>, start: int, i: int, j: int)
    requires
        0 <= i <= j <= nodes.len(),
    ensures
        blocks_end(nodes, start, i) <= blocks_end(nodes, start, j),
    decreases j - i,
{
    if i < j {
        lemma_blocks_end_grows(nodes, start, i, j - 1);
    }
}

proof fn lemma_shift32(a: Seq<u8>, b: Seq<u8>, o: int)
    requires
        0 <= o,
        o + 4 <= b.len(),
    ensures
        le32(a + b, a.len() + o) == le32(b, o),
{
    assert((a + b)[a.len() + o] == b[o]);
    assert((a + b)[a.len() + o + 1] == b[o + 1]);
    assert((a + b)[a.len() + o + 2] == b[o + 2]);
    assert((a + b)[a.len() + o + 3] == b[o + 3]);
}

proof fn lemma_shift64(a: Seq<u8>, b: Seq<u8>, o: int)
    requires
        0 <= o,
        o + 8 <= b.len(),
    ensures
        le64(a + b, a.len() + o) == le64(b, o),
        lei64(a + b, a.len() + o) == lei64(b, o),
{
    lemma_shift32(a, b, o);
    lemma_shift32(a, b, o + 4);
}

/// A record keeps its meaning behind any bytes put before it.
proof fn lemma_shift_record(a: Seq<u8>, b: Seq<u8>, o: int, p: Prim, group: u32)
    requires
        0 <= o,
        o + 64 <= b.len(),
        prim_record(b, o, p, group),
    ensures
        prim_record(a + b, a.len() + o, p, group),
{
    lemma_shift64(a, b, o);
    lemma_shift64(a, b, o + 8);
    lemma_shift64(a, b, o + 16);
    lemma_shift64(a, b, o + 24);
    lemma_shift64(a, b, o + 32);
    lemma_shift64(a, b, o + 40);
    lemma_shift64(a, b, o + 48);
    assert forall|j: int| a.len() + o + 56 <= j < a.len() + o + 64 implies (a + b)[j] == b[j - a.len()] by {}
}

fn copy_prims(prims: &[Prim], from: usize, count: usize) -> (r: Vec<Prim>)
    requires
        from + count <= prims@.len(),
    ensures
        r@ == prims@.subrange(from as int, from + count),
{
    let mut out: Vec<Prim> = Vec::new();
    let len = prims.len();
    let mut k: usize = 0;
    while k < count
        invariant
            k <= count,
            len == prims@.len(),
            from + count <= prims@.len(),
            out@ == prims@.subrange(from as int, from + k),
        decreases count - k,
    {
        out.push(prims[from + k]);
        k = k + 1;
        assert(out@ =~= prims@.subrange(from as int, from + k));
    }
    out
}

/// Appends block `bytes` of primitives `ps` to `blocks`: the records are
/// kept behind what was there, which stays.
proof fn lemma_appended_block(blocks: Seq<u8>, bytes: Seq<u8>, ps: Seq<Prim>, group: u32)
    requires
        bytes.len() == 64 * ps.len(),
        forall|k: int| 0 <= k < ps.len() ==> prim_record(bytes, 64 * k, #[trigger] ps[k], group),
    ensures
        pre(blocks, blocks + bytes),
        (blocks + bytes).subrange(blocks.len() as int, (blocks.len() + bytes.len()) as int) == bytes,
        forall|k: int|
            0 <= k < ps.len() ==> #[trigger] prim_record(blocks + bytes, blocks.len() + 64 * k, ps[k], group),
{
    assert((blocks + bytes).subrange(0, blocks.len() as int) =~= blocks);
    assert((blocks + bytes).subrange(blocks.len() as int, (blocks.len() + bytes.len()) as int) =~= bytes);
    assert forall|k: int| 0 <= k < ps.len() implies #[trigger] prim_record(
        blocks + bytes,
        blocks.len() + 64 * k,
        ps[k],
        group,
    ) by {
        assert(prim_record(bytes, 64 * k, ps[k], group));
        lemma_shift_record(blocks, bytes, 64 * k, ps[k], group);
    }
}


/// Whether node `j` has its blocks' end checked against the cap: a leaf,
/// or a node with proxies.
pub open spec fn checked_node(n: BuildNode) -> bool {
    n.meta.children == 0 || n.proxy@.len() > 0
}

/// Whether one of the first `i` nodes is checked against the cap.
pub open spec fn checked_before(nodes: Seq<BuildNode>, i: int) -> bool {
    exists|j: int| 0 <= j < i && #[trigger] checked_node(nodes[j])
}

/// What placing the first `i` nodes' blocks leaves: each node's record
/// names its blocks, and its blocks hold its primitives and proxies.
pub open spec fn placed_upto(
    nodes: Seq<BuildNode>,
    prims: Seq<Prim>,
    group: u32,
    base: int,
    start: int,
    metas: Seq<Meta>,
    blocks: Seq<u8>,
    i: int,
) -> bool {
    &&& metas.len() == i
    &&& blocks.len() == blocks_end(nodes, start, i) - start
    &&& forall|j: int|
        0 <= j < i ==> #[trigger] metas[j] == placed_meta(nodes[j], base, blocks_end(nodes, start, j), blocks, start)
    &&& forall|j: int| 0 <= j < i ==> #[trigger] blocks_hold(nodes, prims, group, start, blocks, j)
}

/// Appending bytes keeps what node `j`'s placed blocks say.
#[verifier::spinoff_prover]
proof fn lemma_placed_kept_one(
    nodes: Seq<BuildNode>,
    prims: Seq<Prim>,
    group: u32,
    base: int,
    start: int,
    metas: Seq<Meta>,
    b0: Seq<u8>,
    b1: Seq<u8>,
    i: int,
    j: int,
)
    requires
        0 <= j < i <= nodes.len(),
        placed_upto(nodes, prims, group, base, start, metas, b0, i),
        pre(b0, b1),
    ensures
        metas[j] == placed_meta(nodes[j], base, blocks_end(nodes, start, j), b1, start),
        blocks_hold(nodes, prims, group, start, b1, j),
{
    lemma_blocks_end_grows(nodes, start, j + 1, i);
    lemma_blocks_end_grows(nodes, start, 0, j);
    let n = nodes[j];
    let o = blocks_end(nodes, start, j) - start;
    assert(blocks_end(nodes, start, j + 1) == blocks_end(nodes, start, j) + leaf_block(n) + proxy_block(n));
    assert(b1.subrange(o, o + leaf_block(n)) =~= b0.subrange(o, o + leaf_block(n))) by {
        assert forall|t: int| o <= t < o + leaf_block(n) implies b1[t] == b0[t] by {
            assert(b1.subrange(0, b0.len() as int)[t] == b1[t]);
        }
    }
    assert(b1.subrange(o + leaf_block(n), o + leaf_block(n) + proxy_block(n)) =~= b0.subrange(
        o + leaf_block(n),
        o + leaf_block(n) + proxy_block(n),
    )) by {
        assert forall|t: int| o + leaf_block(n) <= t < o + leaf_block(n) + proxy_block(n) implies b1[t]
            == b0[t] by {
            assert(b1.subrange(0, b0.len() as int)[t] == b1[t]);
        }
    }
    assert(metas[j] == placed_meta(n, base, blocks_end(nodes, start, j), b0, start));
    assert(blocks_hold(nodes, prims, group, start, b0, j));
    if n.meta.children == 0 {
        assert forall|k: int| 0 <= k < n.meta.count implies #[trigger] prim_record(
            b1,
            o + 64 * k,
            prims[n.leaf_start + k],
            group,
        ) by {
            assert(prim_record(b0, o + 64 * k, prims[n.leaf_start + k], group));
            lemma_keep_record(b0, b1, o + 64 * k, prims[n.leaf_start + k], group);
        }
    }
    assert forall|k: int| 0 <= k < n.proxy@.len() implies #[trigger] prim_record(
        b1,
        o + leaf_block(n) + 64 * k,
        n.proxy@[k],
        group,
    ) by {
        assert(prim_record(b0, o + leaf_block(n) + 64 * k, n.proxy@[k], group));
        lemma_keep_record(b0, b1, o + leaf_block(n) + 64 * k, n.proxy@[k], group);
    }
}

/// Appending bytes keeps what the blocks already placed say.
proof fn lemma_placed_kept(
    nodes: Seq<BuildNode>,
    prims: Seq<Prim>,
    group: u32,
    base: int,
    start: int,
    metas: Seq<Meta>,
    b0: Seq<u8>,
    b1: Seq<u8>,
    i: int,
)
    requires
        0 <= i <= nodes.len(),
        placed_upto(nodes, prims, group, base, start, metas, b0, i),
        pre(b0, b1),
    ensures
        forall|j: int|
            0 <= j < i ==> #[trigger] metas[j] == placed_meta(nodes[j], base, blocks_end(nodes, start, j), b1, start),
        forall|j: int| 0 <= j < i ==> #[trigger] blocks_hold(nodes, prims, group, start, b1, j),
{
    assert forall|j: int| 0 <= j < i implies #[trigger] metas[j] == placed_meta(
        nodes[j],
        base,
        blocks_end(nodes, start, j),
        b1,
        start,
    ) by {
        lemma_placed_kept_one(nodes, prims, group, base, start, metas, b0, b1, i, j);
    }
    assert forall|j: int| 0 <= j < i implies #[trigger] blocks_hold(nodes, prims, group, start, b1, j) by {
        lemma_placed_kept_one(nodes, prims, group, base, start, metas, b0, b1, i, j);
    }
}


/// Appends the block of primitives `ps` of group `group` to `blocks`, and
/// gives its checksum.
#[verifier::spinoff_prover]
fn append_block(ps: &Vec<Prim>, group: u32, blocks: &mut Vec<u8>) -> (crc: u32)
    requires
        old(blocks)@.len() + 64 * ps@.len() <= usize::MAX,
    ensures
        final(blocks)@.len() == old(blocks)@.len() + 64 * ps@.len(),
        pre(old(blocks)@, final(blocks)@),
        crc == crc32_of(final(blocks)@.subrange(old(blocks)@.len() as int, final(blocks)@.len() as int)),
        forall|k: int|
            0 <= k < ps@.len() ==> #[trigger] prim_record(final(blocks)@, old(blocks)@.len() + 64 * k, ps@[k], group),
{
    let mut bytes = prim_bytes(ps, group);
    let crc = crc32(bytes.as_slice());
    proof {
        lemma_appended_block(blocks@, bytes@, ps@, group);
    }
    blocks.append(&mut bytes);
    crc
}

/// Places node `n`'s blocks at file offset `offset`, after `blocks`, which
/// start at file offset `start`: its record, and the offset after them.
#[verifier::spinoff_prover]
#[verifier::rlimit(30)]
fn place_node(
    n: &BuildNode,
    prims: &[Prim],
    group: u32,
    base: usize,
    offset: u64,
    blocks: &mut Vec<u8>,
    Ghost(start): Ghost<int>,
) -> (r: Result<(Meta, u64), &'static str>)
    requires
        n.meta.children == 0 ==> n.leaf_start + n.meta.count <= prims@.len(),
        n.meta.children != 0 ==> n.meta.first + base <= u32::MAX,
        offset + leaf_block(*n) + proxy_block(*n) <= u64::MAX,
        old(blocks)@.len() + leaf_block(*n) + proxy_block(*n) <= usize::MAX,
        old(blocks)@.len() == offset - start,
    ensures
        match r {
            Ok((m, end)) => {
                &&& end == offset + leaf_block(*n) + proxy_block(*n)
                &&& final(blocks)@.len() == old(blocks)@.len() + leaf_block(*n) + proxy_block(*n)
                &&& pre(old(blocks)@, final(blocks)@)
                &&& m == placed_meta(*n, base as int, offset as int, final(blocks)@, start)
                &&& (n.meta.children == 0 ==> forall|k: int|
                    0 <= k < n.meta.count ==> #[trigger] prim_record(
                        final(blocks)@,
                        old(blocks)@.len() + 64 * k,
                        prims@[n.leaf_start + k],
                        group,
                    ))
                &&& forall|k: int|
                    0 <= k < n.proxy@.len() ==> #[trigger] prim_record(
                        final(blocks)@,
                        old(blocks)@.len() + leaf_block(*n) + 64 * k,
                        n.proxy@[k],
                        group,
                    )
                &&& checked_node(*n) ==> end <= CAP
            },
            Err(e) => e == "representatives: tree exceeds 512 MiB" && checked_node(*n) && offset + leaf_block(*n)
                + proxy_block(*n) > CAP,
        },
{
    let ghost b0 = blocks@;
    let ghost o = b0.len() as int;
    let ghost lb = leaf_block(*n);
    let mut m = n.meta;
    let mut at = offset;
    if n.meta.children != 0 {
        m.first = n.meta.first + base as u32;
        assert(blocks@.subrange(0, o) =~= b0);
    } else {
        let leaf = copy_prims(prims, n.leaf_start, n.meta.count as usize);
        m.leaf_off = at;
        m.leaf_crc = append_block(&leaf, group, blocks);
        at = at + 64 * (n.meta.count as u64);
        if at > CAP as u64 {
            return Err("representatives: tree exceeds 512 MiB");
        }
    }
    let ghost b1 = blocks@;
    if n.proxy.len() > 0 {
        m.proxy_off = at;
        m.proxy_crc = append_block(&n.proxy, group, blocks);
        at = at + 64 * (n.proxy.len() as u64);
        if at > CAP as u64 {
            return Err("representatives: tree exceeds 512 MiB");
        }
    } else {
        assert(blocks@.subrange(0, b1.len() as int) =~= b1);
    }
    proof {
        let b2 = blocks@;
        assert(b2.subrange(0, b2.len() as int) =~= b2);
        lemma_pre_trans(b0, b1, b2);
        if n.meta.children == 0 {
            assert(b2.subrange(o, o + lb) =~= b1.subrange(o, o + lb)) by {
                assert forall|t: int| o <= t < o + lb implies b2[t] == b1[t] by {
                    assert(b2.subrange(0, b1.len() as int)[t] == b2[t]);
                }
            }
            assert forall|k: int| 0 <= k < n.meta.count implies #[trigger] prim_record(
                b2,
                o + 64 * k,
                prims@[n.leaf_start + k],
                group,
            ) by {
                assert(prims@.subrange(n.leaf_start as int, n.leaf_start + n.meta.count)[k] == prims@[n.leaf_start
                    + k]);
                lemma_keep_record(b1, b2, o + 64 * k, prims@[n.leaf_start + k], group);
            }
        }
    }
    Ok((m, at))
}

/// Lays out the blocks of one group's nodes `nodes`, built over `prims`,
/// as group `group` of a tree file whose blocks so far end at byte
/// `start`, after `base` nodes of earlier groups: in node order, each leaf
/// gets the block of its primitives, then each node with proxies the block
/// of its proxies; every record names where its blocks are and their
/// checksums, and a parent names its children after the earlier groups'
/// nodes. A file that would grow past its cap is refused as soon as a block
/// ends past it.
#[verifier::spinoff_prover]
pub fn place_blocks(
    nodes: &Vec<BuildNode>,
    prims: &[Prim],
    group: u32,
    base: usize,
    start: u64,
) -> (r: Result<(Vec<Meta>, Vec<u8>, u64), &'static str>)
    requires
        forall|i: int|
            0 <= i < nodes@.len() ==> ((#[trigger] nodes@[i]).meta.children == 0 ==> nodes@[i].leaf_start
                + nodes@[i].meta.count <= prims@.len()),
        forall|i: int|
            0 <= i < nodes@.len() ==> ((#[trigger] nodes@[i]).meta.children != 0 ==> nodes@[i].meta.first + base
                <= u32::MAX),
        blocks_end(nodes@, start as int, nodes@.len() as int) <= u64::MAX,
        blocks_end(nodes@, start as int, nodes@.len() as int) - start <= usize::MAX,
    ensures
        r is Err <==> checked_before(nodes@, nodes@.len() as int) && blocks_end(
            nodes@,
            start as int,
            nodes@.len() as int,
        ) > CAP,
        r matches Err(e) ==> e == "representatives: tree exceeds 512 MiB",
        r matches Ok((metas, blocks, end)) ==> end == blocks_end(nodes@, start as int, nodes@.len() as int)
            && placed_upto(nodes@, prims@, group, base as int, start as int, metas@, blocks@, nodes@.len() as int),
{
    let mut metas: Vec<Meta> = Vec::new();
    let mut blocks: Vec<u8> = Vec::new();
    let mut offset = start;
    let mut i: usize = 0;
    proof {
        lemma_blocks_end_grows(nodes@, start as int, 0, nodes@.len() as int);
    }
    while i < nodes.len()
        invariant
            i <= nodes@.len(),
            forall|j: int|
                0 <= j < nodes@.len() ==> ((#[trigger] nodes@[j]).meta.children == 0 ==> nodes@[j].leaf_start
                    + nodes@[j].meta.count <= prims@.len()),
            forall|j: int|
                0 <= j < nodes@.len() ==> ((#[trigger] nodes@[j]).meta.children != 0 ==> nodes@[j].meta.first
                    + base <= u32::MAX),
            blocks_end(nodes@, start as int, nodes@.len() as int) <= u64::MAX,
            blocks_end(nodes@, start as int, nodes@.len() as int) - start <= usize::MAX,
            offset == blocks_end(nodes@, start as int, i as int),
            placed_upto(nodes@, prims@, group, base as int, start as int, metas@, blocks@, i as int),
            checked_before(nodes@, i as int) ==> offset <= CAP,
        decreases nodes@.len() - i,
    {
        proof {
            lemma_blocks_end_grows(nodes@, start as int, i + 1, nodes@.len() as int);
            lemma_blocks_end_grows(nodes@, start as int, 0, i as int);
        }
        let ghost b0 = blocks@;
        let ghost m0 = metas@;
        let (m, end) = match place_node(&nodes[i], prims, group, base, offset, &mut blocks, Ghost(start as int)) {
            Ok(v) => v,
            Err(e) => {
                proof {
                    assert(checked_before(nodes@, nodes@.len() as int)) by {
                        assert(checked_node(nodes@[i as int]));
                    }
                }
                return Err(e);
            },
        };
        proof {
            lemma_placed_kept(nodes@, prims@, group, base as int, start as int, m0, b0, blocks@, i as int);
        }
        metas.push(m);
        proof {
            let b = blocks@;
            assert(blocks_end(nodes@, start as int, i + 1) == end);
            assert forall|j: int| 0 <= j < i + 1 implies #[trigger] metas@[j] == placed_meta(
                nodes@[j],
                base as int,
                blocks_end(nodes@, start as int, j),
                b,
                start as int,
            ) by {
                if j < i {
                    assert(m0[j] == metas@[j]);
                }
            }
            assert forall|j: int| 0 <= j < i + 1 implies #[trigger] blocks_hold(
                nodes@,
                prims@,
                group,
                start as int,
                b,
                j,
            ) by {
                if j == i {
                    assert(blocks_end(nodes@, start as int, j) - start == b0.len());
                }
            }
            if checked_before(nodes@, i + 1) {
                if !checked_node(nodes@[i as int]) {
                    let w = choose|w: int| 0 <= w < i + 1 && #[trigger] checked_node(nodes@[w]);
                    assert(checked_before(nodes@, i as int));
                }
            }
        }
        offset = end;
        i = i + 1;
    }
    proof {
        if checked_before(nodes@, nodes@.len() as int) {
        }
    }
    Ok((metas, blocks, offset))
}


/// The node records and block offsets a file names stay when bytes after
/// its directory change.
proof fn lemma_block_off_kept(e: Seq<u8>, d: Seq<u8>, i: int)
    requires
        pre(e, d),
        HEADER + 4 <= e.len(),
        0 <= i <= hdr_nn(e),
        hdr_ng(e) == hdr_ng(d),
        hdr_nn(e) == hdr_nn(d),
        hdr_end(e) == hdr_end(d),
        hdr_end(e) == HEADER + GROUP * hdr_ng(e) + NODE * hdr_nn(e) + 4,
        hdr_end(e) <= e.len(),
    ensures
        block_off(e, i) == block_off(d, i),
    decreases i,
{
    if i > 0 {
        lemma_block_off_kept(e, d, i - 1);
        lemma_keep_meta(e, d, node_off(e, i - 1));
        assert(meta_at(e, i - 1) == meta_at(d, i - 1));
    }
}

/// A tree file cut short by a byte is refused: its blocks no longer end
/// where the file ends, or its directory no longer fits.
pub proof fn law_truncated_tree_is_refused(d: Seq<u8>, id: CacheIdentity, lim: TreeLimits)
    requires
        directory_ok(d, id, lim),
    ensures
        !directory_ok(d.drop_last(), id, lim),
{
    let e = d.drop_last();
    if directory_ok(e, id, lim) {
        assert(pre(e, d)) by {
            assert(d.subrange(0, e.len() as int) =~= e);
        }
        lemma_keep32(e, d, 44);
        lemma_keep32(e, d, 48);
        lemma_keep64(e, d, 56);
        lemma_block_off_kept(e, d, hdr_nn(e));
        assert(forest_ok(e));
        assert(forest_ok(d));
        assert(false);
    }
}

} // verus!
