//! Display labels of one view request: the candidate order, world-anchored
//! declutter bins and the selection of the rows a viewer draws.
//!
//! Declutter is screen-space: one winner per world-anchored bin (anchored to
//! design units, so labels do not reshuffle on pan), blocks before texts, then
//! layer order, then a stable identity hash; the winners are budget-capped.
//! In raw mode every candidate is kept, unbinned and unbudgeted, and sorted
//! in the same stable priority order, for exact comparison.
use vstd::prelude::*;

verus! {

/// One selected label, display-ready. Text rows carry their design layer and
/// datatype; block rows are layer-free.
#[derive(Clone, Debug, PartialEq)]
pub struct LabelRow {
    pub block: bool,
    pub layer: u32,
    pub dt: u32,
    pub x: i64,
    pub y: i64,
    pub s: String,
}

/// What a planning walk saw and why it stopped.
#[derive(Clone, Debug, PartialEq)]
pub struct TextStats {
    pub tbvh_nodes: u64,
    pub records_candidate: u64,
    pub rep_chunks_scanned: u64,
    pub members_tested: u64,
    pub members_visible: u64,
    pub blocks_visible: u64,
    pub place_members_enumerated: u64,
    pub selected: u64,
    pub budget_dropped: u64,
    /// A budget or cap stopped the walk early: the label set is a
    /// deterministic prefix, not the complete candidate set.
    pub truncated: bool,
}

impl Default for TextStats {
    fn default() -> (r: TextStats)
        ensures
            r == (TextStats {
                tbvh_nodes: 0,
                records_candidate: 0,
                rep_chunks_scanned: 0,
                members_tested: 0,
                members_visible: 0,
                blocks_visible: 0,
                place_members_enumerated: 0,
                selected: 0,
                budget_dropped: 0,
                truncated: false,
            }),
    {
        TextStats {
            tbvh_nodes: 0,
            records_candidate: 0,
            rep_chunks_scanned: 0,
            members_tested: 0,
            members_visible: 0,
            blocks_visible: 0,
            place_members_enumerated: 0,
            selected: 0,
            budget_dropped: 0,
            truncated: false,
        }
    }
}

#[derive(Debug)]
pub struct LabelPlan {
    pub rows: Vec<LabelRow>,
    pub stats: TextStats,
}

/// Where a label's text comes from.
#[derive(Clone, Copy, Debug, PartialEq, Eq)]
pub enum Src {
    /// A span of the text-string pool: offset and length.
    Ovt(u64, u32),
    /// A block: the cell's index; its name is the label.
    Cell(u32),
}

/// A label candidate in top coordinates.
#[derive(Clone, Copy, Debug, PartialEq, Eq)]
pub struct Cand {
    pub block: bool,
    /// Text: the layer's index (its display priority); block: 0.
    pub layer_pos: u32,
    pub hash: u64,
    pub x: i64,
    pub y: i64,
    pub src: Src,
}

/// An axis-aligned box in design units, inclusive.
#[derive(Clone, Copy, Debug, PartialEq, Eq)]
pub struct BBox {
    pub x0: i64,
    pub y0: i64,
    pub x1: i64,
    pub y1: i64,
}

pub type Prio = (u8, u32, u64, i64, i64, u64);

/// The source key of a candidate: a string span packs its offset above its
/// length's low byte.
pub open spec fn src_key(s: Src) -> u64 {
    match s {
        Src::Ovt(o, l) => (o << 8u64) | (l as u64),
        Src::Cell(c) => c as u64,
    }
}

/// The total order of candidates: blocks first, then layer order, then the
/// identity hash, with coordinates and source as final ties.
pub open spec fn prio_of(c: Cand) -> Prio {
    ((if c.block { 0u8 } else { 1u8 }), c.layer_pos, c.hash, c.x, c.y, src_key(c.src))
}

/// Lexicographic order of priority tuples, as std orders tuples.
pub open spec fn prio_lt(a: Prio, b: Prio) -> bool {
    ||| a.0 < b.0
    ||| (a.0 == b.0 && a.1 < b.1)
    ||| (a.0 == b.0 && a.1 == b.1 && a.2 < b.2)
    ||| (a.0 == b.0 && a.1 == b.1 && a.2 == b.2 && a.3 < b.3)
    ||| (a.0 == b.0 && a.1 == b.1 && a.2 == b.2 && a.3 == b.3 && a.4 < b.4)
    ||| (a.0 == b.0 && a.1 == b.1 && a.2 == b.2 && a.3 == b.3 && a.4 == b.4 && a.5 < b.5)
}

impl Cand {
    pub fn prio(&self) -> (r: Prio)
        ensures
            r == prio_of(*self),
    {
        let s: u64 = match self.src {
            Src::Ovt(o, l) => (o << 8u64) | (l as u64),
            Src::Cell(c) => c as u64,
        };
        ((if self.block { 0u8 } else { 1u8 }), self.layer_pos, self.hash, self.x, self.y, s)
    }
}

pub fn prio_less(a: &Prio, b: &Prio) -> (r: bool)
    ensures
        r == prio_lt(*a, *b),
{
    if a.0 != b.0 {
        return a.0 < b.0;
    }
    if a.1 != b.1 {
        return a.1 < b.1;
    }
    if a.2 != b.2 {
        return a.2 < b.2;
    }
    if a.3 != b.3 {
        return a.3 < b.3;
    }
    if a.4 != b.4 {
        return a.4 < b.4;
    }
    a.5 < b.5
}

pub const FNV_OFFSET: u64 = 0xcbf29ce484222325;

pub const FNV_PRIME: u64 = 0x100000001b3;

/// Byte `k` of `v`, least significant first.
pub open spec fn le_byte(v: u64, k: int) -> u8 {
    (v >> ((8 * k) as u64)) as u8
}

pub open spec fn value_bytes(v: u64) -> Seq<u8> {
    Seq::new(8, |k: int| le_byte(v, k))
}

/// The little-endian bytes of every value, in order.
pub open spec fn all_bytes(vals: Seq<u64>) -> Seq<u8>
    decreases vals.len(),
{
    if vals.len() == 0 {
        Seq::empty()
    } else {
        all_bytes(vals.drop_last()) + value_bytes(vals.last())
    }
}

pub open spec fn fnv_step(h: u64, b: u8) -> u64 {
    vstd::wrapping::u64_specs::wrapping_mul(h ^ (b as u64), FNV_PRIME)
}

pub open spec fn fnv_fold(h: u64, bs: Seq<u8>) -> u64
    decreases bs.len(),
{
    if bs.len() == 0 {
        h
    } else {
        fnv_step(fnv_fold(h, bs.drop_last()), bs.last())
    }
}

/// FNV-1a over the little-endian bytes of the values.
pub open spec fn fnv_spec(vals: Seq<u64>) -> u64 {
    fnv_fold(FNV_OFFSET, all_bytes(vals))
}

pub fn fnv(vals: &[u64]) -> (r: u64)
    ensures
        r == fnv_spec(vals@),
{
    let mut h: u64 = FNV_OFFSET;
    let mut i: usize = 0;
    while i < vals.len()
        invariant
            i <= vals@.len(),
            h == fnv_fold(FNV_OFFSET, all_bytes(vals@.take(i as int))),
        decreases vals@.len() - i,
    {
        let v = vals[i];
        let ghost before = all_bytes(vals@.take(i as int));
        let mut k: u64 = 0;
        while k < 8
            invariant
                k <= 8,
                h == fnv_fold(FNV_OFFSET, before + value_bytes(v).take(k as int)),
            decreases 8 - k,
        {
            let b: u8 = #[verifier::truncate] ((v >> (8 * k)) as u8);
            proof {
                let s0 = before + value_bytes(v).take(k as int);
                assert(b == le_byte(v, k as int));
                assert(value_bytes(v)[k as int] == b);
                assert(s0.push(b) =~= before + value_bytes(v).take(k + 1));
                assert(s0.push(b).drop_last() =~= s0);
            }
            h = (h ^ (b as u64)).wrapping_mul(FNV_PRIME);
            k = k + 1;
        }
        assert(value_bytes(v).take(8) =~= value_bytes(v));
        assert(vals@.take(i + 1).drop_last() =~= vals@.take(i as int));
        i = i + 1;
    }
    assert(vals@.take(vals@.len() as int) =~= vals@);
    h
}

/// `a - b`, held at the bounds of `i64`.
pub open spec fn sat_sub(a: i64, b: i64) -> i64 {
    if a - b > i64::MAX {
        i64::MAX
    } else if a - b < i64::MIN {
        i64::MIN
    } else {
        (a - b) as i64
    }
}

/// `i64::saturating_sub`.
pub fn saturating_sub(a: i64, b: i64) -> (r: i64)
    ensures
        r == sat_sub(a, b),
{
    let d: i128 = a as i128 - b as i128;
    if d > i64::MAX as i128 {
        i64::MAX
    } else if d < i64::MIN as i128 {
        i64::MIN
    } else {
        d as i64
    }
}

/// The clip translated into a repetition's offset space: offset `o` is a hit
/// if and only if `anchor + o` lies in the clip, up to saturation, which only
/// widens the box.
pub fn offset_box(clip: &BBox, ax: i64, ay: i64) -> (r: BBox)
    ensures
        r == (BBox {
            x0: sat_sub(clip.x0, ax),
            y0: sat_sub(clip.y0, ay),
            x1: sat_sub(clip.x1, ax),
            y1: sat_sub(clip.y1, ay),
        }),
{
    BBox {
        x0: saturating_sub(clip.x0, ax),
        y0: saturating_sub(clip.y0, ay),
        x1: saturating_sub(clip.x1, ax),
        y1: saturating_sub(clip.y1, ay),
    }
}

/// The world-anchored bin of a coordinate: floor division by the bin size.
pub fn bin_of(v: i64, bin: i64) -> (r: i64)
    requires
        bin >= 1,
    ensures
        r == v / bin,
{
    let b: u64 = bin as u64;
    if v >= 0 {
        let q: u64 = (v as u64) / b;
        proof {
            vstd::arithmetic::div_mod::lemma_fundamental_div_mod(v as int, bin as int);
            let qq = (v as u64) / b;
            let rr = (v as u64) % b;
            vstd::arithmetic::div_mod::lemma_fundamental_div_mod(v as u64 as int, b as int);
            vstd::arithmetic::div_mod::lemma_fundamental_div_mod_converse(
                v as int,
                bin as int,
                qq as int,
                rr as int,
            );
            assert(q <= v) by {
                vstd::arithmetic::div_mod::lemma_div_is_ordered_by_denominator(v as int, 1, bin as int);
            }
        }
        q as i64
    } else {
        let n: u64 = (0i128 - v as i128) as u64;
        let c: u64 = (n - 1) / b + 1;
        proof {
            let t = ((n - 1) as int) % (b as int);
            vstd::arithmetic::div_mod::lemma_fundamental_div_mod((n - 1) as int, b as int);
            let c0 = ((n - 1) as int) / (b as int);
            assert(n - 1 == c0 * b + t);
            assert(0 <= t < b);
            assert(v == -(c as int) * bin + (b - 1 - t)) by (nonlinear_arith)
                requires
                    v == -(n as int),
                    n - 1 == c0 * b + t,
                    c == c0 + 1,
                    b == bin,
            ;
            vstd::arithmetic::div_mod::lemma_fundamental_div_mod_converse(
                v as int,
                bin as int,
                -(c as int),
                (b - 1 - t) as int,
            );
            assert(c <= n) by {
                vstd::arithmetic::div_mod::lemma_div_is_ordered_by_denominator((n - 1) as int, 1, b as int);
            }
        }
        (0i128 - c as i128) as i64
    }
}

/// The bin of a candidate.
pub open spec fn key_of(c: Cand, bin: i64) -> (i64, i64) {
    ((c.x / bin) as i64, (c.y / bin) as i64)
}

/// Input positions in priority order, ties kept in input order.
pub open spec fn cand_position_le(s: Seq<Cand>, a: usize, b: usize) -> bool {
    prio_lt(prio_of(s[a as int]), prio_of(s[b as int])) || (prio_of(s[a as int]) == prio_of(
        s[b as int],
    ) && a <= b)
}

pub open spec fn cand_order(s: Seq<Cand>) -> spec_fn(usize, usize) -> bool {
    |a: usize, b: usize| cand_position_le(s, a, b)
}

pub open spec fn positions(n: nat) -> Seq<usize> {
    Seq::new(n, |i: int| i as usize)
}

/// The candidates sorted by priority; equal priorities keep their order.
pub open spec fn sort_cands(s: Seq<Cand>) -> Seq<Cand> {
    positions(s.len()).sort_by(cand_order(s)).map_values(|i: usize| s[i as int])
}

proof fn lemma_cand_order_total(s: Seq<Cand>)
    ensures
        vstd::relations::total_ordering(cand_order(s)),
{
    let r = cand_order(s);
    assert(vstd::relations::reflexive(r));
    assert(vstd::relations::antisymmetric(r));
    assert(vstd::relations::transitive(r));
    assert(vstd::relations::strongly_connected(r));
}

/// The candidates in stable priority order.
pub fn sorted_cands(v: &Vec<Cand>) -> (r: Vec<Cand>)
    ensures
        r@ == sort_cands(v@),
{
    let ghost s = v@;
    let mut ord: Vec<usize> = Vec::new();
    let mut i: usize = 0;
    assert(positions(0) =~= Seq::<usize>::empty());
    while i < v.len()
        invariant
            i <= v@.len(),
            s == v@,
            ord@.len() == i,
            forall|k: int| 0 <= k < i ==> #[trigger] ord@[k] < i,
            vstd::relations::sorted_by(ord@, cand_order(s)),
            ord@.to_multiset() == positions(i as nat).to_multiset(),
        decreases v@.len() - i,
    {
        let key = v[i].prio();
        let mut j: usize = ord.len();
        while j > 0 && prio_less(&key, &v[ord[j - 1]].prio())
            invariant
                j <= ord@.len(),
                i < v@.len(),
                s == v@,
                key == prio_of(s[i as int]),
                forall|k: int| 0 <= k < ord@.len() ==> #[trigger] ord@[k] < i,
                forall|k: int| j <= k < ord@.len() ==> prio_lt(key, prio_of(#[trigger] s[ord@[k] as int])),
            decreases j,
        {
            j = j - 1;
        }
        let ghost old_ord = ord@;
        ord.insert(j, i);
        proof {
            let new_ord = ord@;
            assert(new_ord == old_ord.insert(j as int, i));
            assert forall|p: int, q: int| 0 <= p < q < new_ord.len() implies #[trigger] cand_order(s)(
                new_ord[p],
                new_ord[q],
            ) by {
                if p == j {
                    assert(new_ord[q] == old_ord[q - 1]);
                    assert(prio_lt(key, prio_of(s[old_ord[q - 1] as int])));
                } else if q == j {
                    assert(new_ord[q] == i);
                    assert(new_ord[p] == old_ord[p]);
                    let last = old_ord[j - 1];
                    assert(!prio_lt(key, prio_of(s[last as int])));
                    if p < j - 1 {
                        assert(cand_order(s)(old_ord[p], last));
                    }
                    assert(old_ord[p] < i);
                } else {
                    let pp = if p < j {
                        p
                    } else {
                        p - 1
                    };
                    let qq = if q < j {
                        q
                    } else {
                        q - 1
                    };
                    assert(new_ord[p] == old_ord[pp] && new_ord[q] == old_ord[qq]);
                    assert(pp < qq);
                }
            }
            vstd::seq_lib::to_multiset_insert(old_ord, j as int, i);
            assert(positions((i + 1) as nat) =~= positions(i as nat).push(i));
            vstd::seq_lib::to_multiset_build(positions(i as nat), i);
        }
        i = i + 1;
    }
    proof {
        lemma_cand_order_total(s);
        positions(s.len()).lemma_sort_by_ensures(cand_order(s));
        vstd::seq_lib::lemma_sorted_unique(ord@, positions(s.len()).sort_by(cand_order(s)), cand_order(s));
    }
    let mut out: Vec<Cand> = Vec::new();
    let mut k: usize = 0;
    while k < ord.len()
        invariant
            k <= ord@.len(),
            s == v@,
            ord@ == positions(s.len()).sort_by(cand_order(s)),
            ord@.len() == s.len(),
            forall|m: int| 0 <= m < ord@.len() ==> #[trigger] ord@[m] < s.len(),
            out@.len() == k,
            forall|m: int| 0 <= m < k ==> #[trigger] out@[m] == s[ord@[m] as int],
        decreases ord@.len() - k,
    {
        out.push(v[ord[k]]);
        k = k + 1;
    }
    assert(out@ =~= sort_cands(s));
    out
}

pub type Key = (i64, i64);

/// `bins` with `c` added: it takes a bin of its own, or replaces its bin's
/// holder when it has a strictly higher priority.
pub open spec fn bin_step(bins: Seq<(Key, Cand)>, c: Cand, bin: i64) -> Seq<(Key, Cand)> {
    let k = key_of(c, bin);
    if exists|p: int| 0 <= p < bins.len() && (#[trigger] bins[p]).0 == k {
        let p = choose|p: int| 0 <= p < bins.len() && (#[trigger] bins[p]).0 == k;
        if prio_lt(prio_of(c), prio_of(bins[p].1)) {
            bins.update(p, (k, c))
        } else {
            bins
        }
    } else {
        bins.push((k, c))
    }
}

/// The bins after adding `cands` in order.
pub open spec fn binned(cands: Seq<Cand>, bin: i64) -> Seq<(Key, Cand)>
    decreases cands.len(),
{
    if cands.len() == 0 {
        Seq::empty()
    } else {
        bin_step(binned(cands.drop_last(), bin), cands.last(), bin)
    }
}

pub open spec fn keys_distinct(bins: Seq<(Key, Cand)>) -> bool {
    forall|i: int, j: int| 0 <= i < j < bins.len() ==> (#[trigger] bins[i]).0 != (#[trigger] bins[j]).0
}

/// The holders of the bins, in bin order.
pub open spec fn holders(bins: Seq<(Key, Cand)>) -> Seq<Cand> {
    bins.map_values(|e: (Key, Cand)| e.1)
}

/// What a declutter selects: in raw mode every candidate, otherwise the
/// holders of the bins up to the budget; in stable priority order.
pub open spec fn selection(raw: bool, added: Seq<Cand>, bin: i64, budget: usize) -> Seq<Cand> {
    if raw {
        sort_cands(added)
    } else {
        let all = sort_cands(holders(binned(added, bin)));
        if all.len() <= budget {
            all
        } else {
            all.take(budget as int)
        }
    }
}

/// How many bin holders the budget drops.
pub open spec fn dropped(raw: bool, added: Seq<Cand>, bin: i64, budget: usize) -> nat {
    if raw {
        0
    } else {
        let n = binned(added, bin).len();
        if n <= budget {
            0
        } else {
            (n - budget) as nat
        }
    }
}

/// The candidates of one view request: binned for declutter, or kept whole in
/// raw mode.
pub struct Declutter {
    raw: bool,
    bin: i64,
    cand_cap: usize,
    bins: Vec<(Key, Cand)>,
    raw_out: Vec<Cand>,
    added: Ghost<Seq<Cand>>,
    truncated: bool,
    done: bool,
}

impl Declutter {
    /// The bins are those of the candidates added, one per key; raw mode
    /// keeps every candidate instead.
    #[verifier::type_invariant]
    closed spec fn wf(&self) -> bool {
        &&& self.bin >= 1
        &&& (!self.raw ==> self.bins@ == binned(self.added@, self.bin))
        &&& (self.raw ==> self.bins@.len() == 0)
        &&& keys_distinct(self.bins@)
        &&& (self.raw ==> self.raw_out@ == self.added@)
        &&& (!self.raw ==> self.raw_out@.len() == 0)
    }

    pub closed spec fn is_raw(&self) -> bool {
        self.raw
    }

    pub closed spec fn bin_size(&self) -> i64 {
        self.bin
    }

    pub closed spec fn cap(&self) -> usize {
        self.cand_cap
    }

    /// Every candidate added so far, in order.
    pub closed spec fn added(&self) -> Seq<Cand> {
        self.added@
    }

    pub closed spec fn spec_truncated(&self) -> bool {
        self.truncated
    }

    pub closed spec fn spec_done(&self) -> bool {
        self.done
    }

    /// Candidates bin by `bin` design units, or are all kept when `raw`;
    /// `cand_cap` bounds the bins (or raw candidates) retained.
    pub fn new(raw: bool, bin: i64, cand_cap: usize) -> (r: Declutter)
        requires
            bin >= 1,
        ensures
            r.is_raw() == raw,
            r.bin_size() == bin,
            r.cap() == cand_cap,
            r.added() == Seq::<Cand>::empty(),
            !r.spec_truncated(),
            !r.spec_done(),
    {
        Declutter {
            raw,
            bin,
            cand_cap,
            bins: Vec::new(),
            raw_out: Vec::new(),
            added: Ghost(Seq::empty()),
            truncated: false,
            done: false,
        }
    }

    pub fn truncated(&self) -> (r: bool)
        ensures
            r == self.spec_truncated(),
    {
        self.truncated
    }

    pub fn done(&self) -> (r: bool)
        ensures
            r == self.spec_done(),
    {
        self.done
    }

    /// How many candidates are retained: bins, or raw candidates.
    pub open spec fn retained(&self) -> nat {
        if self.is_raw() {
            self.added().len()
        } else {
            binned(self.added(), self.bin_size()).len()
        }
    }

    /// Adds a candidate. Reaching the cap marks the walk truncated and done.
    pub fn add(&mut self, c: Cand)
        ensures
            final(self).added() == old(self).added().push(c),
            final(self).is_raw() == old(self).is_raw(),
            final(self).bin_size() == old(self).bin_size(),
            final(self).cap() == old(self).cap(),
            final(self).spec_truncated() == (old(self).spec_truncated() || (final(self).retained()
                >= old(self).cap() && final(self).retained() > old(self).retained())),
            final(self).spec_done() == (old(self).spec_done() || (final(self).retained()
                >= old(self).cap() && final(self).retained() > old(self).retained())),
    {
        proof {
            use_type_invariant(&*self);
        }
        let mut taken = Declutter {
            raw: self.raw,
            bin: self.bin,
            cand_cap: self.cand_cap,
            bins: Vec::new(),
            raw_out: Vec::new(),
            added: Ghost(Seq::empty()),
            truncated: self.truncated,
            done: self.done,
        };
        std::mem::swap(self, &mut taken);
        proof {
            use_type_invariant(&taken);
        }
        let Declutter { raw, bin, cand_cap, mut bins, mut raw_out, added, mut truncated, mut done } =
            taken;
        let ghost before = added@;
        if raw {
            raw_out.push(c);
            assert(before.push(c).drop_last() =~= before);
            if raw_out.len() >= cand_cap {
                truncated = true;
                done = true;
            }
            *self = Declutter {
                raw,
                bin,
                cand_cap,
                bins,
                raw_out,
                added: Ghost(before.push(c)),
                truncated,
                done,
            };
            return;
        }
        let k: Key = (bin_of(c.x, bin), bin_of(c.y, bin));
        let mut p: usize = 0;
        while p < bins.len()
            invariant
                p <= bins@.len(),
                forall|q: int| 0 <= q < p ==> (#[trigger] bins@[q]).0 != k,
            ensures
                p <= bins@.len(),
                forall|q: int| 0 <= q < p ==> (#[trigger] bins@[q]).0 != k,
                p < bins@.len() ==> bins@[p as int].0 == k,
            decreases bins@.len() - p,
        {
            if bins[p].0.0 == k.0 && bins[p].0.1 == k.1 {
                break;
            }
            p = p + 1;
        }
        let ghost bins0 = bins@;
        assert(binned(before.push(c), bin) == bin_step(bins0, c, bin)) by {
            assert(before.push(c).drop_last() =~= before);
        }
        if p < bins.len() {
            proof {
                assert(bins0[p as int].0 == k);
                let q = choose|q: int| 0 <= q < bins0.len() && (#[trigger] bins0[q]).0 == k;
                assert(q == p);
            }
            let held = bins[p].1;
            if prio_less(&c.prio(), &held.prio()) {
                bins.set(p, (k, c));
                proof {
                    assert forall|i: int, j: int| 0 <= i < j < bins@.len() implies (
                    #[trigger] bins@[i]).0 != (#[trigger] bins@[j]).0 by {
                        assert(bins0[i].0 != bins0[j].0);
                    }
                }
            }
        } else {
            bins.push((k, c));
            proof {
                assert forall|i: int, j: int| 0 <= i < j < bins@.len() implies (
                #[trigger] bins@[i]).0 != (#[trigger] bins@[j]).0 by {
                    if j < bins0.len() {
                        assert(bins0[i].0 != bins0[j].0);
                    }
                }
            }
            if bins.len() >= cand_cap {
                truncated = true;
                done = true;
            }
        }
        *self = Declutter {
            raw,
            bin,
            cand_cap,
            bins,
            raw_out,
            added: Ghost(before.push(c)),
            truncated,
            done,
        };
    }

    /// The retained candidates in stable priority order; outside raw mode at
    /// most `view_budget` of them, with the number dropped.
    pub fn finish(self, view_budget: usize) -> (r: (Vec<Cand>, u64))
        ensures
            r.0@ == selection(self.is_raw(), self.added(), self.bin_size(), view_budget),
            r.1 == dropped(self.is_raw(), self.added(), self.bin_size(), view_budget),
    {
        proof {
            use_type_invariant(&self);
        }
        if self.raw {
            return (sorted_cands(&self.raw_out), 0);
        }
        let mut values: Vec<Cand> = Vec::new();
        let mut i: usize = 0;
        while i < self.bins.len()
            invariant
                i <= self.bins@.len(),
                values@ == holders(self.bins@.take(i as int)),
            decreases self.bins@.len() - i,
        {
            values.push(self.bins[i].1);
            assert(holders(self.bins@.take(i + 1)) =~= holders(self.bins@.take(i as int)).push(
                self.bins@[i as int].1,
            ));
            i = i + 1;
        }
        assert(self.bins@.take(self.bins@.len() as int) =~= self.bins@);
        let mut c = sorted_cands(&values);
        proof {
            lemma_sort_keeps_members(values@);
        }
        let n = c.len();
        if n <= view_budget {
            return (c, 0);
        }
        c.truncate(view_budget);
        (c, (n - view_budget) as u64)
    }
}

/// Every bin holds a candidate of `cands` that fell into it.
pub open spec fn held_from(b: Seq<(Key, Cand)>, cands: Seq<Cand>, bin: i64) -> bool {
    forall|i: int|
        0 <= i < b.len() ==> exists|j: int|
            0 <= j < cands.len() && #[trigger] cands[j] == (#[trigger] b[i]).1 && key_of(
                cands[j],
                bin,
            ) == b[i].0
}

/// Every candidate falls into a bin whose holder has at least its priority.
pub open spec fn best_held(b: Seq<(Key, Cand)>, cands: Seq<Cand>, bin: i64) -> bool {
    forall|j: int|
        0 <= j < cands.len() ==> exists|i: int|
            0 <= i < b.len() && (#[trigger] b[i]).0 == key_of(#[trigger] cands[j], bin) && !prio_lt(
                prio_of(cands[j]),
                prio_of(b[i].1),
            )
}

proof fn lemma_step_keeps_holders(b0: Seq<(Key, Cand)>, init: Seq<Cand>, c: Cand, bin: i64)
    requires
        keys_distinct(b0),
        held_from(b0, init, bin),
    ensures
        keys_distinct(bin_step(b0, c, bin)),
        held_from(bin_step(b0, c, bin), init.push(c), bin),
{
    let cands = init.push(c);
    let b1 = bin_step(b0, c, bin);
    let k = key_of(c, bin);
    assert(cands[cands.len() - 1] == c);
    if exists|p: int| 0 <= p < b0.len() && (#[trigger] b0[p]).0 == k {
        let p = choose|p: int| 0 <= p < b0.len() && (#[trigger] b0[p]).0 == k;
        assert forall|i: int, j: int| 0 <= i < j < b1.len() implies (#[trigger] b1[i]).0 != (
        #[trigger] b1[j]).0 by {
            assert(b0[i].0 != b0[j].0);
        }
        assert forall|i: int| 0 <= i < b1.len() implies exists|j: int|
            0 <= j < cands.len() && #[trigger] cands[j] == (#[trigger] b1[i]).1 && key_of(
                cands[j],
                bin,
            ) == b1[i].0 by {
            if !(i == p && prio_lt(prio_of(c), prio_of(b0[p].1))) {
                let j = choose|j: int|
                    0 <= j < init.len() && #[trigger] init[j] == (#[trigger] b0[i]).1 && key_of(
                        init[j],
                        bin,
                    ) == b0[i].0;
                assert(cands[j] == init[j]);
            }
        }
    } else {
        assert forall|i: int, j: int| 0 <= i < j < b1.len() implies (#[trigger] b1[i]).0 != (
        #[trigger] b1[j]).0 by {
            if j < b0.len() {
                assert(b0[i].0 != b0[j].0);
            }
        }
        assert forall|i: int| 0 <= i < b1.len() implies exists|j: int|
            0 <= j < cands.len() && #[trigger] cands[j] == (#[trigger] b1[i]).1 && key_of(
                cands[j],
                bin,
            ) == b1[i].0 by {
            if i < b0.len() {
                let j = choose|j: int|
                    0 <= j < init.len() && #[trigger] init[j] == (#[trigger] b0[i]).1 && key_of(
                        init[j],
                        bin,
                    ) == b0[i].0;
                assert(cands[j] == init[j]);
            }
        }
    }
}

proof fn lemma_step_keeps_best(b0: Seq<(Key, Cand)>, init: Seq<Cand>, c: Cand, bin: i64)
    requires
        keys_distinct(b0),
        best_held(b0, init, bin),
    ensures
        best_held(bin_step(b0, c, bin), init.push(c), bin),
{
    let cands = init.push(c);
    let b1 = bin_step(b0, c, bin);
    let k = key_of(c, bin);
    assert(cands[cands.len() - 1] == c);
    if exists|p: int| 0 <= p < b0.len() && (#[trigger] b0[p]).0 == k {
        let p = choose|p: int| 0 <= p < b0.len() && (#[trigger] b0[p]).0 == k;
        assert forall|j: int| 0 <= j < cands.len() implies exists|i: int|
            0 <= i < b1.len() && (#[trigger] b1[i]).0 == key_of(#[trigger] cands[j], bin) && !prio_lt(
                prio_of(cands[j]),
                prio_of(b1[i].1),
            ) by {
            if j == cands.len() - 1 {
                assert(b1[p].0 == k);
            } else {
                assert(cands[j] == init[j]);
                let i = choose|i: int|
                    0 <= i < b0.len() && (#[trigger] b0[i]).0 == key_of(#[trigger] init[j], bin)
                        && !prio_lt(prio_of(init[j]), prio_of(b0[i].1));
                assert(b1[i].0 == b0[i].0);
            }
        }
    } else {
        assert forall|j: int| 0 <= j < cands.len() implies exists|i: int|
            0 <= i < b1.len() && (#[trigger] b1[i]).0 == key_of(#[trigger] cands[j], bin) && !prio_lt(
                prio_of(cands[j]),
                prio_of(b1[i].1),
            ) by {
            if j == cands.len() - 1 {
                assert(b1[b0.len() as int].0 == k);
            } else {
                assert(cands[j] == init[j]);
                let i = choose|i: int|
                    0 <= i < b0.len() && (#[trigger] b0[i]).0 == key_of(#[trigger] init[j], bin)
                        && !prio_lt(prio_of(init[j]), prio_of(b0[i].1));
                assert(b1[i] == b0[i]);
            }
        }
    }
}

/// Every bin holds one of the candidates that fell into it, each bin key
/// occurs once, and every candidate falls into a bin whose holder has at
/// least its priority: declutter keeps the best label of each bin.
pub proof fn law_each_bin_holds_its_best(cands: Seq<Cand>, bin: i64)
    ensures
        keys_distinct(binned(cands, bin)),
        held_from(binned(cands, bin), cands, bin),
        best_held(binned(cands, bin), cands, bin),
    decreases cands.len(),
{
    if cands.len() > 0 {
        let init = cands.drop_last();
        law_each_bin_holds_its_best(init, bin);
        assert(init.push(cands.last()) =~= cands);
        lemma_step_keeps_holders(binned(init, bin), init, cands.last(), bin);
        lemma_step_keeps_best(binned(init, bin), init, cands.last(), bin);
    }
}

pub const BEYOND_POOL: &'static str = "corrupt cache; rebuild: text string beyond design.ovt";

pub const NOT_UTF8: &'static str = "corrupt cache; rebuild: text string not UTF-8";

/// `std::str::from_utf8`: the bytes as a string slice exactly when they are
/// valid UTF-8; the slice holds those bytes.
#[verifier::external_body]
fn str_from_utf8(b: &[u8]) -> (r: Option<&str>)
    ensures
        r is Some <==> vstd::utf8::valid_utf8(b@),
        r matches Some(t) ==> vstd::string::StringSliceAdditionalSpecFns::spec_bytes(t) == b@,
{
    std::str::from_utf8(b).ok()
}

/// The bytes of a string span, if it lies within the pool.
pub open spec fn span(ovt: Seq<u8>, off: u64, len: u32) -> Option<Seq<u8>> {
    if off + len <= ovt.len() {
        Some(ovt.subrange(off as int, off + len))
    } else {
        None
    }
}

/// The text of a candidate, or the reason it cannot be read.
pub open spec fn label_text(c: Cand, ovt: Seq<u8>, names: Seq<String>) -> Result<
    Seq<char>,
    &'static str,
> {
    match c.src {
        Src::Ovt(off, len) => match span(ovt, off, len) {
            Some(b) => if vstd::utf8::valid_utf8(b) {
                Ok(vstd::utf8::decode_utf8(b))
            } else {
                Err(NOT_UTF8)
            },
            None => Err(BEYOND_POOL),
        },
        Src::Cell(ci) => Ok(names[ci as int]@),
    }
}

/// A candidate's label row, given its text: text rows take their layer's
/// design layer and datatype, block rows are layer-free.
pub open spec fn row_of(c: Cand, text: Seq<char>, layers: Seq<(u32, u32)>, r: LabelRow) -> bool {
    &&& r.block == (c.src is Cell)
    &&& r.x == c.x
    &&& r.y == c.y
    &&& r.s@ == text
    &&& match c.src {
        Src::Ovt(_, _) => r.layer == layers[c.layer_pos as int].0 && r.dt == layers[c.layer_pos as int].1,
        Src::Cell(_) => r.layer == 0 && r.dt == 0,
    }
}

/// The rows of `cands`, one each, in order.
pub open spec fn plan_of(
    cands: Seq<Cand>,
    ovt: Seq<u8>,
    layers: Seq<(u32, u32)>,
    names: Seq<String>,
    rows: Seq<LabelRow>,
) -> bool {
    &&& rows.len() == cands.len()
    &&& forall|k: int|
        0 <= k < rows.len() ==> row_of(
            cands[k],
            label_text(cands[k], ovt, names)->Ok_0,
            layers,
            #[trigger] rows[k],
        )
}

/// Whether every candidate names a known layer or cell.
pub open spec fn sources_known(cands: Seq<Cand>, layers: Seq<(u32, u32)>, names: Seq<String>) -> bool {
    forall|k: int|
        0 <= k < cands.len() ==> match (#[trigger] cands[k]).src {
            Src::Ovt(_, _) => cands[k].layer_pos < layers.len(),
            Src::Cell(ci) => ci < names.len(),
        }
}

/// The first candidate whose text cannot be read, if any.
pub open spec fn first_unreadable(cands: Seq<Cand>, ovt: Seq<u8>, names: Seq<String>) -> Option<int> {
    if exists|k: int| 0 <= k < cands.len() && (#[trigger] label_text(cands[k], ovt, names)) is Err {
        Some(
            choose|k: int|
                0 <= k < cands.len() && (#[trigger] label_text(cands[k], ovt, names)) is Err && forall|
                    m: int,
                | 0 <= m < k ==> (#[trigger] label_text(cands[m], ovt, names)) is Ok,
        )
    } else {
        None
    }
}

fn text_of(c: &Cand, ovt: &[u8], names: &Vec<String>) -> (r: Result<String, &'static str>)
    requires
        c.src matches Src::Cell(ci) ==> ci < names@.len(),
    ensures
        match label_text(*c, ovt@, names@) {
            Ok(t) => r matches Ok(s) && s@ == t,
            Err(e) => r == Err::<String, &'static str>(e),
        },
{
    match c.src {
        Src::Ovt(off, len) => {
            if off > ovt.len() as u64 || (ovt.len() as u64) - off < len as u64 {
                return Err(BEYOND_POOL);
            }
            let lo = off as usize;
            let hi = lo + len as usize;
            let bytes = vstd::slice::slice_subrange(ovt, lo, hi);
            match str_from_utf8(bytes) {
                Some(t) => {
                    proof {
                        vstd::utf8::encode_utf8_decode_utf8(t@);
                    }
                    Ok(t.to_owned())
                },
                None => Err(NOT_UTF8),
            }
        },
        Src::Cell(ci) => Ok(names[ci as usize].clone()),
    }
}

/// The rows of the selected candidates, in order; a text that cannot be read
/// fails the whole plan. `layers` holds each layer's design layer and
/// datatype, `names` each cell's name.
pub fn label_rows(
    cands: &Vec<Cand>,
    ovt: &[u8],
    layers: &Vec<(u32, u32)>,
    names: &Vec<String>,
) -> (r: Result<Vec<LabelRow>, &'static str>)
    requires
        sources_known(cands@, layers@, names@),
    ensures
        match first_unreadable(cands@, ovt@, names@) {
            Some(k) => r == Err::<Vec<LabelRow>, &'static str>(
                label_text(cands@[k], ovt@, names@)->Err_0,
            ),
            None => r matches Ok(rows) && plan_of(cands@, ovt@, layers@, names@, rows@),
        },
{
    let mut rows: Vec<LabelRow> = Vec::new();
    let mut i: usize = 0;
    while i < cands.len()
        invariant
            i <= cands@.len(),
            sources_known(cands@, layers@, names@),
            rows@.len() == i,
            forall|k: int| 0 <= k < i ==> (#[trigger] label_text(cands@[k], ovt@, names@)) is Ok,
            forall|k: int|
                0 <= k < i ==> row_of(
                    cands@[k],
                    label_text(cands@[k], ovt@, names@)->Ok_0,
                    layers@,
                    #[trigger] rows@[k],
                ),
        decreases cands@.len() - i,
    {
        let c = cands[i];
        assert(c == cands@[i as int]);
        let s = match text_of(&c, ovt, names) {
            Ok(s) => s,
            Err(e) => {
                proof {
                    let k = i as int;
                    assert(label_text(cands@[k], ovt@, names@) is Err);
                    let f = first_unreadable(cands@, ovt@, names@);
                    assert(f is Some);
                    let q = f->0;
                    assert(label_text(cands@[q], ovt@, names@) is Err);
                    assert(q == k) by {
                        if q < k {
                            assert(label_text(cands@[q], ovt@, names@) is Ok);
                        } else if q > k {
                            assert(label_text(cands@[k], ovt@, names@) is Ok);
                        }
                    }
                }
                return Err(e);
            },
        };
        let (layer, dt) = match c.src {
            Src::Ovt(_, _) => layers[c.layer_pos as usize],
            Src::Cell(_) => (0u32, 0u32),
        };
        let block = match c.src {
            Src::Cell(_) => true,
            Src::Ovt(_, _) => false,
        };
        rows.push(LabelRow { block, layer, dt, x: c.x, y: c.y, s });
        i = i + 1;
    }
    proof {
        if first_unreadable(cands@, ovt@, names@) is Some {
            let k = choose|k: int| 0 <= k < cands@.len() && (#[trigger] label_text(cands@[k], ovt@, names@)) is Err;
            assert(label_text(cands@[k], ovt@, names@) is Ok);
        }
    }
    Ok(rows)
}

/// The tail of label planning: the declutter's selection, its rows and the
/// walk's statistics with the selection counts.
pub fn finish_plan(
    d: Declutter,
    view_budget: usize,
    stats: TextStats,
    ovt: &[u8],
    layers: &Vec<(u32, u32)>,
    names: &Vec<String>,
) -> (r: Result<LabelPlan, &'static str>)
    requires
        sources_known(d.added(), layers@, names@),
    ensures
        ({
            let kept = selection(d.is_raw(), d.added(), d.bin_size(), view_budget);
            match first_unreadable(kept, ovt@, names@) {
                Some(k) => r == Err::<LabelPlan, &'static str>(label_text(kept[k], ovt@, names@)->Err_0),
                None => r matches Ok(plan) && plan_of(kept, ovt@, layers@, names@, plan.rows@) && plan.stats
                    == (TextStats {
                    selected: kept.len() as u64,
                    budget_dropped: dropped(d.is_raw(), d.added(), d.bin_size(), view_budget) as u64,
                    truncated: stats.truncated || d.spec_truncated(),
                    ..stats
                }),
            }
        }),
{
    let truncated = d.truncated();
    proof {
        lemma_selection_known(d.is_raw(), d.added(), d.bin_size(), view_budget, layers@, names@);
    }
    let (kept, dropped) = d.finish(view_budget);
    let rows = match label_rows(&kept, ovt, layers, names) {
        Ok(rows) => rows,
        Err(e) => return Err(e),
    };
    let mut st = stats;
    st.budget_dropped = dropped;
    st.selected = kept.len() as u64;
    st.truncated = st.truncated || truncated;
    Ok(LabelPlan { rows, stats: st })
}

/// Sorting keeps exactly the candidates it was given.
proof fn lemma_sort_keeps_members(s: Seq<Cand>)
    ensures
        forall|c: Cand| #[trigger] sort_cands(s).contains(c) ==> s.contains(c),
        sort_cands(s).len() == s.len(),
{
    let ps = positions(s.len());
    lemma_cand_order_total(s);
    ps.lemma_sort_by_ensures(cand_order(s));
    vstd::seq_lib::to_multiset_len(ps);
    let sorted = ps.sort_by(cand_order(s));
    vstd::seq_lib::to_multiset_len(sorted);
    assert forall|c: Cand| #[trigger] sort_cands(s).contains(c) implies s.contains(c) by {
        let k = choose|k: int| 0 <= k < sort_cands(s).len() && sort_cands(s)[k] == c;
        let i = sorted[k];
        assert(sorted.contains(i));
        vstd::seq_lib::to_multiset_contains(sorted, i);
        vstd::seq_lib::to_multiset_contains(ps, i);
        assert(ps.contains(i));
        let m = choose|m: int| 0 <= m < ps.len() && ps[m] == i;
        assert(s[i as int] == c);
    }
}

/// The holders of the bins are candidates that were added.
proof fn lemma_holders_added(added: Seq<Cand>, bin: i64)
    ensures
        forall|c: Cand| #[trigger] holders(binned(added, bin)).contains(c) ==> added.contains(c),
{
    law_each_bin_holds_its_best(added, bin);
    let b = binned(added, bin);
    assert forall|c: Cand| #[trigger] holders(b).contains(c) implies added.contains(c) by {
        let i = choose|i: int| 0 <= i < holders(b).len() && holders(b)[i] == c;
        assert(b[i].1 == c);
        let j = choose|j: int|
            0 <= j < added.len() && #[trigger] added[j] == (#[trigger] b[i]).1 && key_of(added[j], bin)
                == b[i].0;
        assert(added[j] == c);
    }
}

/// A selection holds only candidates that were added, so it names only
/// known layers and cells when they did.
proof fn lemma_selection_known(
    raw: bool,
    added: Seq<Cand>,
    bin: i64,
    budget: usize,
    layers: Seq<(u32, u32)>,
    names: Seq<String>,
)
    requires
        sources_known(added, layers, names),
    ensures
        sources_known(selection(raw, added, bin, budget), layers, names),
{
    let pool = if raw {
        added
    } else {
        holders(binned(added, bin))
    };
    lemma_sort_keeps_members(pool);
    lemma_holders_added(added, bin);
    let sel = selection(raw, added, bin, budget);
    assert forall|k: int| 0 <= k < sel.len() implies match (#[trigger] sel[k]).src {
        Src::Ovt(_, _) => sel[k].layer_pos < layers.len(),
        Src::Cell(ci) => ci < names.len(),
    } by {
        assert(sel[k] == sort_cands(pool)[k]);
        assert(sort_cands(pool).contains(sel[k]));
        assert(pool.contains(sel[k]));
        assert(added.contains(sel[k]));
        let j = choose|j: int| 0 <= j < added.len() && added[j] == sel[k];
        assert(match added[j].src {
            Src::Ovt(_, _) => added[j].layer_pos < layers.len(),
            Src::Cell(ci) => ci < names.len(),
        });
    }
}

/// Whether `s` is in priority order: no later candidate outranks an
/// earlier one.
pub open spec fn in_priority_order(s: Seq<Cand>) -> bool {
    forall|i: int, j: int| 0 <= i < j < s.len() ==> !prio_lt(prio_of(#[trigger] s[j]), prio_of(#[trigger] s[i]))
}

proof fn lemma_sort_in_order(s: Seq<Cand>)
    ensures
        in_priority_order(sort_cands(s)),
{
    let ps = positions(s.len());
    lemma_cand_order_total(s);
    ps.lemma_sort_by_ensures(cand_order(s));
    lemma_sort_keeps_members(s);
    let sorted = ps.sort_by(cand_order(s));
    let r = sort_cands(s);
    assert forall|i: int, j: int| 0 <= i < j < r.len() implies !prio_lt(prio_of(#[trigger] r[j]), prio_of(#[trigger] r[i])) by {
        assert(cand_order(s)(sorted[i], sorted[j]));
        assert(r[i] == s[sorted[i] as int]);
        assert(r[j] == s[sorted[j] as int]);
    }
}

/// The rows a declutter selects come in priority order: every block before
/// every text, texts by layer order, then by identity hash, position and
/// source.
pub proof fn law_selection_in_priority_order(raw: bool, added: Seq<Cand>, bin: i64, budget: usize)
    ensures
        in_priority_order(selection(raw, added, bin, budget)),
{
    if raw {
        lemma_sort_in_order(added);
    } else {
        let all = sort_cands(holders(binned(added, bin)));
        lemma_sort_in_order(holders(binned(added, bin)));
        if all.len() > budget {
            let t = all.take(budget as int);
            assert forall|i: int, j: int| 0 <= i < j < t.len() implies !prio_lt(prio_of(#[trigger] t[j]), prio_of(#[trigger] t[i])) by {
                assert(t[i] == all[i] && t[j] == all[j]);
            }
        }
    }
}


/// Whether candidates `a` and `b` lie in the same cell of the world-anchored
/// grid of `bin` design units: both coordinates floor-divide alike.
pub open spec fn same_cell(a: Cand, b: Cand, bin: i64) -> bool {
    a.x / bin == b.x / bin && a.y / bin == b.y / bin
}

proof fn lemma_div_in_range(x: i64, bin: i64)
    requires
        bin >= 1,
    ensures
        i64::MIN <= x / bin <= i64::MAX,
{
    vstd::arithmetic::div_mod::lemma_fundamental_div_mod(x as int, bin as int);
    let q = (x as int) / (bin as int);
    let r = (x as int) % (bin as int);
    assert(i64::MIN <= q <= i64::MAX) by (nonlinear_arith)
        requires
            bin * q + r == x,
            0 <= r < bin,
            bin >= 1,
            i64::MIN <= x <= i64::MAX,
    ;
}

proof fn lemma_key_is_cell(a: Cand, b: Cand, bin: i64)
    requires
        bin >= 1,
    ensures
        key_of(a, bin) == key_of(b, bin) <==> same_cell(a, b, bin),
{
    lemma_div_in_range(a.x, bin);
    lemma_div_in_range(a.y, bin);
    lemma_div_in_range(b.x, bin);
    lemma_div_in_range(b.y, bin);
}

/// A candidate in a grid cell that no earlier candidate lies in takes a bin
/// of its own and is kept: the bins grow by one and `c` holds the new one.
pub proof fn law_new_cell_takes_own_bin(cands: Seq<Cand>, c: Cand, bin: i64)
    requires
        bin >= 1,
        forall|j: int| 0 <= j < cands.len() ==> !same_cell(#[trigger] cands[j], c, bin),
    ensures
        binned(cands.push(c), bin).len() == binned(cands, bin).len() + 1,
        holders(binned(cands.push(c), bin)).contains(c),
{
    law_each_bin_holds_its_best(cands, bin);
    let b = binned(cands, bin);
    assert(cands.push(c).drop_last() =~= cands);
    assert forall|p: int| 0 <= p < b.len() implies (#[trigger] b[p]).0 != key_of(c, bin) by {
        let j = choose|j: int|
            0 <= j < cands.len() && #[trigger] cands[j] == (#[trigger] b[p]).1 && key_of(cands[j], bin) == b[p].0;
        lemma_key_is_cell(cands[j], c, bin);
    }
    let b1 = binned(cands.push(c), bin);
    assert(b1 == b.push((key_of(c, bin), c)));
    assert(holders(b1)[b.len() as int] == c);
}

/// Candidates in one grid cell share one bin: a candidate in the cell of
/// an earlier one takes no bin of its own.
pub proof fn law_same_cell_shares_a_bin(cands: Seq<Cand>, c: Cand, bin: i64, j: int)
    requires
        bin >= 1,
        0 <= j < cands.len(),
        same_cell(cands[j], c, bin),
    ensures
        binned(cands.push(c), bin).len() == binned(cands, bin).len(),
{
    let b = binned(cands, bin);
    assert(exists|i: int| 0 <= i < b.len() && (#[trigger] b[i]).0 == key_of(cands[j], bin)) by {
        law_each_bin_holds_its_best(cands, bin);
        assert(best_held(b, cands, bin));
        let cj = cands[j];
        assert(exists|i: int|
            0 <= i < b.len() && (#[trigger] b[i]).0 == key_of(cj, bin) && !prio_lt(prio_of(cj), prio_of(b[i].1)));
    }
    lemma_key_is_cell(cands[j], c, bin);
    assert(cands.push(c).drop_last() =~= cands);
    assert(binned(cands.push(c), bin) == bin_step(b, c, bin));
}

} // verus!
