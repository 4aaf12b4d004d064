//! Guest projection of a layer catalogue: real planes are filtered to the
//! guest's scope before grouping, counting and paging, and a visibility change
//! only ever names planes the scope allows.
use crate::layer_catalog::{
    catalog_wf, closed_contains, draws, fold_view, insert_sorted, layers_sorted, pair_equal,
    pair_le, pair_less, pair_lt, pairs_strictly_sorted, rows_view, search_sorted, selects, Closed,
    ClosedView, Fold, LayerCatalog, Pair, RowView, PAGE, SELECTION_LIMIT,
};
use vstd::prelude::*;

verus! {

/// A layer selection: every plane, no plane, or the listed ones.
#[derive(Debug)]
pub enum Layers {
    All,
    Empty,
    Only(Vec<Pair>),
}

/// A request to show or hide one plane, or every plane of a group.
#[derive(Clone, Copy, Debug)]
pub struct Visibility {
    pub pair: Pair,
    pub group: bool,
    pub visible: bool,
}

/// A group of the projection: its span of projected rows and the planes it
/// targets.
#[derive(Debug)]
pub struct Group {
    pub start: usize,
    pub end: usize,
    pub targets: Vec<Pair>,
}

pub struct GroupView {
    pub start: nat,
    pub end: nat,
    pub targets: Seq<Pair>,
}

impl View for Group {
    type V = GroupView;

    open spec fn view(&self) -> GroupView {
        GroupView { start: self.start as nat, end: self.end as nat, targets: self.targets@ }
    }
}

/// The planes a scope allows, given every plane that exists.
pub open spec fn allowed_set(scope: Layers, all: Set<Pair>) -> Set<Pair> {
    match scope {
        Layers::All => all,
        Layers::Empty => Set::empty(),
        Layers::Only(ps) => ps@.to_set().intersect(all),
    }
}

/// The member planes of a synthetic head: the first listing for its pair.
pub open spec fn member_list(members: Seq<(Pair, Vec<Pair>)>, p: Pair) -> Seq<Pair>
    decreases members.len(),
{
    if members.len() == 0 {
        Seq::empty()
    } else if members[0].0 == p {
        members[0].1@
    } else {
        member_list(members.drop_first(), p)
    }
}

/// The allowed members of a head, in listing order.
pub open spec fn head_targets(members: Seq<(Pair, Vec<Pair>)>, p: Pair, allowed: Set<Pair>) -> Seq<
    Pair,
> {
    member_list(members, p).filter(|q: Pair| allowed.contains(q))
}

/// A row is projected when it is a head with an allowed member, or an allowed
/// plane.
pub open spec fn row_kept(r: RowView, members: Seq<(Pair, Vec<Pair>)>, allowed: Set<Pair>) -> bool {
    if r.head {
        head_targets(members, r.pair, allowed).len() > 0
    } else {
        allowed.contains(r.pair)
    }
}

/// The projected rows among the first `n`, in catalogue order.
pub open spec fn kept_indices(
    rows: Seq<RowView>,
    members: Seq<(Pair, Vec<Pair>)>,
    allowed: Set<Pair>,
    n: int,
) -> Seq<usize>
    decreases n,
{
    if n <= 0 {
        Seq::empty()
    } else {
        let prev = kept_indices(rows, members, allowed, n - 1);
        if row_kept(rows[n - 1], members, allowed) {
            prev.push((n - 1) as usize)
        } else {
            prev
        }
    }
}

/// The groups of the projected heads among the first `n` rows, each spanning
/// only its own row.
pub open spec fn head_groups(
    rows: Seq<RowView>,
    members: Seq<(Pair, Vec<Pair>)>,
    allowed: Set<Pair>,
    n: int,
) -> Map<Pair, GroupView>
    decreases n,
{
    if n <= 0 {
        Map::empty()
    } else {
        let g = head_groups(rows, members, allowed, n - 1);
        let r = rows[n - 1];
        if r.head && head_targets(members, r.pair, allowed).len() > 0 {
            let s = kept_indices(rows, members, allowed, n - 1).len();
            g.insert(
                r.pair,
                GroupView { start: s, end: s + 1, targets: head_targets(members, r.pair, allowed) },
            )
        } else {
            g
        }
    }
}

/// A map of groups held as a list with distinct keys.
pub open spec fn gmap(v: Seq<(Pair, Group)>) -> Map<Pair, GroupView>
    decreases v.len(),
{
    if v.len() == 0 {
        Map::empty()
    } else {
        gmap(v.drop_last()).insert(v.last().0, v.last().1@)
    }
}

pub open spec fn keys_distinct(v: Seq<(Pair, Group)>) -> bool {
    forall|i: int, j: int| 0 <= i < j < v.len() ==> (#[trigger] v[i]).0 != (#[trigger] v[j]).0
}

proof fn lemma_gmap(v: Seq<(Pair, Group)>)
    requires
        keys_distinct(v),
    ensures
        forall|p: Pair| #[trigger] gmap(v).contains_key(p) <==> exists|k: int| 0 <= k < v.len() && (#[trigger] v[k]).0 == p,
        forall|k: int| 0 <= k < v.len() ==> gmap(v)[(#[trigger] v[k]).0] == v[k].1@,
    decreases v.len(),
{
    if v.len() > 0 {
        let w = v.drop_last();
        assert(keys_distinct(w));
        lemma_gmap(w);
        assert forall|p: Pair| #[trigger] gmap(v).contains_key(p) implies exists|k: int|
            0 <= k < v.len() && (#[trigger] v[k]).0 == p by {
            if p != v.last().0 {
                assert(gmap(w).contains_key(p));
                let k = choose|k: int| 0 <= k < w.len() && (#[trigger] w[k]).0 == p;
                assert(v[k] == w[k]);
            } else {
                assert(v[v.len() - 1].0 == p);
            }
        }
        assert forall|p: Pair| (exists|k: int| 0 <= k < v.len() && (#[trigger] v[k]).0 == p) implies #[trigger] gmap(
            v,
        ).contains_key(p) by {
            let k = choose|k: int| 0 <= k < v.len() && (#[trigger] v[k]).0 == p;
            if k < v.len() - 1 {
                assert(w[k] == v[k]);
            }
        }
        assert forall|k: int| 0 <= k < v.len() implies gmap(v)[(#[trigger] v[k]).0] == v[k].1@ by {
            if k < v.len() - 1 {
                assert(w[k] == v[k]);
                assert(v[k].0 != v[v.len() - 1].0);
            }
        }
    }
}

/// Where `p` is held in a list of groups, if anywhere.
fn find_group(v: &Vec<(Pair, Group)>, p: Pair) -> (r: Option<usize>)
    requires
        keys_distinct(v@),
    ensures
        match r {
            Some(k) => k < v@.len() && v@[k as int].0 == p,
            None => !gmap(v@).contains_key(p),
        },
        r is Some <==> gmap(v@).contains_key(p),
{
    proof {
        lemma_gmap(v@);
    }
    let mut k: usize = 0;
    while k < v.len()
        invariant
            k <= v@.len(),
            keys_distinct(v@),
            forall|q: int| 0 <= q < k ==> (#[trigger] v@[q]).0 != p,
        decreases v@.len() - k,
    {
        if pair_equal(v[k].0, p) {
            proof {
                lemma_gmap(v@);
                assert(v@[k as int].0 == p);
            }
            return Some(k);
        }
        k = k + 1;
    }
    None
}

/// The strictly sorted set of pairs in `v`.
fn pair_set(v: &Vec<Pair>) -> (r: Vec<Pair>)
    ensures
        pairs_strictly_sorted(r@),
        r@.to_set() == v@.to_set(),
{
    let mut out: Vec<Pair> = Vec::new();
    let mut i: usize = 0;
    while i < v.len()
        invariant
            i <= v@.len(),
            pairs_strictly_sorted(out@),
            forall|x: Pair| #[trigger] out@.contains(x) <==> v@.take(i as int).contains(x),
        decreases v@.len() - i,
    {
        insert_sorted(&mut out, v[i]);
        proof {
            assert forall|x: Pair| #[trigger] out@.contains(x) <==> v@.take(i + 1).contains(x) by {
                if v@.take(i + 1).contains(x) {
                    let k = choose|k: int| 0 <= k < i + 1 && #[trigger] v@.take(i + 1)[k] == x;
                    if k < i {
                        assert(v@.take(i as int)[k] == x);
                    }
                }
                if v@.take(i as int).contains(x) {
                    let k = choose|k: int| 0 <= k < i && #[trigger] v@.take(i as int)[k] == x;
                    assert(v@.take(i + 1)[k] == x);
                }
                if x == v@[i as int] {
                    assert(v@.take(i + 1)[i as int] == x);
                }
            }
        }
        i = i + 1;
    }
    assert(v@.take(v@.len() as int) =~= v@);
    assert(out@.to_set() =~= v@.to_set());
    out
}

/// The members of `v` that `keep` holds, in order.
fn retain_in(v: &Vec<Pair>, keep: &Vec<Pair>) -> (r: Vec<Pair>)
    requires
        pairs_strictly_sorted(keep@),
    ensures
        r@ == v@.filter(|q: Pair| keep@.to_set().contains(q)),
        pairs_strictly_sorted(v@) ==> pairs_strictly_sorted(r@),
{
    let ghost f = |q: Pair| keep@.to_set().contains(q);
    let mut out: Vec<Pair> = Vec::new();
    let mut i: usize = 0;
    while i < v.len()
        invariant
            i <= v@.len(),
            pairs_strictly_sorted(keep@),
            f == (|q: Pair| keep@.to_set().contains(q)),
            out@ == v@.take(i as int).filter(f),
            pairs_strictly_sorted(v@) ==> pairs_strictly_sorted(out@),
            out@.len() > 0 ==> exists|j: int| 0 <= j < i && #[trigger] v@[j] == out@.last(),
        decreases v@.len() - i,
    {
        let (_, found) = search_sorted(keep, v[i]);
        proof {
            assert(v@.take(i + 1).drop_last() =~= v@.take(i as int));
            assert(v@.take(i + 1).last() == v@[i as int]);
            assert(keep@.to_set().contains(v@[i as int]) == keep@.contains(v@[i as int]));
            assert(f(v@[i as int]) == found);
        }
        let ghost before = out@;
        if found {
            proof {
                if pairs_strictly_sorted(v@) && before.len() > 0 {
                    let j = choose|j: int| 0 <= j < i && #[trigger] v@[j] == before.last();
                    assert(pair_lt(v@[j], v@[i as int]));
                    assert forall|a: int, b: int| 0 <= a < b < before.len() + 1 implies pair_lt(
                        #[trigger] before.push(v@[i as int])[a],
                        #[trigger] before.push(v@[i as int])[b],
                    ) by {
                        if b == before.len() && a < before.len() - 1 {
                            assert(pair_lt(before[a], before[before.len() - 1]));
                        }
                    }
                }
            }
            out.push(v[i]);
            assert(v@[i as int] == out@.last());
        }
        proof {
            let t = v@.take(i + 1);
            reveal(Seq::filter);
            assert(t.filter(f) == (if f(t.last()) {
                t.drop_last().filter(f).push(t.last())
            } else {
                t.drop_last().filter(f)
            }));
            assert(out@ =~= t.filter(f));
            if !found && out@.len() > 0 {
                let j = choose|j: int| 0 <= j < i && #[trigger] v@[j] == out@.last();
                assert(0 <= j < i + 1);
            }
        }
        i = i + 1;
    }
    assert(v@.take(v@.len() as int) =~= v@);
    out
}

/// The planes that a scope allows, as a strictly sorted list.
fn allowed_pairs(scope: &Layers, all: &Vec<Pair>) -> (r: Vec<Pair>)
    requires
        pairs_strictly_sorted(all@),
    ensures
        pairs_strictly_sorted(r@),
        r@.to_set() == allowed_set(*scope, all@.to_set()),
{
    match scope {
        Layers::All => pair_set(all),
        Layers::Empty => {
            let out: Vec<Pair> = Vec::new();
            assert(out@.to_set() =~= Set::<Pair>::empty());
            out
        },
        Layers::Only(ps) => {
            let listed = pair_set(ps);
            let out = retain_in(&listed, all);
            proof {
                let f = |q: Pair| all@.to_set().contains(q);
                listed@.filter_lemma(f);
                assert forall|q: Pair| out@.to_set().contains(q) <==> ps@.to_set().intersect(
                    all@.to_set(),
                ).contains(q) by {
                    if out@.contains(q) {
                        listed@.lemma_filter_contains_rev(f, q);
                    }
                    if listed@.contains(q) && f(q) {
                        let k = choose|k: int| 0 <= k < listed@.len() && listed@[k] == q;
                        assert(listed@.filter(f).contains(listed@[k]));
                    }
                }
                assert(out@.to_set() =~= ps@.to_set().intersect(all@.to_set()));
            }
            out
        },
    }
}

/// Where the run of projected rows on `layer` that reaches position `s`
/// ends.
pub open spec fn run_end_in(rows: Seq<RowView>, ind: Seq<usize>, s: int, layer: u32) -> int
    decreases ind.len() - s,
{
    if 0 <= s < ind.len() && rows[ind[s] as int].pair.0 == layer {
        run_end_in(rows, ind, s + 1, layer)
    } else {
        s
    }
}

/// The pairs of projected rows `s..e`.
pub open spec fn run_pairs(rows: Seq<RowView>, ind: Seq<usize>, s: int, e: int) -> Seq<Pair> {
    ind.subrange(s, e).map_values(|i: usize| rows[i as int].pair)
}

/// The groups after the runs from position `s` on: a run whose first pair
/// keys a group extends that group to the run's end; otherwise a physical
/// run of more than one row becomes a group of its own planes.
pub open spec fn with_runs(
    rows: Seq<RowView>,
    ind: Seq<usize>,
    physical: bool,
    s: int,
    g: Map<Pair, GroupView>,
) -> Map<Pair, GroupView>
    decreases ind.len() - s,
{
    if s < 0 || s >= ind.len() {
        g
    } else {
        let p = rows[ind[s] as int].pair;
        let e = run_end_in(rows, ind, s + 1, p.0);
        let g2 = if g.contains_key(p) {
            g.insert(p, GroupView { end: e as nat, ..g[p] })
        } else if physical && e > s + 1 {
            g.insert(p, GroupView { start: s as nat, end: e as nat, targets: run_pairs(rows, ind, s, e) })
        } else {
            g
        };
        if s < e <= ind.len() {
            with_runs(rows, ind, physical, e, g2)
        } else {
            g2
        }
    }
}

proof fn lemma_run_end_in(rows: Seq<RowView>, ind: Seq<usize>, s: int, layer: u32)
    requires
        0 <= s <= ind.len(),
    ensures
        s <= run_end_in(rows, ind, s, layer) <= ind.len(),
        forall|k: int| s <= k < run_end_in(rows, ind, s, layer) ==> rows[ind[k] as int].pair.0 == layer,
        run_end_in(rows, ind, s, layer) < ind.len() ==> rows[ind[run_end_in(rows, ind, s, layer)] as int].pair.0
            != layer,
    decreases ind.len() - s,
{
    if s < ind.len() && rows[ind[s] as int].pair.0 == layer {
        lemma_run_end_in(rows, ind, s + 1, layer);
    }
}

proof fn lemma_gmap_update(v: Seq<(Pair, Group)>, k: int, g: Group)
    requires
        keys_distinct(v),
        0 <= k < v.len(),
    ensures
        keys_distinct(v.update(k, (v[k].0, g))),
        gmap(v.update(k, (v[k].0, g))) == gmap(v).insert(v[k].0, g@),
{
    let w = v.update(k, (v[k].0, g));
    assert forall|i: int, j: int| 0 <= i < j < w.len() implies (#[trigger] w[i]).0 != (#[trigger] w[j]).0 by {
        assert(v[i].0 != v[j].0);
    }
    lemma_gmap(v);
    lemma_gmap(w);
    let m = gmap(v).insert(v[k].0, g@);
    assert forall|p: Pair| #[trigger] gmap(w).contains_key(p) <==> m.contains_key(p) by {
        if gmap(w).contains_key(p) {
            let i = choose|i: int| 0 <= i < w.len() && (#[trigger] w[i]).0 == p;
            assert(v[i].0 == p);
        }
        if gmap(v).contains_key(p) {
            let i = choose|i: int| 0 <= i < v.len() && (#[trigger] v[i]).0 == p;
            assert(w[i].0 == p);
        }
        if p == v[k].0 {
            assert(w[k].0 == p);
        }
    }
    assert forall|p: Pair| #[trigger] gmap(w).contains_key(p) implies gmap(w)[p] == m[p] by {
        let i = choose|i: int| 0 <= i < w.len() && (#[trigger] w[i]).0 == p;
        if i != k {
            assert(w[i] == v[i]);
            assert(gmap(v)[v[i].0] == v[i].1@);
        }
    }
    assert(gmap(w) =~= m);
}

proof fn lemma_gmap_push(v: Seq<(Pair, Group)>, p: Pair, g: Group)
    requires
        keys_distinct(v),
        !gmap(v).contains_key(p),
    ensures
        keys_distinct(v.push((p, g))),
        gmap(v.push((p, g))) == gmap(v).insert(p, g@),
{
    lemma_gmap(v);
    let w = v.push((p, g));
    assert forall|i: int, j: int| 0 <= i < j < w.len() implies (#[trigger] w[i]).0 != (#[trigger] w[j]).0 by {
        if j == v.len() {
            assert(w[i] == v[i]);
            if v[i].0 == p {
                assert(gmap(v).contains_key(p));
            }
        } else {
            assert(v[i].0 != v[j].0);
        }
    }
    assert(w.drop_last() =~= v);
}

proof fn lemma_member_list(members: Seq<(Pair, Vec<Pair>)>, p: Pair, k: int)
    requires
        0 <= k <= members.len(),
        forall|q: int| 0 <= q < k ==> (#[trigger] members[q]).0 != p,
        k < members.len() ==> members[k].0 == p,
    ensures
        member_list(members, p) == (if k < members.len() {
            members[k].1@
        } else {
            Seq::empty()
        }),
    decreases k,
{
    if k > 0 {
        let rest = members.drop_first();
        assert forall|q: int| 0 <= q < k - 1 implies (#[trigger] rest[q]).0 != p by {
            assert(rest[q] == members[q + 1]);
        }
        if k < members.len() {
            assert(rest[k - 1] == members[k]);
        }
        lemma_member_list(rest, p, k - 1);
    }
}

/// The listed members of a head.
fn members_of(members: &Vec<(Pair, Vec<Pair>)>, p: Pair) -> (r: Option<&Vec<Pair>>)
    ensures
        match r {
            Some(v) => v@ == member_list(members@, p),
            None => member_list(members@, p) == Seq::<Pair>::empty(),
        },
{
    let mut k: usize = 0;
    while k < members.len()
        invariant
            k <= members@.len(),
            forall|q: int| 0 <= q < k ==> (#[trigger] members@[q]).0 != p,
        decreases members@.len() - k,
    {
        if pair_equal(members[k].0, p) {
            proof {
                lemma_member_list(members@, p, k as int);
            }
            return Some(&members[k].1);
        }
        k = k + 1;
    }
    proof {
        lemma_member_list(members@, p, k as int);
    }
    None
}

/// The projection of a catalogue for one guest scope.
pub struct Projection<'a> {
    catalog: &'a LayerCatalog,
    indices: Vec<usize>,
    groups: Vec<(Pair, Group)>,
    allowed: Vec<Pair>,
    all: Vec<Pair>,
}

pub open spec fn indices_increasing(ind: Seq<usize>) -> bool {
    forall|i: int, j: int| 0 <= i < j < ind.len() ==> #[trigger] ind[i] < #[trigger] ind[j]
}

impl<'a> Projection<'a> {
    pub closed spec fn rows_view(&self) -> Seq<RowView> {
        self.catalog@.rows
    }

    pub closed spec fn physical_view(&self) -> bool {
        self.catalog@.physical
    }

    /// The projected rows, as catalogue positions in order.
    pub closed spec fn indices_view(&self) -> Seq<usize> {
        self.indices@
    }

    pub closed spec fn groups_view(&self) -> Map<Pair, GroupView> {
        gmap(self.groups@)
    }

    /// Every plane that exists.
    pub closed spec fn all_view(&self) -> Set<Pair> {
        self.all@.to_set()
    }

    /// The planes the scope allows.
    pub closed spec fn allowed_view(&self) -> Set<Pair> {
        self.allowed@.to_set()
    }

    #[verifier::type_invariant]
    closed spec fn inv(self) -> bool {
        &&& catalog_wf(self.catalog@)
        &&& keys_distinct(self.groups@)
        &&& pairs_strictly_sorted(self.allowed@)
        &&& pairs_strictly_sorted(self.all@)
        &&& self.allowed@.to_set().subset_of(self.all@.to_set())
        &&& indices_increasing(self.indices@)
        &&& forall|k: int| 0 <= k < self.indices@.len() ==> #[trigger] self.indices@[k] < self.catalog@.rows.len()
    }

    /// Projects `catalog` for `scope`. `actual` lists the planes that exist
    /// and `members` the member planes of each synthetic head.
    pub fn new(
        catalog: &'a LayerCatalog,
        scope: &Layers,
        actual: &Vec<Pair>,
        members: &Vec<(Pair, Vec<Pair>)>,
    ) -> (p: Projection<'a>)
        ensures
            p.rows_view() == catalog@.rows,
            p.physical_view() == catalog@.physical,
            p.all_view() == actual@.to_set(),
            p.allowed_view() == allowed_set(*scope, actual@.to_set()),
            p.indices_view() == kept_indices(
                catalog@.rows,
                members@,
                allowed_set(*scope, actual@.to_set()),
                catalog@.rows.len() as int,
            ),
            p.groups_view() == with_runs(
                catalog@.rows,
                p.indices_view(),
                catalog@.physical,
                0,
                head_groups(
                    catalog@.rows,
                    members@,
                    allowed_set(*scope, actual@.to_set()),
                    catalog@.rows.len() as int,
                ),
            ),
    {
        let rows = catalog.rows();
        let ghost rv = catalog@.rows;
        let all = pair_set(actual);
        let allowed = allowed_pairs(scope, &all);
        let ghost aset = allowed_set(*scope, actual@.to_set());
        let mut indices: Vec<usize> = Vec::new();
        let mut groups: Vec<(Pair, Group)> = Vec::new();
        let mut i: usize = 0;
        while i < rows.len()
            invariant
                i <= rows@.len(),
                rv == rows_view(rows@),
                rv.len() == rows@.len(),
                pairs_strictly_sorted(allowed@),
                allowed@.to_set() == aset,
                indices@ == kept_indices(rv, members@, aset, i as int),
                keys_distinct(groups@),
                gmap(groups@) == head_groups(rv, members@, aset, i as int),
                forall|k: int| 0 <= k < indices@.len() ==> #[trigger] indices@[k] < i,
                indices@.len() <= i,
                indices_increasing(indices@),
            decreases rows@.len() - i,
        {
            let r = &rows[i];
            assert(r@ == rv[i as int]);
            if r.head {
                let listed: Vec<Pair> = match members_of(members, r.pair) {
                    Some(v) => retain_in(v, &allowed),
                    None => Vec::new(),
                };
                assert(listed@ == head_targets(members@, r.pair, aset));
                if listed.len() == 0 {
                    i = i + 1;
                    continue;
                }
                let g = Group { start: indices.len(), end: indices.len() + 1, targets: listed };
                match find_group(&groups, r.pair) {
                    Some(k) => {
                        proof {
                            lemma_gmap_update(groups@, k as int, g);
                        }
                        groups.set(k, (r.pair, g));
                    },
                    None => {
                        proof {
                            lemma_gmap_push(groups@, r.pair, g);
                        }
                        groups.push((r.pair, g));
                    },
                }
            } else {
                let (_, found) = search_sorted(&allowed, r.pair);
                if !found {
                    i = i + 1;
                    continue;
                }
            }
            indices.push(i);
            i = i + 1;
        }
        let ghost g0 = gmap(groups@);
        let physical = catalog.physical();
        let ghost ind = indices@;
        let mut start: usize = 0;
        while start < indices.len()
            invariant
                start <= indices@.len(),
                ind == indices@,
                rv == rows_view(rows@),
                rv.len() == rows@.len(),
                physical == catalog@.physical,
                forall|k: int| 0 <= k < indices@.len() ==> #[trigger] indices@[k] < rows@.len(),
                keys_distinct(groups@),
                with_runs(rv, ind, physical, start as int, gmap(groups@)) == with_runs(
                    rv,
                    ind,
                    physical,
                    0,
                    g0,
                ),
            decreases indices@.len() - start,
        {
            let pair = rows[indices[start]].pair;
            assert(pair == rv[ind[start as int] as int].pair);
            let mut end: usize = start + 1;
            while end < indices.len() && rows[indices[end]].pair.0 == pair.0
                invariant
                    start < end <= indices@.len(),
                    ind == indices@,
                    rv == rows_view(rows@),
                    forall|k: int| 0 <= k < indices@.len() ==> #[trigger] indices@[k] < rows@.len(),
                    run_end_in(rv, ind, end as int, pair.0) == run_end_in(rv, ind, start + 1, pair.0),
                decreases indices@.len() - end,
            {
                assert(rows@[indices@[end as int] as int]@ == rv[ind[end as int] as int]);
                end = end + 1;
            }
            proof {
                if end < indices@.len() {
                    assert(rows@[indices@[end as int] as int]@ == rv[ind[end as int] as int]);
                }
                assert(run_end_in(rv, ind, end as int, pair.0) == end);
            }
            let ghost before = gmap(groups@);
            match find_group(&groups, pair) {
                Some(k) => {
                    let old_start = groups[k].1.start;
                    let targets = clone_pairs(&groups[k].1.targets);
                    let g = Group { start: old_start, end, targets };
                    proof {
                        lemma_gmap(groups@);
                        lemma_gmap_update(groups@, k as int, g);
                        assert(g@ == (GroupView { end: end as nat, ..before[pair] }));
                    }
                    groups.set(k, (pair, g));
                },
                None => {
                    if physical && end > start + 1 {
                        let mut targets: Vec<Pair> = Vec::new();
                        let mut q: usize = start;
                        while q < end
                            invariant
                                start <= q <= end <= indices@.len(),
                                ind == indices@,
                                rv == rows_view(rows@),
                                forall|k: int| 0 <= k < indices@.len() ==> #[trigger] indices@[k] < rows@.len(),
                                targets@ == run_pairs(rv, ind, start as int, q as int),
                            decreases end - q,
                        {
                            assert(rows@[indices@[q as int] as int]@ == rv[ind[q as int] as int]);
                            targets.push(rows[indices[q]].pair);
                            assert(run_pairs(rv, ind, start as int, q + 1) =~= run_pairs(
                                rv,
                                ind,
                                start as int,
                                q as int,
                            ).push(rv[ind[q as int] as int].pair));
                            q = q + 1;
                        }
                        let g = Group { start, end, targets };
                        proof {
                            lemma_gmap_push(groups@, pair, g);
                        }
                        groups.push((pair, g));
                    }
                },
            }
            start = end;
        }
        Projection { catalog, indices, groups, allowed, all }
    }
}

fn clone_pairs(v: &Vec<Pair>) -> (r: Vec<Pair>)
    ensures
        r@ == v@,
{
    let mut out: Vec<Pair> = Vec::new();
    let mut i: usize = 0;
    while i < v.len()
        invariant
            i <= v@.len(),
            out@ == v@.take(i as int),
        decreases v@.len() - i,
    {
        out.push(v[i]);
        assert(v@.take(i + 1) =~= v@.take(i as int).push(v@[i as int]));
        i = i + 1;
    }
    assert(v@.take(v@.len() as int) =~= v@);
    out
}

/// The first of `ind`'s rows whose pair is `pair`.
pub open spec fn first_with(rows: Seq<RowView>, ind: Seq<usize>, pair: Pair) -> Option<int> {
    if exists|k: int| 0 <= k < ind.len() && #[trigger] rows[ind[k] as int].pair == pair {
        Some(
            choose|k: int|
                0 <= k < ind.len() && #[trigger] rows[ind[k] as int].pair == pair && forall|m: int|
                    0 <= m < k ==> #[trigger] rows[ind[m] as int].pair != pair,
        )
    } else {
        None
    }
}

/// The planes a visibility change names: those of the group keyed by `pair`
/// where a group is asked for or `pair`'s row is a synthetic head, else
/// `pair` alone; refused where no projected row has that pair.
pub open spec fn targets_of(
    rows: Seq<RowView>,
    ind: Seq<usize>,
    groups: Map<Pair, GroupView>,
    pair: Pair,
    group: bool,
) -> Option<Seq<Pair>> {
    match first_with(rows, ind, pair) {
        None => None,
        Some(k) => if group || rows[ind[k] as int].head {
            if groups.contains_key(pair) {
                Some(groups[pair].targets)
            } else {
                None
            }
        } else {
            Some(seq![pair])
        },
    }
}

/// The planes a selection shows.
pub open spec fn selected_set(selected: Layers, all: Set<Pair>) -> Set<Pair> {
    match selected {
        Layers::All => all,
        Layers::Empty => Set::empty(),
        Layers::Only(ps) => ps@.to_set(),
    }
}

/// The selection after a change, as the sets of planes it shows.
pub open spec fn changed(s0: Set<Pair>, t: Seq<Pair>, visible: bool) -> Set<Pair> {
    if visible {
        s0.union(t.to_set())
    } else {
        s0.difference(t.to_set())
    }
}

proof fn lemma_sorted_no_dup(v: Seq<Pair>)
    requires
        pairs_strictly_sorted(v),
    ensures
        v.no_duplicates(),
        v.to_set().len() == v.len(),
{
    assert forall|i: int, j: int| 0 <= i < v.len() && 0 <= j < v.len() && i != j implies v[i] != v[j] by {
        if i < j {
            assert(pair_lt(v[i], v[j]));
        } else {
            assert(pair_lt(v[j], v[i]));
        }
    }
    v.unique_seq_to_set();
}

/// Two strictly sorted lists of the same planes are the same list.
proof fn lemma_sorted_set_unique(a: Seq<Pair>, b: Seq<Pair>)
    requires
        pairs_strictly_sorted(a),
        pairs_strictly_sorted(b),
        a.to_set() == b.to_set(),
    ensures
        a == b,
    decreases a.len(),
{
    lemma_sorted_no_dup(a);
    lemma_sorted_no_dup(b);
    if a.len() > 0 && b.len() > 0 {
        assert(a.to_set().contains(a[0]));
        assert(b.to_set().contains(b[0]));
        assert(b.contains(a[0]));
        assert(a.contains(b[0]));
        let i = choose|i: int| 0 <= i < b.len() && b[i] == a[0];
        let j = choose|j: int| 0 <= j < a.len() && a[j] == b[0];
        if i > 0 {
            assert(pair_lt(b[0], b[i]));
            if j > 0 {
                assert(pair_lt(a[0], a[j]));
            }
        }
        assert(a[0] == b[0]);
        let a1 = a.drop_first();
        let b1 = b.drop_first();
        assert forall|q: Pair| a1.to_set().contains(q) <==> b1.to_set().contains(q) by {
            if a1.contains(q) {
                let k = choose|k: int| 0 <= k < a1.len() && a1[k] == q;
                assert(pair_lt(a[0], a[k + 1]));
                assert(a.to_set().contains(q));
                assert(b.to_set().contains(q));
                assert(b.contains(q));
                let m = choose|m: int| 0 <= m < b.len() && b[m] == q;
                assert(m != 0);
                assert(b1[m - 1] == q);
            }
            if b1.contains(q) {
                let k = choose|k: int| 0 <= k < b1.len() && b1[k] == q;
                assert(pair_lt(b[0], b[k + 1]));
                assert(b.to_set().contains(q));
                assert(a.to_set().contains(q));
                assert(a.contains(q));
                let m = choose|m: int| 0 <= m < a.len() && a[m] == q;
                assert(m != 0);
                assert(a1[m - 1] == q);
            }
        }
        assert(a1.to_set() =~= b1.to_set());
        lemma_sorted_set_unique(a1, b1);
        assert(a =~= seq![a[0]] + a1);
        assert(b =~= seq![b[0]] + b1);
    } else if a.len() > 0 {
        assert(a.to_set().contains(a[0]));
    } else if b.len() > 0 {
        assert(b.to_set().contains(b[0]));
    }
}

fn same_pairs(a: &Vec<Pair>, b: &Vec<Pair>) -> (r: bool)
    ensures
        r == (a@ == b@),
{
    if a.len() != b.len() {
        return false;
    }
    let mut i: usize = 0;
    while i < a.len()
        invariant
            i <= a@.len() == b@.len(),
            forall|k: int| 0 <= k < i ==> a@[k] == b@[k],
        decreases a@.len() - i,
    {
        if !pair_equal(a[i], b[i]) {
            return false;
        }
        i = i + 1;
    }
    assert(a@ =~= b@);
    true
}

/// Removes `pair` from a strictly sorted list if it is there.
fn remove_sorted(v: &mut Vec<Pair>, pair: Pair)
    requires
        pairs_strictly_sorted(old(v)@),
    ensures
        pairs_strictly_sorted(final(v)@),
        final(v)@.to_set() == old(v)@.to_set().remove(pair),
{
    let (pos, found) = search_sorted(v, pair);
    if !found {
        assert(v@.to_set() =~= v@.to_set().remove(pair));
        return;
    }
    let ghost before = v@;
    v.remove(pos);
    proof {
        let after = v@;
        assert(after == before.remove(pos as int));
        assert forall|i: int, j: int| 0 <= i < j < after.len() implies pair_lt(
            #[trigger] after[i],
            #[trigger] after[j],
        ) by {
            let ii = if i < pos {
                i
            } else {
                i + 1
            };
            let jj = if j < pos {
                j
            } else {
                j + 1
            };
            assert(after[i] == before[ii] && after[j] == before[jj]);
        }
        assert forall|q: Pair| after.to_set().contains(q) <==> before.to_set().remove(pair).contains(q) by {
            if after.contains(q) {
                let i = choose|i: int| 0 <= i < after.len() && after[i] == q;
                let ii = if i < pos {
                    i
                } else {
                    i + 1
                };
                assert(before[ii] == q);
                assert(ii != pos);
                if q == pair {
                    if ii < pos {
                        assert(pair_lt(before[ii], before[pos as int]));
                    } else {
                        assert(pair_lt(before[pos as int], before[ii]));
                    }
                }
            }
            if before.contains(q) && q != pair {
                let i = choose|i: int| 0 <= i < before.len() && before[i] == q;
                assert(i != pos);
                if i < pos {
                    assert(after[i] == q);
                } else {
                    assert(after[i - 1] == q);
                }
            }
        }
        assert(after.to_set() =~= before.to_set().remove(pair));
    }
}

impl<'a> Projection<'a> {
    /// The projected rows.
    pub fn indices(&self) -> (r: &Vec<usize>)
        ensures
            r@ == self.indices_view(),
    {
        &self.indices
    }

    /// The group keyed by `pair`.
    pub fn group(&self, pair: Pair) -> (r: Option<&Group>)
        ensures
            match r {
                Some(g) => self.groups_view().contains_key(pair) && g@ == self.groups_view()[pair],
                None => !self.groups_view().contains_key(pair),
            },
    {
        proof {
            use_type_invariant(self);
            lemma_gmap(self.groups@);
        }
        match find_group(&self.groups, pair) {
            Some(k) => Some(&self.groups[k].1),
            None => None,
        }
    }

    /// The planes that a visibility change of `pair` names.
    pub fn targets(&self, pair: Pair, group: bool) -> (r: Result<Vec<Pair>, &'static str>)
        ensures
            match targets_of(self.rows_view(), self.indices_view(), self.groups_view(), pair, group) {
                Some(t) => r matches Ok(v) && v@ == t,
                None => r == Err::<Vec<Pair>, &'static str>("forbidden"),
            },
    {
        proof {
            use_type_invariant(self);
        }
        match self.first_row(pair) {
            None => Err("forbidden"),
            Some((k, head)) => {
                if head || group {
                    match self.group(pair) {
                        Some(g) => Ok(clone_pairs(&g.targets)),
                        None => Err("forbidden"),
                    }
                } else {
                    let mut v: Vec<Pair> = Vec::new();
                    v.push(pair);
                    assert(v@ =~= seq![pair]);
                    Ok(v)
                }
            },
        }
    }

    /// The first projected row with `pair`, and whether it is a head.
    fn first_row(&self, pair: Pair) -> (r: Option<(usize, bool)>)
        ensures
            match first_with(self.rows_view(), self.indices_view(), pair) {
                Some(k) => r == Some((k as usize, self.rows_view()[self.indices_view()[k] as int].head)),
                None => r is None,
            },
    {
        proof {
            use_type_invariant(self);
        }
        let rows = self.catalog.rows();
        let ghost rv = self.catalog@.rows;
        let ghost ind = self.indices@;
        let mut k: usize = 0;
        while k < self.indices.len()
            invariant
                k <= ind.len(),
                ind == self.indices@,
                rv == rows_view(rows@),
                rv == self.rows_view(),
                ind == self.indices_view(),
                forall|q: int| 0 <= q < ind.len() ==> #[trigger] ind[q] < rv.len(),
                forall|m: int| 0 <= m < k ==> #[trigger] rv[ind[m] as int].pair != pair,
            decreases ind.len() - k,
        {
            let i = self.indices[k];
            assert(rows@[i as int]@ == rv[i as int]);
            if pair_equal(rows[i].pair, pair) {
                proof {
                    assert(rv[ind[k as int] as int].pair == pair);
                    let f = first_with(rv, ind, pair);
                    assert(f is Some);
                    let q = f->0;
                    assert(q == k) by {
                        if q < k {
                            assert(rv[ind[q] as int].pair != pair);
                        } else if q > k {
                            assert(rv[ind[k as int] as int].pair != pair);
                        }
                    }
                }
                proof {
                    assert(rows@[i as int].head == rv[ind[k as int] as int].head);
                    assert(first_with(self.rows_view(), self.indices_view(), pair) == Some(k as int));
                }
                return Some((k, rows[i].head));
            }
            k = k + 1;
        }
        None
    }

    /// The selection after showing or hiding the planes that `change`
    /// names. The current selection must lie within the scope.
    pub fn change(&self, selected: &Layers, change: Visibility) -> (r: Result<Layers, &'static str>)
        ensures
            ({
                let s0 = selected_set(*selected, self.all_view());
                if !s0.subset_of(self.allowed_view()) {
                    r == Err::<Layers, &'static str>("forbidden")
                } else {
                    match targets_of(
                        self.rows_view(),
                        self.indices_view(),
                        self.groups_view(),
                        change.pair,
                        change.group,
                    ) {
                        None => r == Err::<Layers, &'static str>("forbidden"),
                        Some(t) => {
                            let s1 = changed(s0, t, change.visible);
                            if s1.len() == 0 {
                                r matches Ok(Layers::Empty)
                            } else if s1 == self.all_view() && self.allowed_view() == self.all_view() {
                                r matches Ok(Layers::All)
                            } else if s1.len() <= SELECTION_LIMIT {
                                r matches Ok(Layers::Only(v)) && pairs_strictly_sorted(v@) && v@.to_set()
                                    == s1
                            } else {
                                r == Err::<Layers, &'static str>("layer_selection_too_large")
                            }
                        },
                    }
                }
            }),
    {
        proof {
            use_type_invariant(self);
        }
        let ghost s0 = selected_set(*selected, self.all_view());
        let sel = selection_pairs(selected, &self.all);
        if !all_within(&sel, &self.allowed) {
            return Err("forbidden");
        }
        let t = match self.targets(change.pair, change.group) {
            Ok(t) => t,
            Err(e) => return Err(e),
        };
        let sel = apply_targets(sel, &t, change.visible);
        classify(sel, &self.all, &self.allowed)
    }
}

fn selection_pairs(selected: &Layers, all: &Vec<Pair>) -> (r: Vec<Pair>)
    ensures
        pairs_strictly_sorted(r@),
        r@.to_set() == selected_set(*selected, all@.to_set()),
{
    let r = match selected {
        Layers::All => pair_set(all),
        Layers::Empty => Vec::new(),
        Layers::Only(ps) => pair_set(ps),
    };
    assert(r@.to_set() =~= selected_set(*selected, all@.to_set()));
    r
}

fn all_within(sel: &Vec<Pair>, allowed: &Vec<Pair>) -> (r: bool)
    requires
        pairs_strictly_sorted(allowed@),
    ensures
        r == sel@.to_set().subset_of(allowed@.to_set()),
{
    let mut i: usize = 0;
    while i < sel.len()
        invariant
            i <= sel@.len(),
            pairs_strictly_sorted(allowed@),
            forall|k: int| 0 <= k < i ==> allowed@.contains(#[trigger] sel@[k]),
        decreases sel@.len() - i,
    {
        let (_, found) = search_sorted(allowed, sel[i]);
        if !found {
            proof {
                assert(sel@.to_set().contains(sel@[i as int]));
                assert(!allowed@.to_set().contains(sel@[i as int]));
            }
            return false;
        }
        i = i + 1;
    }
    proof {
        assert forall|q: Pair| sel@.to_set().contains(q) implies allowed@.to_set().contains(q) by {
            let k = choose|k: int| 0 <= k < sel@.len() && sel@[k] == q;
            assert(allowed@.contains(sel@[k]));
        }
    }
    true
}

fn apply_targets(sel: Vec<Pair>, t: &Vec<Pair>, visible: bool) -> (r: Vec<Pair>)
    requires
        pairs_strictly_sorted(sel@),
    ensures
        pairs_strictly_sorted(r@),
        r@.to_set() == changed(sel@.to_set(), t@, visible),
{
    let ghost s0 = sel@.to_set();
    let mut sel = sel;
    assert(t@.take(0).to_set() =~= Set::<Pair>::empty());
    assert(sel@.to_set() =~= changed(s0, t@.take(0), visible));
    let mut k: usize = 0;
    while k < t.len()
        invariant
            k <= t@.len(),
            pairs_strictly_sorted(sel@),
            sel@.to_set() == changed(s0, t@.take(k as int), visible),
        decreases t@.len() - k,
    {
        let ghost before = sel@.to_set();
        if visible {
            insert_sorted(&mut sel, t[k]);
            assert(sel@.to_set() =~= before.insert(t@[k as int]));
        } else {
            remove_sorted(&mut sel, t[k]);
        }
        proof {
            assert(t@.take(k + 1) =~= t@.take(k as int).push(t@[k as int]));
            t@.take(k as int).lemma_push_to_set_commute(t@[k as int]);
            assert(sel@.to_set() =~= changed(s0, t@.take(k + 1), visible));
        }
        k = k + 1;
    }
    assert(t@.take(t@.len() as int) =~= t@);
    sel
}

fn classify(sel: Vec<Pair>, all: &Vec<Pair>, allowed: &Vec<Pair>) -> (r: Result<Layers, &'static str>)
    requires
        pairs_strictly_sorted(sel@),
        pairs_strictly_sorted(all@),
        pairs_strictly_sorted(allowed@),
    ensures
        ({
            let s1 = sel@.to_set();
            if s1.len() == 0 {
                r matches Ok(Layers::Empty)
            } else if s1 == all@.to_set() && allowed@.to_set() == all@.to_set() {
                r matches Ok(Layers::All)
            } else if s1.len() <= SELECTION_LIMIT {
                r matches Ok(Layers::Only(v)) && pairs_strictly_sorted(v@) && v@.to_set() == s1
            } else {
                r == Err::<Layers, &'static str>("layer_selection_too_large")
            }
        }),
{
    proof {
        lemma_sorted_no_dup(sel@);
        lemma_sorted_no_dup(all@);
        lemma_sorted_no_dup(allowed@);
    }
    if sel.len() == 0 {
        assert(sel@.to_set() =~= Set::<Pair>::empty());
        return Ok(Layers::Empty);
    }
    let whole = same_pairs(&sel, all) && same_pairs(allowed, all);
    proof {
        if sel@.to_set() == all@.to_set() {
            lemma_sorted_set_unique(sel@, all@);
        }
        if allowed@.to_set() == all@.to_set() {
            lemma_sorted_set_unique(allowed@, all@);
        }
    }
    if whole {
        return Ok(Layers::All);
    }
    if sel.len() <= SELECTION_LIMIT {
        Ok(Layers::Only(sel))
    } else {
        Err("layer_selection_too_large")
    }
}

/// A fold's exceptions are acceptable: few enough, none repeated, each a
/// projected group with children.
pub open spec fn fold_ok(groups: Map<Pair, GroupView>, exceptions: Seq<Pair>) -> bool {
    &&& exceptions.len() <= SELECTION_LIMIT
    &&& exceptions.no_duplicates()
    &&& forall|i: int|
        0 <= i < exceptions.len() ==> #[trigger] groups.contains_key(exceptions[i])
            && groups[exceptions[i]].end > groups[exceptions[i]].start + 1
}

/// The position after `pos` in the visible order: past a folded group's
/// span, or the next row. A group's span that does not reach past `pos` is
/// stepped over one row at a time.
pub open spec fn next_position(
    rows: Seq<RowView>,
    ind: Seq<usize>,
    groups: Map<Pair, GroupView>,
    cl: ClosedView,
    pos: int,
) -> int {
    let pair = rows[ind[pos] as int].pair;
    if groups.contains_key(pair) && closed_contains(cl, pair) && groups[pair].end > pos {
        groups[pair].end as int
    } else {
        pos + 1
    }
}

/// The visible positions from `pos` on.
pub open spec fn visible_from(
    rows: Seq<RowView>,
    ind: Seq<usize>,
    groups: Map<Pair, GroupView>,
    cl: ClosedView,
    pos: int,
) -> Seq<usize>
    decreases ind.len() - pos,
{
    if pos < 0 || pos >= ind.len() {
        Seq::empty()
    } else {
        let nx = next_position(rows, ind, groups, cl, pos);
        if nx < ind.len() {
            seq![pos as usize] + visible_from(rows, ind, groups, cl, nx)
        } else {
            seq![pos as usize]
        }
    }
}

impl<'a> Projection<'a> {
    /// Validates a fold against the projection's groups.
    pub fn closed(&self, fold: Fold) -> (r: Result<Closed, &'static str>)
        ensures
            r is Ok <==> fold_ok(self.groups_view(), fold.exceptions@),
            r is Err ==> r->Err_0 == "invalid_palette",
            r matches Ok(cl) ==> cl@.default == fold.closed && forall|p: Pair|
                #[trigger] cl@.exceptions.contains(p) <==> fold.exceptions@.contains(p),
    {
        if fold.exceptions.len() > SELECTION_LIMIT {
            return Err("invalid_palette");
        }
        let ghost ex = fold.exceptions@;
        let ghost gv = self.groups_view();
        let mut set: Vec<Pair> = Vec::new();
        let mut i: usize = 0;
        while i < fold.exceptions.len()
            invariant
                i <= ex.len() <= SELECTION_LIMIT,
                ex == fold.exceptions@,
                gv == self.groups_view(),
                pairs_strictly_sorted(set@),
                forall|p: Pair| #[trigger] set@.contains(p) <==> ex.take(i as int).contains(p),
                forall|k: int|
                    0 <= k < i ==> #[trigger] gv.contains_key(ex[k]) && gv[ex[k]].end > gv[ex[k]].start
                        + 1,
                ex.take(i as int).no_duplicates(),
            decreases ex.len() - i,
        {
            let p = fold.exceptions[i];
            let ok = match self.group(p) {
                Some(g) => g.end > g.start && g.end - g.start > 1,
                None => false,
            };
            if !ok {
                proof {
                    assert(!fold_ok(gv, ex)) by {
                        if fold_ok(gv, ex) {
                            assert(gv.contains_key(ex[i as int]));
                        }
                    }
                }
                return Err("invalid_palette");
            }
            if !insert_sorted(&mut set, p) {
                proof {
                    let k = choose|k: int| 0 <= k < i && #[trigger] ex.take(i as int)[k] == p;
                    assert(ex[k] == ex[i as int]);
                    assert(!ex.no_duplicates());
                }
                return Err("invalid_palette");
            }
            proof {
                assert(ex.take(i + 1) == ex.take(i as int).push(p));
                assert forall|q: Pair| #[trigger] ex.take(i + 1).contains(q) <==> ex.take(
                    i as int,
                ).contains(q) || q == p by {
                    if ex.take(i + 1).contains(q) {
                        let k = choose|k: int| 0 <= k < i + 1 && #[trigger] ex.take(i + 1)[k] == q;
                        if k < i {
                            assert(ex.take(i as int)[k] == q);
                        }
                    }
                    if ex.take(i as int).contains(q) {
                        let k = choose|k: int| 0 <= k < i && #[trigger] ex.take(i as int)[k] == q;
                        assert(ex.take(i + 1)[k] == q);
                    }
                    if q == p {
                        assert(ex.take(i + 1)[i as int] == q);
                    }
                }
                assert(!ex.take(i as int).contains(p));
                assert forall|a: int, b: int|
                    0 <= a < ex.take(i + 1).len() && 0 <= b < ex.take(i + 1).len() && a != b implies #[trigger] ex.take(
                    i + 1,
                )[a] != #[trigger] ex.take(i + 1)[b] by {
                    if b == i {
                        assert(ex.take(i as int)[a] == ex.take(i + 1)[a]);
                    } else if a == i {
                        assert(ex.take(i as int)[b] == ex.take(i + 1)[b]);
                    } else {
                        assert(ex.take(i as int)[a] == ex.take(i + 1)[a]);
                        assert(ex.take(i as int)[b] == ex.take(i + 1)[b]);
                    }
                }
            }
            i = i + 1;
        }
        assert(ex.take(ex.len() as int) =~= ex);
        assert forall|k: int| 0 <= k < ex.len() implies #[trigger] gv.contains_key(ex[k]) && gv[ex[k]].end
            > gv[ex[k]].start + 1 by {
            assert(gv.contains_key(ex[k]));
        }
        assert(i == ex.len());
        assert(ex.take(i as int).no_duplicates());
        assert(ex.no_duplicates());
        assert(ex.len() <= SELECTION_LIMIT);
        assert(fold_ok(gv, ex));
        Ok(Closed::from_sorted(fold.closed, set))
    }

    /// The projected positions in visible order: a folded group shows its
    /// head and hides its span.
    pub fn positions(&self, closed: &Closed) -> (r: Vec<usize>)
        ensures
            r@ == visible_from(self.rows_view(), self.indices_view(), self.groups_view(), closed@, 0),
    {
        proof {
            use_type_invariant(self);
        }
        let rows = self.catalog.rows();
        let ghost rv = self.catalog@.rows;
        let ghost ind = self.indices@;
        let ghost gv = self.groups_view();
        let mut out: Vec<usize> = Vec::new();
        let mut pos: usize = 0;
        while pos < self.indices.len()
            invariant
                pos <= ind.len(),
                ind == self.indices@,
                ind == self.indices_view(),
                rv == rows_view(rows@),
                rv == self.rows_view(),
                gv == self.groups_view(),
                forall|q: int| 0 <= q < ind.len() ==> #[trigger] ind[q] < rv.len(),
                out@ + visible_from(rv, ind, gv, closed@, pos as int) == visible_from(
                    rv,
                    ind,
                    gv,
                    closed@,
                    0,
                ),
            decreases ind.len() - pos,
        {
            let i = self.indices[pos];
            let pair = rows[i].pair;
            assert(rows@[i as int]@ == rv[i as int]);
            let nx: usize = match self.group(pair) {
                Some(g) => if closed.contains(pair) && g.end > pos {
                    g.end
                } else {
                    pos + 1
                },
                None => pos + 1,
            };
            assert(nx == next_position(rv, ind, gv, closed@, pos as int));
            proof {
                let rest = visible_from(rv, ind, gv, closed@, pos as int);
                if nx < ind.len() {
                    assert(rest == seq![pos as usize] + visible_from(rv, ind, gv, closed@, nx as int));
                    assert(out@.push(pos) + visible_from(rv, ind, gv, closed@, nx as int) =~= out@ + rest);
                } else {
                    assert(rest == seq![pos as usize]);
                    assert(out@.push(pos) =~= out@ + rest);
                    assert(visible_from(rv, ind, gv, closed@, nx as int) =~= Seq::<usize>::empty());
                    assert(out@.push(pos) + visible_from(rv, ind, gv, closed@, nx as int) =~= out@.push(pos));
                }
            }
            out.push(pos);
            if nx >= self.indices.len() {
                assert(visible_from(rv, ind, gv, closed@, ind.len() as int) =~= Seq::<usize>::empty());
                return out;
            }
            pos = nx;
        }
        assert(visible_from(rv, ind, gv, closed@, pos as int) =~= Seq::<usize>::empty());
        assert(out@ + Seq::<usize>::empty() =~= out@);
        out
    }
}

/// Every group's targets lie in `allowed`.
pub open spec fn targets_allowed(groups: Map<Pair, GroupView>, allowed: Set<Pair>) -> bool {
    forall|p: Pair| #[trigger] groups.contains_key(p) ==> groups[p].targets.to_set().subset_of(allowed)
}

proof fn lemma_kept_indices(
    rows: Seq<RowView>,
    members: Seq<(Pair, Vec<Pair>)>,
    allowed: Set<Pair>,
    n: int,
)
    requires
        0 <= n <= rows.len() <= usize::MAX,
    ensures
        kept_indices(rows, members, allowed, n).len() <= n,
        forall|k: int|
            0 <= k < kept_indices(rows, members, allowed, n).len() ==> #[trigger] kept_indices(
                rows,
                members,
                allowed,
                n,
            )[k] < n && row_kept(rows[kept_indices(rows, members, allowed, n)[k] as int], members, allowed),
    decreases n,
{
    if n > 0 {
        lemma_kept_indices(rows, members, allowed, n - 1);
        let prev = kept_indices(rows, members, allowed, n - 1);
        let cur = kept_indices(rows, members, allowed, n);
        assert forall|k: int| 0 <= k < cur.len() implies #[trigger] cur[k] < n && row_kept(
            rows[cur[k] as int],
            members,
            allowed,
        ) by {
            if k < prev.len() {
                assert(cur[k] == prev[k]);
            } else {
                assert(cur[k] == (n - 1) as usize);
            }
        }
    }
}

proof fn lemma_head_groups_allowed(
    rows: Seq<RowView>,
    members: Seq<(Pair, Vec<Pair>)>,
    allowed: Set<Pair>,
    n: int,
)
    ensures
        targets_allowed(head_groups(rows, members, allowed, n), allowed),
    decreases n,
{
    if n > 0 {
        lemma_head_groups_allowed(rows, members, allowed, n - 1);
        let r = rows[n - 1];
        let t = head_targets(members, r.pair, allowed);
        let f = |q: Pair| allowed.contains(q);
        member_list(members, r.pair).filter_lemma(f);
        assert forall|q: Pair| t.to_set().contains(q) implies allowed.contains(q) by {
            let k = choose|k: int| 0 <= k < t.len() && t[k] == q;
            assert(f(t[k]));
        }
    }
}

proof fn lemma_runs_allowed(
    rows: Seq<RowView>,
    ind: Seq<usize>,
    physical: bool,
    s: int,
    g: Map<Pair, GroupView>,
    allowed: Set<Pair>,
)
    requires
        targets_allowed(g, allowed),
        forall|k: int| 0 <= k < ind.len() ==> #[trigger] ind[k] < rows.len(),
        physical ==> forall|k: int|
            0 <= k < ind.len() ==> allowed.contains(#[trigger] rows[ind[k] as int].pair),
    ensures
        targets_allowed(with_runs(rows, ind, physical, s, g), allowed),
    decreases ind.len() - s,
{
    if 0 <= s < ind.len() {
        let p = rows[ind[s] as int].pair;
        let e = run_end_in(rows, ind, s + 1, p.0);
        lemma_run_end_in(rows, ind, s + 1, p.0);
        let g2 = if g.contains_key(p) {
            g.insert(p, GroupView { end: e as nat, ..g[p] })
        } else if physical && e > s + 1 {
            g.insert(p, GroupView { start: s as nat, end: e as nat, targets: run_pairs(rows, ind, s, e) })
        } else {
            g
        };
        assert(targets_allowed(g2, allowed)) by {
            if !g.contains_key(p) && physical && e > s + 1 {
                let t = run_pairs(rows, ind, s, e);
                assert forall|q: Pair| t.to_set().contains(q) implies allowed.contains(q) by {
                    let k = choose|k: int| 0 <= k < t.len() && t[k] == q;
                    assert(t[k] == rows[ind[s + k] as int].pair);
                }
            }
        }
        if s < e <= ind.len() {
            lemma_runs_allowed(rows, ind, physical, e, g2, allowed);
        }
    }
}

/// When some projected row has `pair`, a first one does.
proof fn lemma_first_with(rows: Seq<RowView>, ind: Seq<usize>, pair: Pair, j: int)
    requires
        0 <= j <= ind.len(),
        forall|m: int| 0 <= m < j ==> #[trigger] rows[ind[m] as int].pair != pair,
        exists|k: int| j <= k < ind.len() && #[trigger] rows[ind[k] as int].pair == pair,
    ensures
        first_with(rows, ind, pair) matches Some(k) && 0 <= k < ind.len() && rows[ind[k] as int].pair
            == pair,
    decreases ind.len() - j,
{
    if rows[ind[j] as int].pair == pair {
        assert(0 <= j < ind.len() && rows[ind[j] as int].pair == pair && forall|m: int|
            0 <= m < j ==> #[trigger] rows[ind[m] as int].pair != pair);
    } else {
        let k = choose|k: int| j <= k < ind.len() && #[trigger] rows[ind[k] as int].pair == pair;
        assert(k > j);
        lemma_first_with(rows, ind, pair, j + 1);
    }
}

proof fn lemma_targets_allowed(
    rows: Seq<RowView>,
    ind: Seq<usize>,
    groups: Map<Pair, GroupView>,
    allowed: Set<Pair>,
    pair: Pair,
    group: bool,
)
    requires
        targets_allowed(groups, allowed),
        forall|k: int|
            0 <= k < ind.len() ==> !(#[trigger] rows[ind[k] as int]).head ==> allowed.contains(
                rows[ind[k] as int].pair,
            ),
    ensures
        targets_of(rows, ind, groups, pair, group) matches Some(t) ==> t.to_set().subset_of(allowed),
{
    match first_with(rows, ind, pair) {
        Some(k) => {
            lemma_first_with(rows, ind, pair, 0);
            assert(0 <= k < ind.len() && rows[ind[k] as int].pair == pair);
            if !(group || rows[ind[k] as int].head) {
                assert(!rows[ind[k] as int].head);
                assert(allowed.contains(rows[ind[k] as int].pair));
                let t = seq![pair];
                assert forall|q: Pair| t.to_set().contains(q) implies allowed.contains(q) by {
                    assert(t.contains(q));
                    assert(t[0] == q);
                }
            }
        },
        None => {},
    }
}

/// A guest's visibility change never widens the selection beyond the scope:
/// starting from a selection within the allowed planes, the changed
/// selection stays within them. This holds of every projection whose
/// physical datatype runs hold no synthetic heads.
pub proof fn law_guest_change_stays_in_scope(
    rows: Seq<RowView>,
    members: Seq<(Pair, Vec<Pair>)>,
    allowed: Set<Pair>,
    physical: bool,
    s0: Set<Pair>,
    pair: Pair,
    group: bool,
    visible: bool,
)
    requires
        rows.len() <= usize::MAX,
        s0.subset_of(allowed),
        physical ==> forall|k: int| 0 <= k < rows.len() ==> !(#[trigger] rows[k]).head,
    ensures
        ({
            let ind = kept_indices(rows, members, allowed, rows.len() as int);
            let groups = with_runs(rows, ind, physical, 0, head_groups(rows, members, allowed, rows.len() as int));
            match targets_of(rows, ind, groups, pair, group) {
                Some(t) => changed(s0, t, visible).subset_of(allowed),
                None => true,
            }
        }),
{
    let n = rows.len() as int;
    let ind = kept_indices(rows, members, allowed, n);
    let g0 = head_groups(rows, members, allowed, n);
    lemma_kept_indices(rows, members, allowed, n);
    lemma_head_groups_allowed(rows, members, allowed, n);
    assert forall|k: int| 0 <= k < ind.len() implies !(#[trigger] rows[ind[k] as int]).head
        ==> allowed.contains(rows[ind[k] as int].pair) by {
        assert(row_kept(rows[ind[k] as int], members, allowed));
    }
    if physical {
        assert forall|k: int| 0 <= k < ind.len() implies allowed.contains(#[trigger] rows[ind[k] as int].pair) by {
            assert(!rows[ind[k] as int].head);
            assert(row_kept(rows[ind[k] as int], members, allowed));
        }
    }
    lemma_runs_allowed(rows, ind, physical, 0, g0, allowed);
    let groups = with_runs(rows, ind, physical, 0, g0);
    lemma_targets_allowed(rows, ind, groups, allowed, pair, group);
}


/// A guest palette page request: where the page starts, and the fold.
pub struct ScopedPage {
    pub start: usize,
    pub fold: Fold,
}

/// How a projected row is shown to a guest: its catalogue row and pair, the
/// group it is listed under, whether it heads a group and whether it is a
/// synthetic head, its number of children, whether its group is folded, and
/// whether its planes are drawn: all, some (mixed) or, for a synthetic
/// head, any. Group flags speak of the approved members only.
#[derive(Clone, Copy, Debug, PartialEq, Eq)]
pub struct ScopedRow {
    pub row: usize,
    pub pair: Pair,
    pub parent: Option<Pair>,
    pub head: bool,
    pub synthetic: bool,
    pub children: usize,
    pub closed: bool,
    pub visible: bool,
    pub all_visible: bool,
    pub mixed: bool,
}

/// A guest palette page: the number of visible positions, the number of
/// projected rows, where the page starts and the next one, and the rows.
pub struct ScopedRows {
    pub total: usize,
    pub all_total: usize,
    pub start: usize,
    pub next: Option<usize>,
    pub rows: Vec<ScopedRow>,
}

/// `k` is the greatest group key below `pair`.
pub open spec fn greatest_below(groups: Map<Pair, GroupView>, pair: Pair, k: Pair) -> bool {
    &&& groups.contains_key(k)
    &&& pair_lt(k, pair)
    &&& forall|k2: Pair| #[trigger] groups.contains_key(k2) && pair_lt(k2, pair) ==> pair_le(k2, k)
}

/// The group keyed just below `pair`, if any group key lies below it.
pub open spec fn group_below(groups: Map<Pair, GroupView>, pair: Pair) -> Option<Pair> {
    if exists|k: Pair| #[trigger] greatest_below(groups, pair, k) {
        Some(choose|k: Pair| #[trigger] greatest_below(groups, pair, k))
    } else {
        None
    }
}

/// How many of `t` the render selection draws.
pub open spec fn drawn_count(l: Layers, t: Seq<Pair>) -> nat {
    t.filter(|v: Pair| selects(l, v)).len()
}

/// How the projected row at position `pos` is shown under the render
/// selection `l` and the fold `cl`. Its parent is the group keyed just below
/// it when that group's span holds it; a group spans its head and so has
/// `end - start - 1` children.
pub open spec fn scoped_row(
    rows: Seq<RowView>,
    ind: Seq<usize>,
    groups: Map<Pair, GroupView>,
    l: Layers,
    cl: ClosedView,
    pos: int,
) -> ScopedRow {
    let i = ind[pos];
    let r = rows[i as int];
    let has = groups.contains_key(r.pair);
    let g = groups[r.pair];
    let count = if has {
        drawn_count(l, g.targets)
    } else {
        0
    };
    let members = if has {
        g.targets.len()
    } else {
        0
    };
    ScopedRow {
        row: i,
        pair: r.pair,
        parent: match group_below(groups, r.pair) {
            Some(k) => if groups[k].start < pos < groups[k].end {
                Some(k)
            } else {
                None
            },
            None => None,
        },
        head: has,
        synthetic: r.head,
        children: if has && g.end > g.start {
            (g.end - g.start - 1) as usize
        } else {
            0
        },
        closed: has && g.end > g.start + 1 && closed_contains(cl, r.pair),
        visible: if r.head {
            count > 0
        } else {
            selects(l, r.pair)
        },
        all_visible: members > 0 && count == members,
        mixed: count > 0 && count < members,
    }
}

/// Two folds that fold the same groups give the same visible order.
proof fn lemma_visible_same_fold(
    rows: Seq<RowView>,
    ind: Seq<usize>,
    groups: Map<Pair, GroupView>,
    a: ClosedView,
    b: ClosedView,
    pos: int,
)
    requires
        forall|p: Pair| #[trigger] closed_contains(a, p) == closed_contains(b, p),
    ensures
        visible_from(rows, ind, groups, a, pos) == visible_from(rows, ind, groups, b, pos),
    decreases ind.len() - pos,
{
    if 0 <= pos < ind.len() {
        let pair = rows[ind[pos] as int].pair;
        assert(closed_contains(a, pair) == closed_contains(b, pair));
        let nx = next_position(rows, ind, groups, a, pos);
        assert(nx == next_position(rows, ind, groups, b, pos));
        if nx < ind.len() {
            lemma_visible_same_fold(rows, ind, groups, a, b, nx);
        }
    }
}

/// Every visible position is a projected position, in increasing order.
proof fn lemma_visible_bounds(
    rows: Seq<RowView>,
    ind: Seq<usize>,
    groups: Map<Pair, GroupView>,
    cl: ClosedView,
    pos: int,
)
    requires
        0 <= pos,
        ind.len() <= usize::MAX,
    ensures
        forall|k: int| 0 <= k < visible_from(rows, ind, groups, cl, pos).len() ==> pos <= #[trigger] visible_from(
            rows,
            ind,
            groups,
            cl,
            pos,
        )[k] < ind.len(),
    decreases ind.len() - pos,
{
    if pos < ind.len() {
        let nx = next_position(rows, ind, groups, cl, pos);
        let w = visible_from(rows, ind, groups, cl, pos);
        assert(nx > pos);
        if nx < ind.len() {
            lemma_visible_bounds(rows, ind, groups, cl, nx);
            let rest = visible_from(rows, ind, groups, cl, nx);
            assert(w == seq![pos as usize] + rest);
            assert forall|k: int| 0 <= k < w.len() implies pos <= #[trigger] w[k] < ind.len() by {
                if k > 0 {
                    assert(w[k] == rest[k - 1]);
                    assert(nx <= rest[k - 1]);
                } else {
                    assert(w[0] == pos);
                }
            }
        } else {
            assert(w == seq![pos as usize]);
            assert forall|k: int| 0 <= k < w.len() implies pos <= #[trigger] w[k] < ind.len() by {
                assert(w[k] == pos);
            }
        }
    }
}

/// How many of `t` the render selection draws.
fn count_drawn(layers: &Layers, t: &Vec<Pair>) -> (n: usize)
    requires
        layers_sorted(*layers),
    ensures
        n == drawn_count(*layers, t@),
{
    let ghost pred = |v: Pair| selects(*layers, v);
    let mut n: usize = 0;
    let mut j: usize = 0;
    while j < t.len()
        invariant
            j <= t@.len(),
            layers_sorted(*layers),
            pred == (|v: Pair| selects(*layers, v)),
            n == t@.take(j as int).filter(pred).len(),
            n <= j,
        decreases t@.len() - j,
    {
        let v = t[j];
        let hit = draws(layers, v);
        proof {
            let s = t@.take(j + 1);
            assert(s.drop_last() =~= t@.take(j as int));
            assert(s.last() == v);
            reveal(Seq::filter);
        }
        if hit {
            n = n + 1;
        }
        j = j + 1;
    }
    proof {
        assert(t@.take(t@.len() as int) =~= t@);
    }
    n
}

impl<'a> Projection<'a> {
    /// The key of the group just below `pair`.
    fn group_below(&self, pair: Pair) -> (r: Option<Pair>)
        ensures
            r == group_below(self.groups_view(), pair),
    {
        proof {
            use_type_invariant(self);
            lemma_gmap(self.groups@);
        }
        let g = &self.groups;
        let ghost v = g@;
        let mut best: Option<usize> = None;
        let mut k: usize = 0;
        while k < g.len()
            invariant
                v == g@,
                k <= v.len(),
                match best {
                    Some(b) => b < k && pair_lt(v[b as int].0, pair) && forall|j: int|
                        0 <= j < k && pair_lt(#[trigger] v[j].0, pair) ==> pair_le(v[j].0, v[b as int].0),
                    None => forall|j: int| 0 <= j < k ==> !pair_lt(#[trigger] v[j].0, pair),
                },
            decreases v.len() - k,
        {
            if pair_less(g[k].0, pair) {
                match best {
                    Some(b) => if pair_less(g[b].0, g[k].0) {
                        best = Some(k);
                    },
                    None => {
                        best = Some(k);
                    },
                }
            }
            k = k + 1;
        }
        let ghost gm = self.groups_view();
        match best {
            Some(b) => {
                let key = g[b].0;
                proof {
                    assert forall|k2: Pair| #[trigger] gm.contains_key(k2) && pair_lt(k2, pair) implies pair_le(k2, key) by {
                        let j = choose|j: int| 0 <= j < v.len() && (#[trigger] v[j]).0 == k2;
                    }
                    assert(gm.contains_key(key));
                    assert(greatest_below(gm, pair, key));
                    let c = choose|c: Pair| #[trigger] greatest_below(gm, pair, c);
                    assert(pair_le(c, key) && pair_le(key, c));
                }
                Some(key)
            },
            None => {
                proof {
                    assert forall|c: Pair| !#[trigger] greatest_below(gm, pair, c) by {
                        if gm.contains_key(c) && pair_lt(c, pair) {
                            let j = choose|j: int| 0 <= j < v.len() && (#[trigger] v[j]).0 == c;
                        }
                    }
                }
                None
            },
        }
    }

    /// A guest's page of the projection under the render selection
    /// `layers`. A fold that names anything but a projected group with
    /// children, repeats a group or has too many exceptions, and a page that
    /// starts beyond the visible positions, are refused.
    pub fn page(&self, layers: &Layers, request: ScopedPage) -> (r: Result<ScopedRows, &'static str>)
        requires
            layers_sorted(*layers),
        ensures
            ({
                let fv = fold_view(request.fold);
                let v = visible_from(self.rows_view(), self.indices_view(), self.groups_view(), fv, 0);
                let start = request.start as int;
                if !fold_ok(self.groups_view(), request.fold.exceptions@) || start > v.len() {
                    r == Err::<ScopedRows, &'static str>("invalid_palette")
                } else {
                    let end = if start + PAGE < v.len() {
                        start + PAGE
                    } else {
                        v.len() as int
                    };
                    r matches Ok(p) && p.total == v.len() && p.all_total == self.indices_view().len()
                        && p.start == request.start && p.next == (if start + PAGE < v.len() {
                        Some((start + PAGE) as usize)
                    } else {
                        None::<usize>
                    }) && p.rows@.len() == end - start && forall|k: int|
                        0 <= k < end - start ==> #[trigger] p.rows@[k] == scoped_row(
                            self.rows_view(),
                            self.indices_view(),
                            self.groups_view(),
                            *layers,
                            fv,
                            v[start + k] as int,
                        )
                }
            }),
    {
        proof {
            use_type_invariant(self);
        }
        let ghost rv = self.rows_view();
        let ghost ind = self.indices_view();
        let ghost gv = self.groups_view();
        let ScopedPage { start, fold } = request;
        let ghost fv = fold_view(fold);
        let closed = match self.closed(fold) {
            Ok(c) => c,
            Err(e) => return Err(e),
        };
        let order = self.positions(&closed);
        proof {
            assert forall|p: Pair| #[trigger] closed_contains(closed@, p) == closed_contains(fv, p) by {}
            lemma_visible_same_fold(rv, ind, gv, closed@, fv, 0);
            assert(ind.len() == self.indices.len());
            lemma_visible_bounds(rv, ind, gv, closed@, 0);
        }
        let total = order.len();
        if start > total {
            return Err("invalid_palette");
        }
        let end = if total - start > PAGE {
            start + PAGE
        } else {
            total
        };
        let rows = self.catalog.rows();
        let mut out: Vec<ScopedRow> = Vec::new();
        let mut k: usize = start;
        while k < end
            invariant
                start <= k <= end <= total,
                total == order@.len(),
                order@ == visible_from(rv, ind, gv, fv, 0),
                forall|q: int| 0 <= q < order@.len() ==> #[trigger] order@[q] < ind.len(),
                ind == self.indices_view(),
                ind == self.indices@,
                rv == self.rows_view(),
                rv == rows_view(rows@),
                gv == self.groups_view(),
                layers_sorted(*layers),
                forall|q: int| 0 <= q < ind.len() ==> #[trigger] ind[q] < rv.len(),
                forall|p: Pair| #[trigger] closed_contains(closed@, p) == closed_contains(fv, p),
                out@.len() == k - start,
                forall|j: int| 0 <= j < k - start ==> #[trigger] out@[j] == scoped_row(
                    rv,
                    ind,
                    gv,
                    *layers,
                    fv,
                    order@[start + j] as int,
                ),
            decreases end - k,
        {
            let pos = order[k];
            let i = self.indices[pos];
            assert(rows@[i as int]@ == rv[i as int]);
            let r = &rows[i];
            let pair = r.pair;
            let below = self.group_below(pair);
            let parent = match below {
                Some(key) => match self.group(key) {
                    Some(g) => if pos > g.start && pos < g.end {
                        Some(key)
                    } else {
                        None
                    },
                    None => None,
                },
                None => None,
            };
            proof {
                if let Some(key) = below {
                    assert(greatest_below(gv, pair, key));
                }
            }
            let row = match self.group(pair) {
                Some(g) => {
                    let count = count_drawn(layers, &g.targets);
                    let members = g.targets.len();
                    ScopedRow {
                        row: i,
                        pair,
                        parent,
                        head: true,
                        synthetic: r.head,
                        children: if g.end > g.start {
                            g.end - g.start - 1
                        } else {
                            0
                        },
                        closed: g.end > g.start && g.end - g.start > 1 && closed.contains(pair),
                        visible: if r.head {
                            count > 0
                        } else {
                            draws(layers, pair)
                        },
                        all_visible: members > 0 && count == members,
                        mixed: count > 0 && count < members,
                    }
                },
                None => ScopedRow {
                    row: i,
                    pair,
                    parent,
                    head: false,
                    synthetic: r.head,
                    children: 0,
                    closed: false,
                    visible: if r.head {
                        false
                    } else {
                        draws(layers, pair)
                    },
                    all_visible: false,
                    mixed: false,
                },
            };
            out.push(row);
            k = k + 1;
        }
        let next = if end < total {
            Some(end)
        } else {
            None
        };
        Ok(ScopedRows { total, all_total: self.indices.len(), start, next, rows: out })
    }
}

} // verus!
