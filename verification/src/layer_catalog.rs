//! Bounded layer-palette metadata. Rows are kept in (layer, datatype)
//! order; a layer whose rows form a group can be folded, and folding never
//! hides geometry. Pages and inclusive ranges walk the visible order without
//! copying it.
use crate::scoped::Layers;
use vstd::prelude::*;
use vstd::relations::{sorted_by, total_ordering};
use vstd::string::StrSliceExecFns;

verus! {

/// Rows per palette page.
pub const PAGE: usize = 64;

/// Most exceptions in a fold, and most rows in a range selection.
pub const SELECTION_LIMIT: usize = 4096;

/// A (layer, datatype) pair.
pub type Pair = (u32, u32);

pub open spec fn pair_lt(a: Pair, b: Pair) -> bool {
    a.0 < b.0 || (a.0 == b.0 && a.1 < b.1)
}

pub open spec fn pair_le(a: Pair, b: Pair) -> bool {
    pair_lt(a, b) || a == b
}

pub fn pair_equal(a: Pair, b: Pair) -> (r: bool)
    ensures
        r == (a == b),
{
    a.0 == b.0 && a.1 == b.1
}

pub fn pair_less(a: Pair, b: Pair) -> (r: bool)
    ensures
        r == pair_lt(a, b),
{
    a.0 < b.0 || (a.0 == b.0 && a.1 < b.1)
}

/// A palette row: its pair, display labels, whether it is a synthetic head
/// (a deck level/chip), its group head if folded under one, its style slot
/// and its fallback colour.
pub struct Row {
    pub pair: Pair,
    pub name: String,
    pub aliases: Vec<String>,
    pub head: bool,
    pub parent: Option<Pair>,
    pub style: Option<usize>,
    pub fallback: String,
}

pub struct RowView {
    pub pair: Pair,
    pub name: Seq<char>,
    pub aliases: Seq<Seq<char>>,
    pub head: bool,
    pub parent: Option<Pair>,
    pub style: Option<usize>,
    pub fallback: Seq<char>,
}

impl View for Row {
    type V = RowView;

    open spec fn view(&self) -> RowView {
        RowView {
            pair: self.pair,
            name: self.name@,
            aliases: self.aliases@.map_values(|s: String| s@),
            head: self.head,
            parent: self.parent,
            style: self.style,
            fallback: self.fallback@,
        }
    }
}

pub open spec fn rows_view(rows: Seq<Row>) -> Seq<RowView> {
    rows.map_values(|r: Row| r@)
}

impl Row {
    /// A copy of this row with the given parent.
    pub fn with_parent(&self, parent: Option<Pair>) -> (r: Row)
        ensures
            r@ == (RowView { parent, ..self@ }),
    {
        let mut aliases: Vec<String> = Vec::new();
        let mut i: usize = 0;
        while i < self.aliases.len()
            invariant
                i <= self.aliases@.len(),
                aliases@.len() == i,
                forall|k: int| 0 <= k < i ==> #[trigger] aliases@[k]@ == self.aliases@[k]@,
            decreases self.aliases@.len() - i,
        {
            let c = self.aliases[i].clone();
            aliases.push(c);
            i = i + 1;
        }
        assert(aliases@.map_values(|s: String| s@) =~= self.aliases@.map_values(|s: String| s@));
        Row {
            pair: self.pair,
            name: self.name.clone(),
            aliases,
            head: self.head,
            parent,
            style: self.style,
            fallback: self.fallback.clone(),
        }
    }
}

/// Input positions ordered by pair, ties kept in input order.
pub open spec fn position_le(s: Seq<RowView>, a: usize, b: usize) -> bool {
    pair_lt(s[a as int].pair, s[b as int].pair) || (s[a as int].pair == s[b as int].pair && a <= b)
}

pub open spec fn position_order(s: Seq<RowView>) -> spec_fn(usize, usize) -> bool {
    |a: usize, b: usize| position_le(s, a, b)
}

pub open spec fn all_positions(n: nat) -> Seq<usize> {
    Seq::new(n, |i: int| i as usize)
}

/// The input positions in stable pair order.
pub open spec fn sorted_positions(s: Seq<RowView>) -> Seq<usize> {
    all_positions(s.len()).sort_by(position_order(s))
}

/// The rows sorted by pair; rows with equal pairs keep their input order.
pub open spec fn sort_rows(s: Seq<RowView>) -> Seq<RowView> {
    sorted_positions(s).map_values(|i: usize| s[i as int])
}

pub proof fn lemma_position_order_total(s: Seq<RowView>)
    ensures
        total_ordering(position_order(s)),
{
    let r = position_order(s);
    assert(vstd::relations::reflexive(r));
    assert(vstd::relations::antisymmetric(r));
    assert(vstd::relations::transitive(r));
    assert(vstd::relations::strongly_connected(r));
}

/// Where the run of rows with `layer`, starting at `j`, ends.
pub open spec fn run_end_from(s: Seq<RowView>, j: int, layer: u32) -> int
    decreases s.len() - j,
{
    if j < 0 || j >= s.len() || s[j].pair.0 != layer {
        j
    } else {
        run_end_from(s, j + 1, layer)
    }
}

/// End (exclusive) of the run of one layer that starts at `start`.
pub open spec fn run_end(s: Seq<RowView>, start: int) -> int {
    run_end_from(s, start + 1, s[start].pair.0)
}

/// First index of the run of one layer that holds `k`.
pub open spec fn run_start(s: Seq<RowView>, k: int) -> int
    decreases k,
{
    if k > 0 && s[k - 1].pair.0 == s[k].pair.0 {
        run_start(s, k - 1)
    } else {
        k
    }
}

/// A run forms a foldable group when it has children and it is either a
/// physical catalogue (datatypes under their lowest datatype) or its first
/// row is a synthetic head.
pub open spec fn run_is_group(s: Seq<RowView>, start: int, physical: bool) -> bool {
    run_end(s, start) > start + 1 && (physical || s[start].head)
}

/// The group heads and their end-exclusive spans, in row order.
pub open spec fn group_entries(s: Seq<RowView>, start: int, physical: bool) -> Seq<(Pair, usize)>
    decreases s.len() - start,
{
    if start < 0 || start >= s.len() {
        Seq::empty()
    } else {
        let end = run_end(s, start);
        let rest = if start < end <= s.len() {
            group_entries(s, end, physical)
        } else {
            Seq::empty()
        };
        if run_is_group(s, start, physical) {
            seq![(s[start].pair, end as usize)] + rest
        } else {
            rest
        }
    }
}

/// A sorted row as it stands in the catalogue: every row after the first of
/// a group has the group's first pair as its parent.
pub open spec fn grouped_row(s: Seq<RowView>, k: int, physical: bool) -> RowView {
    let st = run_start(s, k);
    if k > st && (physical || s[st].head) {
        RowView { parent: Some(s[st].pair), ..s[k] }
    } else {
        s[k]
    }
}

pub open spec fn grouped_rows(s: Seq<RowView>, physical: bool) -> Seq<RowView> {
    Seq::new(s.len(), |k: int| grouped_row(s, k, physical))
}

/// The palette catalogue.
pub struct LayerCatalog {
    rows: Vec<Row>,
    /// End-exclusive spans keyed by the first pair of their group, in
    /// pair order. A physical head is its layer's lowest datatype, not
    /// necessarily datatype zero.
    groups: Vec<(Pair, usize)>,
    physical: bool,
}

pub struct CatalogView {
    pub rows: Seq<RowView>,
    pub groups: Seq<(Pair, usize)>,
    pub physical: bool,
}

impl View for LayerCatalog {
    type V = CatalogView;

    closed spec fn view(&self) -> CatalogView {
        CatalogView { rows: rows_view(self.rows@), groups: self.groups@, physical: self.physical }
    }
}

/// The positions of `rows` in stable pair order. Insertion from the back
/// keeps an already sorted catalogue linear.
fn sorted_order(rows: &Vec<Row>) -> (ord: Vec<usize>)
    ensures
        ord@ == sorted_positions(rows_view(rows@)),
        ord@.len() == rows@.len(),
        forall|k: int| 0 <= k < ord@.len() ==> #[trigger] ord@[k] < rows@.len(),
{
    let ghost s = rows_view(rows@);
    let mut ord: Vec<usize> = Vec::new();
    let mut i: usize = 0;
    assert(all_positions(0) =~= Seq::<usize>::empty());
    while i < rows.len()
        invariant
            i <= rows@.len(),
            s == rows_view(rows@),
            ord@.len() == i,
            forall|k: int| 0 <= k < i ==> #[trigger] ord@[k] < i,
            sorted_by(ord@, position_order(s)),
            ord@.to_multiset() == all_positions(i as nat).to_multiset(),
        decreases rows@.len() - i,
    {
        let key = rows[i].pair;
        let mut j: usize = ord.len();
        while j > 0 && pair_less(key, rows[ord[j - 1]].pair)
            invariant
                j <= ord@.len(),
                i < rows@.len(),
                s == rows_view(rows@),
                key == s[i as int].pair,
                forall|k: int| 0 <= k < ord@.len() ==> #[trigger] ord@[k] < i,
                forall|k: int| j <= k < ord@.len() ==> pair_lt(key, #[trigger] s[ord@[k] as int].pair),
            decreases j,
        {
            j = j - 1;
        }
        proof {
            if j > 0 {
                let last = ord@[j - 1];
                assert(s[last as int].pair == rows@[last as int].pair);
                assert(!pair_lt(key, s[last as int].pair));
            }
        }
        let ghost old_ord = ord@;
        ord.insert(j, i);
        proof {
            let new_ord = ord@;
            assert(new_ord == old_ord.insert(j as int, i));
            assert forall|p: int, q: int| 0 <= p < q < new_ord.len() implies #[trigger] position_order(s)(
                new_ord[p],
                new_ord[q],
            ) by {
                if p == j {
                    assert(new_ord[q] == old_ord[q - 1]);
                    assert(pair_lt(key, s[old_ord[q - 1] as int].pair));
                } else if q == j {
                    assert(new_ord[q] == i);
                    assert(new_ord[p] == old_ord[p]);
                    let last = old_ord[j - 1];
                    assert(!pair_lt(key, s[last as int].pair));
                    if p < j - 1 {
                        assert(position_order(s)(old_ord[p], last));
                    }
                    assert(old_ord[p] < i);
                } else {
                    let pp = if p < j { p } else { p - 1 };
                    let qq = if q < j { q } else { q - 1 };
                    assert(new_ord[p] == old_ord[pp] && new_ord[q] == old_ord[qq]);
                    assert(pp < qq);
                }
            }
            vstd::seq_lib::to_multiset_insert(old_ord, j as int, i);
            assert(all_positions((i + 1) as nat) =~= all_positions(i as nat).push(i));
            vstd::seq_lib::to_multiset_build(all_positions(i as nat), i);
        }
        i = i + 1;
    }
    proof {
        lemma_position_order_total(s);
        all_positions(s.len()).lemma_sort_by_ensures(position_order(s));
        vstd::seq_lib::lemma_sorted_unique(ord@, sorted_positions(s), position_order(s));
    }
    ord
}

pub open spec fn rows_sorted(rows: Seq<RowView>) -> bool {
    forall|i: int, j: int| 0 <= i < j < rows.len() ==> pair_le(#[trigger] rows[i].pair, #[trigger] rows[j].pair)
}

pub open spec fn groups_sorted(g: Seq<(Pair, usize)>) -> bool {
    forall|i: int, j: int| 0 <= i < j < g.len() ==> pair_lt(#[trigger] g[i].0, #[trigger] g[j].0)
}

/// Every row keyed like a group lies before the group's end.
pub open spec fn groups_cover(rows: Seq<RowView>, g: Seq<(Pair, usize)>) -> bool {
    forall|k: int, i: int|
        0 <= k < g.len() && 0 <= i < rows.len() && #[trigger] rows[i].pair == #[trigger] g[k].0 ==> i
            < g[k].1 <= rows.len()
}

pub open spec fn catalog_wf(c: CatalogView) -> bool {
    &&& c.rows.len() <= usize::MAX
    &&& rows_sorted(c.rows)
    &&& groups_sorted(c.groups)
    &&& groups_cover(c.rows, c.groups)
}

proof fn lemma_sort_rows_sorted(s0: Seq<RowView>)
    ensures
        sort_rows(s0).len() == s0.len(),
        rows_sorted(sort_rows(s0)),
{
    lemma_position_order_total(s0);
    all_positions(s0.len()).lemma_sort_by_ensures(position_order(s0));
    let ord = sorted_positions(s0);
    vstd::seq_lib::to_multiset_len(all_positions(s0.len()));
    vstd::seq_lib::to_multiset_len(ord);
    let s = sort_rows(s0);
    assert forall|i: int, j: int| 0 <= i < j < s.len() implies pair_le(
        #[trigger] s[i].pair,
        #[trigger] s[j].pair,
    ) by {
        assert(position_order(s0)(ord[i], ord[j]));
    }
}

proof fn lemma_run_start(s: Seq<RowView>, start: int, k: int)
    requires
        0 <= start <= k < s.len(),
        forall|m: int| start <= m <= k ==> #[trigger] s[m].pair.0 == s[start].pair.0,
        start == 0 || s[start - 1].pair.0 != s[start].pair.0,
    ensures
        run_start(s, k) == start,
    decreases k,
{
    if k > start {
        lemma_run_start(s, start, k - 1);
    }
}

impl LayerCatalog {
    /// Sorts the rows by pair and folds each layer with children under its
    /// first row when the catalogue is physical or that row is a synthetic head.
    pub fn new(rows: Vec<Row>, physical: bool) -> (c: LayerCatalog)
        ensures
            catalog_wf(c@),
            c@.rows == grouped_rows(sort_rows(rows_view(rows@)), physical),
            c@.groups == group_entries(sort_rows(rows_view(rows@)), 0, physical),
            c@.physical == physical,
    {
        let ord = sorted_order(&rows);
        let ghost s0 = rows_view(rows@);
        let ghost s = sort_rows(s0);
        proof {
            lemma_sort_rows_sorted(s0);
        }
        let n = rows.len();
        let mut out: Vec<Row> = Vec::new();
        let mut groups: Vec<(Pair, usize)> = Vec::new();
        let mut start: usize = 0;
        while start < n
            invariant
                n == rows@.len(),
                s0 == rows_view(rows@),
                s == sort_rows(s0),
                s.len() == n,
                rows_sorted(s),
                ord@ == sorted_positions(s0),
                ord@.len() == n,
                forall|k: int| 0 <= k < n ==> #[trigger] ord@[k] < n,
                start <= n,
                start < n ==> (start == 0 || s[start - 1].pair.0 != s[start as int].pair.0),
                start < n ==> forall|m: int| 0 <= m < start ==> #[trigger] s[m].pair.0 < s[start as int].pair.0,
                rows_view(out@) == grouped_rows(s, physical).take(start as int),
                groups@ + group_entries(s, start as int, physical) == group_entries(s, 0, physical),
                groups_sorted(groups@),
                forall|g: int| 0 <= g < groups@.len() ==> (#[trigger] groups@[g]).1 <= start,
                start < n ==> forall|g: int| 0 <= g < groups@.len() ==> (#[trigger] groups@[g]).0.0 < s[start as int].pair.0,
                groups_cover(s, groups@),
            decreases n - start,
        {
            let first = &rows[ord[start]];
            assert(first@ == s[start as int]);
            let layer = first.pair.0;
            let mut end: usize = start + 1;
            while end < n && rows[ord[end]].pair.0 == layer
                invariant
                    start < end <= n,
                    n == rows@.len(),
                    s0 == rows_view(rows@),
                    s == sort_rows(s0),
                    s.len() == n,
                    ord@ == sorted_positions(s0),
                    ord@.len() == n,
                    forall|k: int| 0 <= k < n ==> #[trigger] ord@[k] < n,
                    layer == s[start as int].pair.0,
                    forall|m: int| start <= m < end ==> #[trigger] s[m].pair.0 == layer,
                    run_end_from(s, end as int, layer) == run_end(s, start as int),
                decreases n - end,
            {
                assert(rows@[ord@[end as int] as int]@ == s[end as int]);
                end = end + 1;
            }
            proof {
                if end < n {
                    assert(rows@[ord@[end as int] as int]@ == s[end as int]);
                }
                assert(run_end(s, start as int) == end);
            }
            let group = end > start + 1 && (physical || first.head);
            let ghost old_groups = groups@;
            if group {
                groups.push((first.pair, end));
            }
            proof {
                let e = if group { seq![(s[start as int].pair, end)] } else { Seq::empty() };
                assert(groups@ == old_groups + e);
                assert(group_entries(s, start as int, physical) == e + group_entries(s, end as int, physical));
                assert(groups@ + group_entries(s, end as int, physical) =~= old_groups + group_entries(
                    s,
                    start as int,
                    physical,
                ));
                if group {
                    assert forall|i: int, j: int| 0 <= i < j < groups@.len() implies pair_lt(
                        #[trigger] groups@[i].0,
                        #[trigger] groups@[j].0,
                    ) by {
                        if j == groups@.len() - 1 {
                            assert(groups@[i] == old_groups[i]);
                        }
                    }
                    assert forall|k: int, i: int|
                        0 <= k < groups@.len() && 0 <= i < s.len() && #[trigger] s[i].pair
                            == #[trigger] groups@[k].0 implies i < groups@[k].1 <= s.len() by {
                        if k == groups@.len() - 1 {
                            if i >= end {
                                if end < n {
                                    assert(pair_le(s[end as int].pair, s[i].pair));
                                    assert(pair_le(s[end - 1].pair, s[end as int].pair));
                                }
                            }
                            if i < start {
                                assert(s[i].pair.0 < s[start as int].pair.0);
                            }
                        } else {
                            assert(groups@[k] == old_groups[k]);
                        }
                    }
                }
            }
            let ghost old_out = rows_view(out@);
            proof {
                lemma_run_start(s, start as int, start as int);
            }
            let head_row = first.with_parent(first.parent);
            let ghost before = out@;
            out.push(head_row);
            proof {
                assert(out@ == before.push(head_row));
                assert(rows_view(before).len() == start);
                assert(before.len() == start);
                assert(head_row@ == grouped_row(s, start as int, physical));
                assert forall|i: int| 0 <= i < start + 1 implies #[trigger] rows_view(out@)[i] == grouped_rows(
                    s,
                    physical,
                ).take(start + 1)[i] by {
                    if i < start {
                        assert(out@[i] == before[i]);
                        assert(rows_view(before)[i] == grouped_rows(s, physical).take(start as int)[i]);
                    }
                }
                assert(rows_view(out@) =~= grouped_rows(s, physical).take(start + 1));
            }
            let mut k: usize = start + 1;
            while k < end
                invariant
                    start < k <= end <= n,
                    n == rows@.len(),
                    s0 == rows_view(rows@),
                    s == sort_rows(s0),
                    s.len() == n,
                    ord@ == sorted_positions(s0),
                    ord@.len() == n,
                    forall|k: int| 0 <= k < n ==> #[trigger] ord@[k] < n,
                    first@ == s[start as int],
                    group == (end > start + 1 && (physical || s[start as int].head)),
                    start == 0 || s[start - 1].pair.0 != s[start as int].pair.0,
                    forall|m: int| start <= m < end ==> #[trigger] s[m].pair.0 == s[start as int].pair.0,
                    rows_view(out@) == grouped_rows(s, physical).take(k as int),
                decreases end - k,
            {
                let r = &rows[ord[k]];
                assert(r@ == s[k as int]);
                proof {
                    lemma_run_start(s, start as int, k as int);
                }
                let next = if group {
                    r.with_parent(Some(first.pair))
                } else {
                    r.with_parent(r.parent)
                };
                let ghost before = out@;
                out.push(next);
                proof {
                    assert(out@ == before.push(next));
                    assert(rows_view(before).len() == k);
                    assert(before.len() == k);
                    assert(next@ == grouped_row(s, k as int, physical));
                    assert forall|i: int| 0 <= i < k + 1 implies #[trigger] rows_view(out@)[i] == grouped_rows(
                        s,
                        physical,
                    ).take(k + 1)[i] by {
                        if i < k {
                            assert(out@[i] == before[i]);
                            assert(rows_view(before)[i] == grouped_rows(s, physical).take(k as int)[i]);
                        }
                    }
                }
                k = k + 1;
                assert(rows_view(out@) =~= grouped_rows(s, physical).take(k as int));
            }
            proof {
                if end < n {
                    assert(pair_le(s[end - 1].pair, s[end as int].pair));
                    assert forall|m: int| 0 <= m < end implies #[trigger] s[m].pair.0 < s[end as int].pair.0 by {
                        if m < start {
                            assert(s[m].pair.0 < s[start as int].pair.0);
                        }
                    }
                }
            }
            start = end;
        }
        proof {
            assert(rows_view(out@) =~= grouped_rows(s, physical));
            assert(group_entries(s, n as int, physical) =~= Seq::<(Pair, usize)>::empty());
            assert(groups@ =~= group_entries(s, 0, physical));
            assert forall|i: int, j: int| 0 <= i < j < rows_view(out@).len() implies pair_le(
                #[trigger] rows_view(out@)[i].pair,
                #[trigger] rows_view(out@)[j].pair,
            ) by {
                assert(pair_le(s[i].pair, s[j].pair));
            }
        }
        LayerCatalog { rows: out, groups, physical }
    }
}

/// Palette-only fold state, not a view-state patch. A default plus
/// exceptions can fold every group without sending every row.
pub struct Fold {
    pub closed: bool,
    pub exceptions: Vec<Pair>,
}

/// A validated fold: groups are closed by default or not, and each
/// exception flips one group.
pub struct Closed {
    default: bool,
    exceptions: Vec<Pair>,
}

pub struct ClosedView {
    pub default: bool,
    pub exceptions: Seq<Pair>,
}

impl View for Closed {
    type V = ClosedView;

    closed spec fn view(&self) -> ClosedView {
        ClosedView { default: self.default, exceptions: self.exceptions@ }
    }
}

pub open spec fn pairs_strictly_sorted(s: Seq<Pair>) -> bool {
    forall|i: int, j: int| 0 <= i < j < s.len() ==> pair_lt(#[trigger] s[i], #[trigger] s[j])
}

/// Whether a group keyed by `pair` is folded.
pub open spec fn closed_contains(cl: ClosedView, pair: Pair) -> bool {
    cl.default != cl.exceptions.contains(pair)
}

impl Closed {
    #[verifier::type_invariant]
    closed spec fn inv(self) -> bool {
        pairs_strictly_sorted(self.exceptions@)
    }

    pub(crate) fn from_sorted(default: bool, exceptions: Vec<Pair>) -> (r: Closed)
        requires
            pairs_strictly_sorted(exceptions@),
        ensures
            r@ == (ClosedView { default, exceptions: exceptions@ }),
    {
        Closed { default, exceptions }
    }

    pub fn contains(&self, pair: Pair) -> (r: bool)
        ensures
            r == closed_contains(self@, pair),
    {
        proof {
            use_type_invariant(self);
        }
        self.default != search_sorted(&self.exceptions, pair).1
    }
}

/// The end of the group keyed by `pair`, if there is one.
pub open spec fn group_end(groups: Seq<(Pair, usize)>, pair: Pair) -> Option<usize> {
    if exists|k: int| 0 <= k < groups.len() && #[trigger] groups[k].0 == pair {
        Some(groups[choose|k: int| 0 <= k < groups.len() && #[trigger] groups[k].0 == pair].1)
    } else {
        None
    }
}

/// The exceptions of a fold are acceptable: few enough, each a group of the
/// catalogue, none repeated.
pub open spec fn fold_valid(c: CatalogView, exceptions: Seq<Pair>) -> bool {
    &&& exceptions.len() <= SELECTION_LIMIT
    &&& forall|i: int| 0 <= i < exceptions.len() ==> (#[trigger] group_end(c.groups, exceptions[i])) is Some
    &&& exceptions.no_duplicates()
}

/// Where the visible order goes after row `i`: a folded group is jumped over.
pub open spec fn next_visible(c: CatalogView, cl: ClosedView, i: int) -> int {
    if closed_contains(cl, c.rows[i].pair) {
        match group_end(c.groups, c.rows[i].pair) {
            Some(e) => e as int,
            None => i + 1,
        }
    } else {
        i + 1
    }
}

/// The visible rows from `i` on, up to and including `hi`.
pub open spec fn walk(c: CatalogView, cl: ClosedView, i: int, hi: int) -> Seq<usize>
    decreases c.rows.len() - i,
{
    if i < 0 || i >= c.rows.len() || i > hi {
        Seq::empty()
    } else {
        let nx = next_visible(c, cl, i);
        if nx <= i || nx > c.rows.len() {
            seq![i as usize]
        } else {
            seq![i as usize] + walk(c, cl, nx, hi)
        }
    }
}

/// The whole visible order.
pub open spec fn visible(c: CatalogView, cl: ClosedView) -> Seq<usize> {
    walk(c, cl, 0, c.rows.len() as int)
}

/// The index of the first row with `pair`.
pub open spec fn find_row(rows: Seq<RowView>, pair: Pair) -> Option<int> {
    if exists|i: int|
        0 <= i < rows.len() && #[trigger] rows[i].pair == pair && forall|j: int|
            0 <= j < i ==> rows[j].pair != pair {
        Some(
            choose|i: int|
                0 <= i < rows.len() && #[trigger] rows[i].pair == pair && forall|j: int|
                    0 <= j < i ==> rows[j].pair != pair,
        )
    } else {
        None
    }
}

/// A range anchor: a row of the catalogue that is not folded away.
pub open spec fn anchor(c: CatalogView, cl: ClosedView, pair: Pair) -> Result<int, &'static str> {
    match find_row(c.rows, pair) {
        None => Err("invalid_palette"),
        Some(i) => match c.rows[i].parent {
            Some(p) => if closed_contains(cl, p) {
                Err("palette_anchor_hidden")
            } else {
                Ok(i)
            },
            None => Ok(i),
        },
    }
}

/// The inclusive visible range between two anchors, in either direction.
pub open spec fn range_result(c: CatalogView, cl: ClosedView, first: Pair, last: Pair) -> Result<Seq<usize>, &'static str> {
    match anchor(c, cl, first) {
        Err(e) => Err(e),
        Ok(a) => match anchor(c, cl, last) {
            Err(e) => Err(e),
            Ok(b) => {
                let lo = if a < b { a } else { b };
                let hi = if a < b { b } else { a };
                let w = walk(c, cl, lo, hi);
                if w.len() > SELECTION_LIMIT {
                    Err("palette_range_too_large")
                } else {
                    Ok(w)
                }
            },
        },
    }
}

impl LayerCatalog {
    /// The walk from `lo` up to `hi`, or its first `SELECTION_LIMIT + 1` rows.
    fn collect_walk(&self, closed: &Closed, lo: usize, hi: usize) -> (out: Vec<usize>)
        requires
            lo < self@.rows.len(),
        ensures
            out@.len() <= SELECTION_LIMIT ==> out@ == walk(self@, closed@, lo as int, hi as int),
            out@.len() > SELECTION_LIMIT ==> walk(self@, closed@, lo as int, hi as int).len() > SELECTION_LIMIT,
    {
        proof {
            use_type_invariant(self);
        }
        let ghost c = self@;
        let ghost cl = closed@;
        let n = self.rows.len();
        proof {
            assert(n == c.rows.len());
        }
        let ghost w = walk(c, cl, lo as int, hi as int);
        let ghost mut rest = w;
        let mut out: Vec<usize> = Vec::new();
        let mut i: usize = lo;
        while i < n && i <= hi && out.len() <= SELECTION_LIMIT
            invariant
                c == self@,
                cl == closed@,
                catalog_wf(c),
                n == c.rows.len(),
                lo <= i <= n,
                w == walk(c, cl, lo as int, hi as int),
                rest == walk(c, cl, i as int, hi as int),
                w == out@ + rest,
                out@.len() <= SELECTION_LIMIT + 1,
            decreases n - i,
        {
            proof {
                lemma_walk_step(c, cl, i as int, hi as int);
            }
            out.push(i);
            i = self.next_index(closed, i);
            proof {
                rest = walk(c, cl, i as int, hi as int);
                assert(w =~= out@ + rest);
            }
        }
        proof {
            if out@.len() <= SELECTION_LIMIT {
                assert(rest =~= Seq::<usize>::empty());
                assert(w =~= out@);
            }
        }
        out
    }
}

/// Lower bound of `pair` in a strictly sorted list, and whether it is there.
pub(crate) fn search_sorted(v: &Vec<Pair>, pair: Pair) -> (r: (usize, bool))
    requires
        pairs_strictly_sorted(v@),
    ensures
        r.0 <= v@.len(),
        forall|i: int| 0 <= i < r.0 ==> pair_lt(#[trigger] v@[i], pair),
        forall|i: int| r.0 <= i < v@.len() ==> pair_lt(pair, #[trigger] v@[i]) || v@[i] == pair,
        r.1 == v@.contains(pair),
        r.1 ==> v@[r.0 as int] == pair,
{
    let mut lo: usize = 0;
    let mut hi: usize = v.len();
    while lo < hi
        invariant
            lo <= hi <= v@.len(),
            pairs_strictly_sorted(v@),
            forall|i: int| 0 <= i < lo ==> pair_lt(#[trigger] v@[i], pair),
            forall|i: int| hi <= i < v@.len() ==> pair_lt(pair, #[trigger] v@[i]) || v@[i] == pair,
        decreases hi - lo,
    {
        let mid = lo + (hi - lo) / 2;
        if pair_less(v[mid], pair) {
            lo = mid + 1;
        } else {
            hi = mid;
        }
    }
    let found = lo < v.len() && pair_equal(v[lo], pair);
    proof {
        if !found {
            assert forall|i: int| 0 <= i < v@.len() implies v@[i] != pair by {
                if i > lo {
                    assert(pair_lt(v@[lo as int], v@[i]));
                }
            }
        }
    }
    (lo, found)
}

/// Adds `pair` to a strictly sorted list unless it is already there.
pub(crate) fn insert_sorted(v: &mut Vec<Pair>, pair: Pair) -> (added: bool)
    requires
        pairs_strictly_sorted(old(v)@),
    ensures
        added == !old(v)@.contains(pair),
        pairs_strictly_sorted(final(v)@),
        forall|x: Pair| #[trigger] final(v)@.contains(x) <==> old(v)@.contains(x) || x == pair,
        final(v)@.len() == old(v)@.len() + if added { 1int } else { 0int },
{
    let (pos, found) = search_sorted(v, pair);
    if found {
        return false;
    }
    let ghost before = v@;
    v.insert(pos, pair);
    proof {
        let after = v@;
        assert(after == before.insert(pos as int, pair));
        assert forall|i: int, j: int| 0 <= i < j < after.len() implies pair_lt(
            #[trigger] after[i],
            #[trigger] after[j],
        ) by {
            if i == pos {
                assert(after[j] == before[j - 1]);
                assert(before[j - 1] != pair);
            } else if j == pos {
                assert(after[i] == before[i]);
            } else {
                let ii = if i < pos { i } else { i - 1 };
                let jj = if j < pos { j } else { j - 1 };
                assert(after[i] == before[ii] && after[j] == before[jj]);
            }
        }
        assert forall|x: Pair| #[trigger] after.contains(x) <==> before.contains(x) || x == pair by {
            if after.contains(x) {
                let i = choose|i: int| 0 <= i < after.len() && #[trigger] after[i] == x;
                if i < pos {
                    assert(before[i] == x);
                } else if i > pos {
                    assert(before[i - 1] == x);
                }
            }
            if before.contains(x) {
                let i = choose|i: int| 0 <= i < before.len() && #[trigger] before[i] == x;
                if i < pos {
                    assert(after[i] == x);
                } else {
                    assert(after[i + 1] == x);
                }
            }
            if x == pair {
                assert(after[pos as int] == x);
            }
        }
    }
    true
}

proof fn lemma_group_end_at(groups: Seq<(Pair, usize)>, k: int)
    requires
        groups_sorted(groups),
        0 <= k < groups.len(),
    ensures
        group_end(groups, groups[k].0) == Some(groups[k].1),
{
    let pair = groups[k].0;
    assert(exists|k: int| 0 <= k < groups.len() && #[trigger] groups[k].0 == pair);
    let kk = choose|k: int| 0 <= k < groups.len() && #[trigger] groups[k].0 == pair;
    if kk < k {
        assert(pair_lt(groups[kk].0, groups[k].0));
    } else if kk > k {
        assert(pair_lt(groups[k].0, groups[kk].0));
    }
}

impl LayerCatalog {
    #[verifier::type_invariant]
    closed spec fn inv(self) -> bool {
        catalog_wf(self@)
    }

    /// The end of the group keyed by `pair`.
    fn group_of(&self, pair: Pair) -> (r: Option<usize>)
        ensures
            r == group_end(self@.groups, pair),
    {
        proof {
            use_type_invariant(self);
        }
        let g = &self.groups;
        let mut lo: usize = 0;
        let mut hi: usize = g.len();
        while lo < hi
            invariant
                lo <= hi <= g@.len(),
                g@ == self@.groups,
                groups_sorted(g@),
                forall|i: int| 0 <= i < lo ==> pair_lt(#[trigger] g@[i].0, pair),
                forall|i: int| hi <= i < g@.len() ==> pair_lt(pair, #[trigger] g@[i].0) || g@[i].0 == pair,
            decreases hi - lo,
        {
            let mid = lo + (hi - lo) / 2;
            if pair_less(g[mid].0, pair) {
                lo = mid + 1;
            } else {
                hi = mid;
            }
        }
        if lo < g.len() && pair_equal(g[lo].0, pair) {
            proof {
                lemma_group_end_at(g@, lo as int);
            }
            Some(g[lo].1)
        } else {
            proof {
                assert forall|i: int| 0 <= i < g@.len() implies #[trigger] g@[i].0 != pair by {
                    if i > lo {
                        assert(pair_lt(g@[lo as int].0, g@[i].0));
                    }
                }
            }
            None
        }
    }

    /// Validates a fold against this catalogue: at most `SELECTION_LIMIT`
    /// exceptions, each a distinct group.
    pub fn closed(&self, fold: Fold) -> (r: Result<Closed, &'static str>)
        ensures
            r is Ok <==> fold_valid(self@, fold.exceptions@),
            r is Err ==> r->Err_0 == "invalid_palette",
            r matches Ok(cl) ==> cl@.default == fold.closed && forall|p: Pair|
                #[trigger] cl@.exceptions.contains(p) <==> fold.exceptions@.contains(p),
    {
        if fold.exceptions.len() > SELECTION_LIMIT {
            return Err("invalid_palette");
        }
        let ghost ex = fold.exceptions@;
        let mut set: Vec<Pair> = Vec::new();
        let mut i: usize = 0;
        while i < fold.exceptions.len()
            invariant
                i <= ex.len() <= SELECTION_LIMIT,
                ex == fold.exceptions@,
                pairs_strictly_sorted(set@),
                forall|p: Pair| #[trigger] set@.contains(p) <==> ex.take(i as int).contains(p),
                forall|k: int| 0 <= k < i ==> (#[trigger] group_end(self@.groups, ex[k])) is Some,
                ex.take(i as int).no_duplicates(),
            decreases ex.len() - i,
        {
            let p = fold.exceptions[i];
            if self.group_of(p).is_none() {
                return Err("invalid_palette");
            }
            if !insert_sorted(&mut set, p) {
                proof {
                    let k = choose|k: int| 0 <= k < i && #[trigger] ex.take(i as int)[k] == p;
                    assert(ex[k] == ex[i as int]);
                }
                return Err("invalid_palette");
            }
            proof {
                assert(ex.take(i + 1) == ex.take(i as int).push(p));
                assert forall|q: Pair| #[trigger] ex.take(i + 1).contains(q) <==> ex.take(i as int).contains(q) || q == p by {
                    if ex.take(i + 1).contains(q) {
                        let k = choose|k: int| 0 <= k < i + 1 && #[trigger] ex.take(i + 1)[k] == q;
                        if k < i {
                            assert(ex.take(i as int)[k] == q);
                        }
                    }
                    if ex.take(i as int).contains(q) {
                        let k = choose|k: int| 0 <= k < i && #[trigger] ex.take(i as int)[k] == q;
                        assert(ex.take(i + 1)[k] == q);
                    }
                    if q == p {
                        assert(ex.take(i + 1)[i as int] == q);
                    }
                }
                assert(!ex.take(i as int).contains(p));
                assert forall|a: int, b: int| 0 <= a < b < i + 1 implies #[trigger] ex.take(i + 1)[a] != #[trigger] ex.take(i + 1)[b] by {
                    if b == i {
                        assert(ex.take(i as int)[a] == ex.take(i + 1)[a]);
                    } else {
                        assert(ex.take(i as int)[a] == ex.take(i + 1)[a]);
                        assert(ex.take(i as int)[b] == ex.take(i + 1)[b]);
                    }
                }
            }
            i = i + 1;
        }
        assert(ex.take(ex.len() as int) =~= ex);
        Ok(Closed { default: fold.closed, exceptions: set })
    }
}

proof fn lemma_next_visible(c: CatalogView, cl: ClosedView, i: int)
    requires
        catalog_wf(c),
        0 <= i < c.rows.len(),
    ensures
        i < next_visible(c, cl, i) <= c.rows.len(),
{
    let pair = c.rows[i].pair;
    if closed_contains(cl, pair) {
        if exists|k: int| 0 <= k < c.groups.len() && #[trigger] c.groups[k].0 == pair {
            let k = choose|k: int| 0 <= k < c.groups.len() && #[trigger] c.groups[k].0 == pair;
            assert(c.rows[i].pair == c.groups[k].0);
        }
    }
}

proof fn lemma_walk_step(c: CatalogView, cl: ClosedView, i: int, hi: int)
    requires
        catalog_wf(c),
        0 <= i < c.rows.len(),
        i <= hi,
    ensures
        walk(c, cl, i, hi) == seq![i as usize] + walk(c, cl, next_visible(c, cl, i), hi),
{
    lemma_next_visible(c, cl, i);
}

proof fn lemma_walk_len(c: CatalogView, cl: ClosedView, i: int, hi: int)
    requires
        catalog_wf(c),
        0 <= i,
    ensures
        walk(c, cl, i, hi).len() <= c.rows.len() - i || walk(c, cl, i, hi).len() == 0,
        forall|k: int| 0 <= k < walk(c, cl, i, hi).len() ==> i <= #[trigger] walk(c, cl, i, hi)[k] < c.rows.len(),
    decreases c.rows.len() - i,
{
    if 0 <= i < c.rows.len() && i <= hi {
        lemma_next_visible(c, cl, i);
        let nx = next_visible(c, cl, i);
        lemma_walk_len(c, cl, nx, hi);
        let w = walk(c, cl, i, hi);
        assert(w == seq![i as usize] + walk(c, cl, nx, hi));
        assert forall|k: int| 0 <= k < w.len() implies i <= #[trigger] w[k] < c.rows.len() by {
            if k > 0 {
                assert(w[k] == walk(c, cl, nx, hi)[k - 1]);
            }
        }
    }
}

impl LayerCatalog {
    /// The visible row after `i`.
    fn next_index(&self, closed: &Closed, i: usize) -> (nx: usize)
        requires
            i < self@.rows.len(),
        ensures
            nx == next_visible(self@, closed@, i as int),
            i < nx <= self@.rows.len(),
    {
        proof {
            use_type_invariant(self);
            lemma_next_visible(self@, closed@, i as int);
            assert(self.rows@.len() == self@.rows.len());
        }
        let pair = self.rows[i].pair;
        if closed.contains(pair) {
            match self.group_of(pair) {
                Some(e) => e,
                None => i + 1,
            }
        } else {
            i + 1
        }
    }

    /// Jumps over closed spans before pagination: the page starting at
    /// position `start` of the visible order, and the number of visible
    /// rows. Neither a huge collapsed group nor a late page copies the
    /// visible order.
    pub fn page_indices(&self, start: usize, closed: &Closed) -> (r: Result<(usize, Vec<usize>), &'static str>)
        ensures
            r is Err <==> start > visible(self@, closed@).len(),
            r is Err ==> r->Err_0 == "invalid_palette",
            r matches Ok((total, page)) ==> {
                let v = visible(self@, closed@);
                &&& total == v.len()
                &&& page@ == v.subrange(
                    start as int,
                    if start + PAGE < v.len() {
                        start + PAGE
                    } else {
                        v.len() as int
                    },
                )
            },
    {
        proof {
            use_type_invariant(self);
        }
        let ghost c = self@;
        let ghost cl = closed@;
        let n = self.rows.len();
        let ghost v = visible(c, cl);
        let ghost mut visited: Seq<usize> = Seq::empty();
        let mut page: Vec<usize> = Vec::new();
        let mut total: usize = 0;
        let mut i: usize = 0;
        proof {
            lemma_walk_len(c, cl, 0, n as int);
        }
        while i < n
            invariant
                c == self@,
                cl == closed@,
                catalog_wf(c),
                n == c.rows.len(),
                i <= n,
                v == visible(c, cl),
                v == visited + walk(c, cl, i as int, n as int),
                total == visited.len(),
                total <= i,
                page@ == visited.subrange(
                    if start < total { start as int } else { total as int },
                    if start + PAGE < total { start + PAGE } else { total as int },
                ),
            decreases n - i,
        {
            proof {
                lemma_walk_step(c, cl, i as int, n as int);
            }
            if total >= start && page.len() < PAGE {
                page.push(i);
            }
            proof {
                visited = visited.push(i);
                assert(v == visited + walk(c, cl, next_visible(c, cl, i as int), n as int));
                assert(page@ =~= visited.subrange(
                    if start < total + 1 { start as int } else { total + 1 },
                    if start + PAGE < total + 1 { start + PAGE } else { total + 1 },
                ));
            }
            total = total + 1;
            i = self.next_index(closed, i);
        }
        proof {
            assert(walk(c, cl, n as int, n as int) =~= Seq::<usize>::empty());
            assert(v =~= visited);
        }
        if start > total {
            return Err("invalid_palette");
        }
        Ok((total, page))
    }
}

impl LayerCatalog {
    /// The index of the first row with `pair`.
    fn find(&self, pair: Pair) -> (r: Option<usize>)
        ensures
            match find_row(self@.rows, pair) {
                Some(i) => r == Some(i as usize),
                None => r is None,
            },
    {
        proof {
            use_type_invariant(self);
        }
        let ghost rows = self@.rows;
        let mut lo: usize = 0;
        let mut hi: usize = self.rows.len();
        while lo < hi
            invariant
                lo <= hi <= rows.len(),
                rows == self@.rows,
                rows.len() == self.rows@.len(),
                rows_sorted(rows),
                forall|i: int| 0 <= i < lo ==> pair_lt(#[trigger] rows[i].pair, pair),
                forall|i: int| hi <= i < rows.len() ==> pair_le(pair, #[trigger] rows[i].pair),
            decreases hi - lo,
        {
            let mid = lo + (hi - lo) / 2;
            assert(self.rows@[mid as int]@ == rows[mid as int]);
            if pair_less(self.rows[mid].pair, pair) {
                proof {
                    assert forall|i: int| 0 <= i < mid + 1 implies pair_lt(#[trigger] rows[i].pair, pair) by {
                        if i < mid {
                            assert(pair_le(rows[i].pair, rows[mid as int].pair));
                        }
                    }
                }
                lo = mid + 1;
            } else {
                proof {
                    assert forall|i: int| mid <= i < rows.len() implies pair_le(pair, #[trigger] rows[i].pair) by {
                        if i > mid {
                            assert(pair_le(rows[mid as int].pair, rows[i].pair));
                        }
                    }
                }
                hi = mid;
            }
        }
        if lo < self.rows.len() && pair_equal(self.rows[lo].pair, pair) {
            proof {
                assert(self.rows@[lo as int]@ == rows[lo as int]);
                assert(rows[lo as int].pair == pair);
                assert(forall|j: int| 0 <= j < lo ==> rows[j].pair != pair);
                assert(exists|i: int|
                    0 <= i < rows.len() && #[trigger] rows[i].pair == pair && forall|j: int|
                        0 <= j < i ==> rows[j].pair != pair);
                let i = choose|i: int|
                    0 <= i < rows.len() && #[trigger] rows[i].pair == pair && forall|j: int|
                        0 <= j < i ==> rows[j].pair != pair;
                if i < lo {
                    assert(pair_lt(rows[i].pair, pair));
                }
            }
            Some(lo)
        } else {
            proof {
                if lo < self.rows.len() {
                    assert(self.rows@[lo as int]@ == rows[lo as int]);
                }
                assert forall|i: int| 0 <= i < rows.len() implies #[trigger] rows[i].pair != pair by {
                    if i > lo {
                        assert(pair_le(rows[lo as int].pair, rows[i].pair));
                    }
                }
            }
            None
        }
    }

    fn anchor_index(&self, pair: Pair, closed: &Closed) -> (r: Result<usize, &'static str>)
        ensures
            match anchor(self@, closed@, pair) {
                Ok(i) => r == Ok::<usize, &'static str>(i as usize),
                Err(e) => r == Err::<usize, &'static str>(e),
            },
    {
        let i = match self.find(pair) {
            Some(i) => i,
            None => return Err("invalid_palette"),
        };
        proof {
            use_type_invariant(self);
            assert(self.rows@[i as int]@ == self@.rows[i as int]);
        }
        match self.rows[i].parent {
            Some(p) => if closed.contains(p) {
                Err("palette_anchor_hidden")
            } else {
                Ok(i)
            },
            None => Ok(i),
        }
    }

    /// The visible rows between two anchors, both included, in either
    /// direction; folded children are skipped, and more than
    /// `SELECTION_LIMIT` rows fail without a partial answer.
    pub fn range_indices(&self, first: Pair, last: Pair, closed: &Closed) -> (r: Result<Vec<usize>, &'static str>)
        ensures
            match range_result(self@, closed@, first, last) {
                Ok(w) => r is Ok && r->Ok_0@ == w,
                Err(e) => r == Err::<Vec<usize>, &'static str>(e),
            },
    {
        proof {
            use_type_invariant(self);
        }
        let a = match self.anchor_index(first, closed) {
            Ok(i) => i,
            Err(e) => return Err(e),
        };
        let b = match self.anchor_index(last, closed) {
            Ok(i) => i,
            Err(e) => return Err(e),
        };
        let lo = if a < b { a } else { b };
        let hi = if a < b { b } else { a };
        let out = self.collect_walk(closed, lo, hi);
        if out.len() > SELECTION_LIMIT {
            return Err("palette_range_too_large");
        }
        Ok(out)
    }
}

/// A display label: at most the first 128 characters.
pub fn label(s: &str) -> (r: String)
    ensures
        r@ == if s@.len() <= 128 { s@ } else { s@.take(128) },
{
    let n = s.unicode_len();
    if n <= 128 {
        s.to_owned()
    } else {
        s.substring_char(0, 128).to_owned()
    }
}

impl LayerCatalog {
    /// The rows in pair order.
    pub fn rows(&self) -> (r: &Vec<Row>)
        ensures
            rows_view(r@) == self@.rows,
            catalog_wf(self@),
    {
        proof {
            use_type_invariant(self);
        }
        &self.rows
    }

    /// The groups as (first pair, end-exclusive row index), in pair order.
    pub fn groups(&self) -> (r: &Vec<(Pair, usize)>)
        ensures
            r@ == self@.groups,
    {
        &self.groups
    }

    /// Whether groups are physical datatype runs rather than synthetic heads.
    pub fn physical(&self) -> (r: bool)
        ensures
            r == self@.physical,
    {
        self.physical
    }

    /// The pairs of the given rows, in the given order.
    pub fn pairs(&self, indices: &Vec<usize>) -> (r: Vec<Pair>)
        requires
            forall|k: int| 0 <= k < indices@.len() ==> #[trigger] indices@[k] < self@.rows.len(),
        ensures
            r@.len() == indices@.len(),
            forall|k: int| 0 <= k < indices@.len() ==> #[trigger] r@[k] == self@.rows[indices@[k] as int].pair,
    {
        let mut out: Vec<Pair> = Vec::new();
        let mut k: usize = 0;
        while k < indices.len()
            invariant
                k <= indices@.len(),
                out@.len() == k,
                forall|j: int| 0 <= j < indices@.len() ==> #[trigger] indices@[j] < self@.rows.len(),
                forall|j: int| 0 <= j < k ==> #[trigger] out@[j] == self@.rows[indices@[j] as int].pair,
            decreases indices@.len() - k,
        {
            let i = indices[k];
            assert(self.rows@[i as int]@ == self@.rows[i as int]);
            out.push(self.rows[i].pair);
            k = k + 1;
        }
        out
    }
}


/// How a palette row is shown: its pair, whether it is drawn as a head, the
/// group head it is listed under, and whether its planes are drawn. A
/// folded read adds the row's number of children and whether its group is
/// folded.
#[derive(Clone, Copy, Debug, PartialEq, Eq)]
pub struct RowDisplay {
    pub pair: Pair,
    pub head: bool,
    pub parent: Option<Pair>,
    pub visible: bool,
    pub fold: Option<(usize, bool)>,
}

/// A render selection whose listed planes are strictly sorted.
pub open spec fn layers_sorted(l: Layers) -> bool {
    match l {
        Layers::Only(ps) => pairs_strictly_sorted(ps@),
        _ => true,
    }
}

/// Whether the render selection draws `pair`.
pub open spec fn selects(l: Layers, pair: Pair) -> bool {
    match l {
        Layers::All => true,
        Layers::Empty => false,
        Layers::Only(ps) => ps@.contains(pair),
    }
}

/// Whether the render selection lists some plane of `layer`.
pub open spec fn lists_layer(l: Layers, layer: u32) -> bool {
    match l {
        Layers::Only(ps) => exists|k: int| 0 <= k < ps@.len() && #[trigger] ps@[k].0 == layer,
        _ => false,
    }
}

/// The number of rows folded under row `i`.
pub open spec fn children_of(c: CatalogView, i: int) -> int {
    match group_end(c.groups, c.rows[i].pair) {
        Some(e) => e - i - 1,
        None => 0,
    }
}

/// How row `i` is shown under the render selection `l`, in a folded read
/// when `cl` is present. A selected hidden child makes its level head
/// visible; an unfolded read of a physical catalogue lists no parents.
pub open spec fn shown_row(c: CatalogView, l: Layers, i: int, cl: Option<ClosedView>) -> RowDisplay {
    let r = c.rows[i];
    let n = children_of(c, i);
    RowDisplay {
        pair: r.pair,
        head: if cl is Some {
            r.head || n > 0
        } else {
            r.head
        },
        parent: if cl is Some || !c.physical {
            r.parent
        } else {
            None
        },
        visible: selects(l, r.pair) || (r.head && lists_layer(l, r.pair.0)),
        fold: match cl {
            Some(f) => Some((n as usize, n > 0 && closed_contains(f, r.pair))),
            None => None,
        },
    }
}

/// `rows` shows the catalogue rows at `idx`, in order.
pub open spec fn shows(c: CatalogView, l: Layers, idx: Seq<usize>, cl: Option<ClosedView>, rows: Seq<RowDisplay>) -> bool {
    &&& rows.len() == idx.len()
    &&& forall|k: int| 0 <= k < idx.len() ==> #[trigger] rows[k] == shown_row(c, l, idx[k] as int, cl)
}

pub open spec fn closed_view(closed: Option<&Closed>) -> Option<ClosedView> {
    match closed {
        Some(c) => Some(c@),
        None => None,
    }
}

/// The first position of a strictly sorted list whose layer is at least
/// `layer`.
fn first_of_layer(v: &Vec<Pair>, layer: u32) -> (k: usize)
    requires
        pairs_strictly_sorted(v@),
    ensures
        k <= v@.len(),
        forall|i: int| 0 <= i < k ==> (#[trigger] v@[i]).0 < layer,
        forall|i: int| k <= i < v@.len() ==> (#[trigger] v@[i]).0 >= layer,
{
    let mut lo: usize = 0;
    let mut hi: usize = v.len();
    while lo < hi
        invariant
            lo <= hi <= v@.len(),
            pairs_strictly_sorted(v@),
            forall|i: int| 0 <= i < lo ==> (#[trigger] v@[i]).0 < layer,
            forall|i: int| hi <= i < v@.len() ==> (#[trigger] v@[i]).0 >= layer,
        decreases hi - lo,
    {
        let mid = lo + (hi - lo) / 2;
        if v[mid].0 < layer {
            proof {
                assert forall|i: int| 0 <= i < mid + 1 implies (#[trigger] v@[i]).0 < layer by {
                    if i < mid {
                        assert(pair_lt(v@[i], v@[mid as int]));
                    }
                }
            }
            lo = mid + 1;
        } else {
            proof {
                assert forall|i: int| mid <= i < v@.len() implies (#[trigger] v@[i]).0 >= layer by {
                    if i > mid {
                        assert(pair_lt(v@[mid as int], v@[i]));
                    }
                }
            }
            hi = mid;
        }
    }
    lo
}

/// Whether the render selection draws `pair`.
pub(crate) fn draws(layers: &Layers, pair: Pair) -> (r: bool)
    requires
        layers_sorted(*layers),
    ensures
        r == selects(*layers, pair),
{
    match layers {
        Layers::All => true,
        Layers::Empty => false,
        Layers::Only(ps) => search_sorted(ps, pair).1,
    }
}

/// Whether the render selection lists some plane of `layer`.
fn lists(layers: &Layers, layer: u32) -> (r: bool)
    requires
        layers_sorted(*layers),
    ensures
        r == lists_layer(*layers, layer),
{
    match layers {
        Layers::Only(ps) => {
            let k = first_of_layer(ps, layer);
            let r = k < ps.len() && ps[k].0 == layer;
            proof {
                if !r {
                    assert forall|j: int| 0 <= j < ps@.len() implies (#[trigger] ps@[j]).0 != layer by {
                        if j > k {
                            assert(pair_lt(ps@[k as int], ps@[j]));
                        }
                    }
                }
            }
            r
        },
        _ => false,
    }
}

impl LayerCatalog {
    /// How the rows at `indices` are shown under the render selection
    /// `layers`; `closed` is the fold of a folded read.
    pub fn display_rows(&self, layers: &Layers, indices: &Vec<usize>, closed: Option<&Closed>) -> (r: Vec<RowDisplay>)
        requires
            layers_sorted(*layers),
            forall|k: int| 0 <= k < indices@.len() ==> #[trigger] indices@[k] < self@.rows.len(),
        ensures
            shows(self@, *layers, indices@, closed_view(closed), r@),
    {
        proof {
            use_type_invariant(self);
        }
        let ghost c = self@;
        let ghost cl = closed_view(closed);
        let mut out: Vec<RowDisplay> = Vec::new();
        let mut k: usize = 0;
        while k < indices.len()
            invariant
                c == self@,
                catalog_wf(c),
                cl == closed_view(closed),
                layers_sorted(*layers),
                k <= indices@.len(),
                forall|j: int| 0 <= j < indices@.len() ==> #[trigger] indices@[j] < c.rows.len(),
                out@.len() == k,
                forall|j: int| 0 <= j < k ==> #[trigger] out@[j] == shown_row(c, *layers, indices@[j] as int, cl),
            decreases indices@.len() - k,
        {
            let i = indices[k];
            let r = &self.rows[i];
            proof {
                assert(self.rows@[i as int]@ == c.rows[i as int]);
            }
            let pair = r.pair;
            let visible = draws(layers, pair) || (r.head && lists(layers, pair.0));
            let parent = if closed.is_some() || !self.physical {
                r.parent
            } else {
                None
            };
            let (head, fold) = match closed {
                Some(f) => {
                    let children: usize = match self.group_of(pair) {
                        Some(end) => {
                            proof {
                                let g = c.groups;
                                let kk = choose|kk: int| 0 <= kk < g.len() && #[trigger] g[kk].0 == pair;
                                assert(c.rows[i as int].pair == g[kk].0);
                            }
                            end - i - 1
                        },
                        None => 0,
                    };
                    (r.head || children > 0, Some((children, children > 0 && f.contains(pair))))
                },
                None => (r.head, None),
            };
            out.push(RowDisplay { pair, head, parent, visible, fold });
            k = k + 1;
        }
        out
    }
}


/// A palette read: a page of the visible order from `start`, or the
/// inclusive range between two anchors, each under its fold.
pub enum PaletteRead {
    Page { start: usize, fold: Fold },
    Range { first: Pair, last: Pair, fold: Fold },
}

/// A page of rows: the length of the order it pages, where it starts, where
/// the next page starts if one follows, and the rows.
pub struct PalettePage {
    pub total: usize,
    pub start: usize,
    pub next: Option<usize>,
    pub rows: Vec<RowDisplay>,
}

/// The answer to a palette read.
pub enum PaletteReply {
    /// A folded page, and the number of rows of the whole catalogue.
    Page { page: PalettePage, all_total: usize },
    /// The pairs of a range in visible order, and those of them that key a
    /// group.
    Range { pairs: Vec<Pair>, groups: Vec<Pair> },
}

/// A fold as the view it is validated into.
pub open spec fn fold_view(f: Fold) -> ClosedView {
    ClosedView { default: f.closed, exceptions: f.exceptions@ }
}

/// `p` is the page of `order` from `start`, shown under `l` and `cl`.
pub open spec fn page_of(c: CatalogView, l: Layers, order: Seq<usize>, start: int, cl: Option<ClosedView>, p: PalettePage) -> bool {
    let end = if start + PAGE < order.len() {
        start + PAGE
    } else {
        order.len() as int
    };
    &&& p.total == order.len()
    &&& p.start == start
    &&& p.next == if start + PAGE < order.len() {
        Some((start + PAGE) as usize)
    } else {
        None::<usize>
    }
    &&& shows(c, l, order.subrange(start, end), cl, p.rows@)
}

/// The pairs of the rows at `w`.
pub open spec fn pairs_at(c: CatalogView, w: Seq<usize>) -> Seq<Pair> {
    w.map_values(|i: usize| c.rows[i as int].pair)
}

/// The pairs among `ps` that key a group.
pub open spec fn group_keys(c: CatalogView, ps: Seq<Pair>) -> Seq<Pair> {
    ps.filter(|p: Pair| group_end(c.groups, p) is Some)
}

/// Two folds that fold the same groups walk alike.
proof fn lemma_walk_same_fold(c: CatalogView, a: ClosedView, b: ClosedView, i: int, hi: int)
    requires
        forall|p: Pair| #[trigger] closed_contains(a, p) == closed_contains(b, p),
    ensures
        walk(c, a, i, hi) == walk(c, b, i, hi),
    decreases c.rows.len() - i,
{
    if 0 <= i < c.rows.len() && i <= hi {
        assert(closed_contains(a, c.rows[i].pair) == closed_contains(b, c.rows[i].pair));
        let nx = next_visible(c, a, i);
        assert(nx == next_visible(c, b, i));
        if i < nx <= c.rows.len() {
            lemma_walk_same_fold(c, a, b, nx, hi);
        }
    }
}

impl LayerCatalog {
    /// Answers a palette read under the render selection `layers`. A fold
    /// that names a non-group, repeats a group or has too many exceptions,
    /// and a page that starts beyond the visible order, are refused; a
    /// range fails as its anchors and its length require.
    pub fn read(&self, layers: &Layers, request: PaletteRead) -> (r: Result<PaletteReply, &'static str>)
        requires
            layers_sorted(*layers),
        ensures
            match request {
                PaletteRead::Page { start, fold } => {
                    let v = visible(self@, fold_view(fold));
                    if !fold_valid(self@, fold.exceptions@) || start > v.len() {
                        r == Err::<PaletteReply, &'static str>("invalid_palette")
                    } else {
                        r matches Ok(PaletteReply::Page { page, all_total }) && all_total == self@.rows.len()
                            && page_of(self@, *layers, v, start as int, Some(fold_view(fold)), page)
                    }
                },
                PaletteRead::Range { first, last, fold } => {
                    if !fold_valid(self@, fold.exceptions@) {
                        r == Err::<PaletteReply, &'static str>("invalid_palette")
                    } else {
                        match range_result(self@, fold_view(fold), first, last) {
                            Err(e) => r == Err::<PaletteReply, &'static str>(e),
                            Ok(w) => r matches Ok(PaletteReply::Range { pairs, groups }) && pairs@ == pairs_at(
                                self@,
                                w,
                            ) && groups@ == group_keys(self@, pairs@),
                        }
                    }
                },
            },
    {
        proof {
            use_type_invariant(self);
        }
        let ghost c = self@;
        match request {
            PaletteRead::Page { start, fold } => {
                let ghost fv = fold_view(fold);
                let closed = match self.closed(fold) {
                    Ok(cl) => cl,
                    Err(e) => return Err(e),
                };
                proof {
                    assert forall|p: Pair| #[trigger] closed_contains(closed@, p) == closed_contains(fv, p) by {}
                    lemma_walk_same_fold(c, closed@, fv, 0, c.rows.len() as int);
                    lemma_walk_len(c, closed@, 0, c.rows.len() as int);
                }
                let (total, indices) = match self.page_indices(start, &closed) {
                    Ok(x) => x,
                    Err(e) => return Err(e),
                };
                proof {
                    let v = visible(c, closed@);
                    assert forall|k: int| 0 <= k < indices@.len() implies #[trigger] indices@[k] < c.rows.len() by {
                        assert(indices@[k] == v[start + k]);
                    }
                }
                let rows = self.display_rows(layers, &indices, Some(&closed));
                proof {
                    let v = visible(c, fv);
                    let end = if start + PAGE < v.len() {
                        start + PAGE
                    } else {
                        v.len() as int
                    };
                    assert forall|k: int| 0 <= k < indices@.len() implies #[trigger] rows@[k] == shown_row(
                        c,
                        *layers,
                        v.subrange(start as int, end)[k] as int,
                        Some(fv),
                    ) by {
                        let i = indices@[k] as int;
                        assert(closed_contains(closed@, c.rows[i].pair) == closed_contains(fv, c.rows[i].pair));
                    }
                }
                let end = start + rows.len();
                let next = if end < total {
                    Some(end)
                } else {
                    None
                };
                Ok(PaletteReply::Page { page: PalettePage { total, start, next, rows }, all_total: self.rows.len() })
            },
            PaletteRead::Range { first, last, fold } => {
                let ghost fv = fold_view(fold);
                let closed = match self.closed(fold) {
                    Ok(cl) => cl,
                    Err(e) => return Err(e),
                };
                proof {
                    assert forall|p: Pair| #[trigger] closed_contains(closed@, p) == closed_contains(fv, p) by {}
                    assert(anchor(c, closed@, first) == anchor(c, fv, first));
                    assert(anchor(c, closed@, last) == anchor(c, fv, last));
                    if let (Ok(a), Ok(b)) = (anchor(c, fv, first), anchor(c, fv, last)) {
                        let lo = if a < b { a } else { b };
                        let hi = if a < b { b } else { a };
                        lemma_walk_same_fold(c, closed@, fv, lo, hi);
                        lemma_walk_len(c, closed@, lo, hi);
                    }
                }
                let indices = match self.range_indices(first, last, &closed) {
                    Ok(w) => w,
                    Err(e) => return Err(e),
                };
                let ghost w = indices@;
                let mut pairs: Vec<Pair> = Vec::new();
                let mut groups: Vec<Pair> = Vec::new();
                let mut k: usize = 0;
                while k < indices.len()
                    invariant
                        c == self@,
                        catalog_wf(c),
                        w == indices@,
                        forall|j: int| 0 <= j < w.len() ==> #[trigger] w[j] < c.rows.len(),
                        k <= w.len(),
                        pairs@ == pairs_at(c, w.take(k as int)),
                        groups@ == group_keys(c, pairs@),
                    decreases w.len() - k,
                {
                    let i = indices[k];
                    assert(self.rows@[i as int]@ == c.rows[i as int]);
                    let pair = self.rows[i].pair;
                    let ghost before = pairs@;
                    pairs.push(pair);
                    let keyed = self.group_of(pair).is_some();
                    if keyed {
                        groups.push(pair);
                    }
                    proof {
                        assert(pairs@ =~= pairs_at(c, w.take(k + 1)));
                        let pred = |p: Pair| group_end(c.groups, p) is Some;
                        assert(pairs@.drop_last() =~= before);
                        reveal(Seq::filter);
                        assert(group_keys(c, pairs@) == if pred(pair) {
                            group_keys(c, before).push(pair)
                        } else {
                            group_keys(c, before)
                        });
                    }
                    k = k + 1;
                }
                proof {
                    assert(w.take(w.len() as int) =~= w);
                }
                Ok(PaletteReply::Range { pairs, groups })
            },
        }
    }

    /// An unfolded page of the whole catalogue from `start`, in row order;
    /// none when `start` lies beyond the rows.
    pub fn page(&self, layers: &Layers, start: usize) -> (r: Option<PalettePage>)
        requires
            layers_sorted(*layers),
        ensures
            start > self@.rows.len() ==> r is None,
            start <= self@.rows.len() ==> (r matches Some(p) && page_of(
                self@,
                *layers,
                all_positions(self@.rows.len()),
                start as int,
                None,
                p,
            )),
    {
        let n = self.rows.len();
        if start > n {
            return None;
        }
        let end = if n - start > PAGE {
            start + PAGE
        } else {
            n
        };
        let mut indices: Vec<usize> = Vec::new();
        let mut i: usize = start;
        while i < end
            invariant
                start <= i <= end <= n,
                n == self@.rows.len(),
                indices@ == all_positions(n as nat).subrange(start as int, i as int),
            decreases end - i,
        {
            indices.push(i);
            i = i + 1;
            proof {
                assert(indices@ =~= all_positions(n as nat).subrange(start as int, i as int));
            }
        }
        let rows = self.display_rows(layers, &indices, None);
        let next = if end < n {
            Some(end)
        } else {
            None
        };
        Some(PalettePage { total: n, start, next, rows })
    }
}

} // verus!
