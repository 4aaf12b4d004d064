//! The SVRF rule types a DRC review offers as filters: each metric with the
//! number of checks it covers. Empty metadata offers no types, so no check
//! is "other" there; in nonempty metadata an unmatched check is "other".
use vstd::prelude::*;

verus! {

/// The metric types of a metadata snapshot, in catalogue order.
pub struct TypeCatalog {
    types: Vec<(String, usize)>,
}

pub open spec fn names_metric(types: Seq<(Seq<char>, usize)>, metric: Seq<char>) -> bool {
    exists|k: int| 0 <= k < types.len() && (#[trigger] types[k]).0 == metric
}

pub open spec fn types_view(v: Seq<(String, usize)>) -> Seq<(Seq<char>, usize)> {
    v.map_values(|t: (String, usize)| (t.0@, t.1))
}

/// Whether one of `ms` is `metric`.
pub open spec fn lists_metric(ms: Seq<String>, metric: Seq<char>) -> bool {
    exists|k: int| 0 <= k < ms.len() && (#[trigger] ms[k])@ == metric
}

/// A page of types: whether metadata is loaded, the rows, where the next
/// page starts and how many types there are.
pub struct TypePage {
    pub available: bool,
    pub rows: Vec<(String, usize)>,
    pub next: Option<usize>,
    pub total: usize,
}

fn same(a: &str, b: &str) -> (r: bool)
    ensures
        r == (a@ == b@),
{
    String::from_str(a) == String::from_str(b)
}

impl TypeCatalog {
    pub closed spec fn spec_types(&self) -> Seq<(Seq<char>, usize)> {
        types_view(self.types@)
    }

    pub fn new(types: Vec<(String, usize)>) -> (r: TypeCatalog)
        ensures
            r.spec_types() == types_view(types@),
    {
        TypeCatalog { types }
    }

    /// Whether `metric` is one of the types.
    pub fn has_type(&self, metric: &str) -> (r: bool)
        ensures
            r == names_metric(self.spec_types(), metric@),
    {
        let ghost t = self.spec_types();
        let mut k: usize = 0;
        while k < self.types.len()
            invariant
                k <= self.types@.len(),
                t == types_view(self.types@),
                forall|j: int| 0 <= j < k ==> (#[trigger] t[j]).0 != metric@,
            decreases self.types@.len() - k,
        {
            if same(self.types[k].0.as_str(), metric) {
                assert(t[k as int].0 == metric@);
                return true;
            }
            k = k + 1;
        }
        false
    }

    /// Whether a check of the rule whose metrics are `rule_metrics` (none
    /// for a check no rule describes) falls under `metric`.
    pub fn matches(&self, rule_metrics: Option<&Vec<String>>, metric: &str) -> (r: bool)
        ensures
            r == (self.spec_types().len() > 0 && match rule_metrics {
                None => metric@ == "other"@,
                Some(ms) => lists_metric(ms@, metric@),
            }),
    {
        if self.types.len() == 0 {
            return false;
        }
        assert(self.spec_types().len() == self.types@.len());
        match rule_metrics {
            None => same(metric, "other"),
            Some(ms) => {
                let mut k: usize = 0;
                while k < ms.len()
                    invariant
                        k <= ms@.len(),
                        self.spec_types().len() > 0,
                        rule_metrics == Some(ms),
                        forall|j: int| 0 <= j < k ==> (#[trigger] ms@[j])@ != metric@,
                    decreases ms@.len() - k,
                {
                    if same(ms[k].as_str(), metric) {
                        assert(ms@[k as int]@ == metric@);
                        assert(lists_metric(ms@, metric@));
                        return true;
                    }
                    k = k + 1;
                }
                false
            },
        }
    }
}

/// The page of types from `start`, at most `limit` of them; a start beyond
/// the types is refused. Without metadata there are no types.
pub fn type_page(catalog: Option<&TypeCatalog>, start: usize, limit: usize) -> (r: Result<TypePage, &'static str>)
    ensures
        ({
            let t = match catalog {
                Some(c) => c.spec_types(),
                None => Seq::<(Seq<char>, usize)>::empty(),
            };
            let end = if start + limit < t.len() {
                start + limit
            } else {
                t.len() as int
            };
            if start > t.len() {
                r == Err::<TypePage, &'static str>("DRC type cursor")
            } else {
                r matches Ok(p) && p.available == catalog is Some && p.total == t.len() && types_view(p.rows@)
                    == t.subrange(start as int, end) && p.next == (if end < t.len() {
                    Some(end as usize)
                } else {
                    None::<usize>
                })
            }
        }),
{
    let empty: Vec<(String, usize)> = Vec::new();
    let types = match catalog {
        Some(c) => &c.types,
        None => &empty,
    };
    let n = types.len();
    if start > n {
        return Err("DRC type cursor");
    }
    let end = if n - start > limit {
        start + limit
    } else {
        n
    };
    let mut rows: Vec<(String, usize)> = Vec::new();
    let mut k: usize = start;
    while k < end
        invariant
            start <= k <= end <= n,
            n == types@.len(),
            types_view(rows@) == types_view(types@).subrange(start as int, k as int),
        decreases end - k,
    {
        let name = types[k].0.clone();
        let count = types[k].1;
        let ghost r0 = rows@;
        let ghost nv = name@;
        rows.push((name, count));
        proof {
            assert(rows@ == r0.push((name, count)));
            assert(types_view(rows@) =~= types_view(r0).push((nv, count)));
            assert(types_view(types@)[k as int] == (nv, count));
            assert(types_view(rows@) =~= types_view(types@).subrange(start as int, k + 1));
        }
        k = k + 1;
    }
    let next = if end < n {
        Some(end)
    } else {
        None
    };
    Ok(TypePage { available: catalog.is_some(), rows, next, total: n })
}

} // verus!
