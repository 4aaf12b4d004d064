//! Isolating a DRC rule's source layers among a view's physical planes.
//! Deck level and chip IDs are not physical GDS IDs, so a deck is never
//! isolated; an isolation too large to list is refused rather than cut.
use crate::layer_catalog::{insert_sorted, pairs_strictly_sorted, search_sorted, Pair};
use crate::scoped::Layers;
use std::sync::atomic::{AtomicUsize, Ordering};
use vstd::prelude::*;

verus! {

/// Most planes an explicit isolation lists.
pub const ISOLATE_PAIRS: usize = 4096;

/// Why an isolation was not computed.
#[derive(Clone, Copy, Debug, PartialEq, Eq, Structural)]
pub enum FocusError {
    /// The work was cancelled through its flag.
    Cancelled,
    /// The rule matches more planes than an isolation lists, but not all.
    Incomplete,
}

/// A rule source names plane `p`: its whole layer, or the exact plane.
pub open spec fn matched(src: Seq<(u32, Option<u32>)>, p: Pair) -> bool {
    src.contains((p.0, None::<u32>)) || src.contains((p.0, Some(p.1)))
}

/// The planes of `styles`, in order, that the rule source names.
pub open spec fn matching(src: Seq<(u32, Option<u32>)>, styles: Seq<Pair>) -> Seq<Pair> {
    styles.filter(|p: Pair| matched(src, p))
}

/// What isolating a rule gives when it is not cancelled.
pub enum Isolation {
    /// Visibility stays as it is, for the given reason.
    Unchanged(&'static str),
    /// Every plane matches.
    All(nat),
    /// Exactly these planes match.
    Only(Seq<Pair>),
    /// Too many planes match to list.
    TooMany,
}

pub open spec fn isolation(src: Option<Seq<(u32, Option<u32>)>>, styles: Seq<Pair>, deck: bool) -> Isolation {
    if deck {
        Isolation::Unchanged("unsupported_deck")
    } else {
        match src {
            None => Isolation::Unchanged("no_rule"),
            Some(s) => if s.len() == 0 {
                Isolation::Unchanged("no_source_layers")
            } else {
                let m = matching(s, styles);
                if m.len() == 0 {
                    Isolation::Unchanged("no_match")
                } else if m.len() == styles.len() {
                    Isolation::All(m.len())
                } else if m.len() > ISOLATE_PAIRS {
                    Isolation::TooMany
                } else {
                    Isolation::Only(m)
                }
            },
        }
    }
}

/// Whether the work's cancellation flag, if it has one, is set. Other
/// holders share the flag, so nothing is known of the answer then.
fn cancelled(stop: Option<&AtomicUsize>) -> (r: bool)
    ensures
        stop is None ==> !r,
{
    match stop {
        Some(s) => s.load(Ordering::Relaxed) != 0,
        None => false,
    }
}

/// What an isolation answers when it is not cancelled: the new layer
/// visibility (none leaves it unchanged), a status and the number of
/// planes matched, or a refusal when too many match to list.
pub open spec fn isolated(
    src: Option<Seq<(u32, Option<u32>)>>,
    styles: Seq<Pair>,
    deck: bool,
    r: Result<(Option<Layers>, &'static str, usize), FocusError>,
) -> bool {
    match isolation(src, styles, deck) {
        Isolation::Unchanged(st) => r == Ok::<(Option<Layers>, &'static str, usize), FocusError>((None, st, 0)),
        Isolation::All(n) => r matches Ok((Some(Layers::All), st, k)) && st == "ready" && k == n,
        Isolation::Only(v) => r matches Ok((Some(Layers::Only(ps)), st, k)) && st == "ready" && ps@ == v
            && k == v.len(),
        Isolation::TooMany => r == Err::<(Option<Layers>, &'static str, usize), FocusError>(
            FocusError::Incomplete,
        ),
    }
}

/// The rule source as a sequence, if there is one.
pub open spec fn source_view(source: Option<&Vec<(u32, Option<u32>)>>) -> Option<Seq<(u32, Option<u32>)>> {
    match source {
        Some(s) => Some(s@),
        None => None,
    }
}

/// The layers a rule source names as a whole, and the planes it names
/// exactly, each as a strictly sorted list; a whole layer `l` is held as
/// `(l, 0)`.
fn source_sets(src: &Vec<(u32, Option<u32>)>, stop: Option<&AtomicUsize>) -> (r: Result<(Vec<Pair>, Vec<Pair>), FocusError>)
    ensures
        r is Err ==> stop is Some && r == Err::<(Vec<Pair>, Vec<Pair>), FocusError>(FocusError::Cancelled),
        r matches Ok((wild, exact)) ==> {
            &&& pairs_strictly_sorted(wild@)
            &&& pairs_strictly_sorted(exact@)
            &&& forall|l: u32| #[trigger] wild@.contains((l, 0u32)) <==> src@.contains((l, None::<u32>))
            &&& forall|p: Pair| #[trigger] exact@.contains(p) <==> src@.contains((p.0, Some(p.1)))
        },
{
    let mut wild: Vec<Pair> = Vec::new();
    let mut exact: Vec<Pair> = Vec::new();
    let mut i: usize = 0;
    while i < src.len()
        invariant
            i <= src@.len(),
            pairs_strictly_sorted(wild@),
            pairs_strictly_sorted(exact@),
            forall|p: Pair| #[trigger] wild@.contains(p) <==> p.1 == 0 && src@.take(i as int).contains((p.0, None::<u32>)),
            forall|p: Pair| #[trigger] exact@.contains(p) <==> src@.take(i as int).contains((p.0, Some(p.1))),
        decreases src@.len() - i,
    {
        if i % 1024 == 0 && cancelled(stop) {
            return Err(FocusError::Cancelled);
        }
        let (l, d) = src[i];
        let ghost before = src@.take(i as int);
        let ghost after = src@.take(i + 1);
        proof {
            assert(after == before.push((l, d)));
            assert forall|x: (u32, Option<u32>)| #[trigger] after.contains(x) <==> before.contains(x) || x == (l, d) by {
                if after.contains(x) {
                    let k = choose|k: int| 0 <= k < after.len() && after[k] == x;
                    if k < before.len() {
                        assert(before[k] == x);
                    }
                }
                if before.contains(x) {
                    let k = choose|k: int| 0 <= k < before.len() && before[k] == x;
                    assert(after[k] == x);
                }
                if x == (l, d) {
                    assert(after[before.len() as int] == x);
                }
            }
        }
        match d {
            Some(d) => {
                insert_sorted(&mut exact, (l, d));
            },
            None => {
                insert_sorted(&mut wild, (l, 0));
            },
        }
        i = i + 1;
    }
    proof {
        assert(src@.take(src@.len() as int) =~= src@);
    }
    Ok((wild, exact))
}

/// Isolates the planes of `styles` that the rule `source` names, unless the
/// view is a deck. The answer is the new layer visibility (none leaves it
/// unchanged), a status and the number of planes matched. The flag `stop`
/// is read before the work and at every 1024th item; once it is seen set,
/// the work ends as cancelled.
pub fn select(
    source: Option<&Vec<(u32, Option<u32>)>>,
    styles: &Vec<Pair>,
    deck: bool,
    stop: &AtomicUsize,
) -> (r: Result<(Option<Layers>, &'static str, usize), FocusError>)
    ensures
        r == Err::<(Option<Layers>, &'static str, usize), FocusError>(FocusError::Cancelled) || isolated(
            source_view(source),
            styles@,
            deck,
            r,
        ),
{
    isolate_with(source, styles, deck, Some(stop))
}

/// Isolates the planes of `styles` that the rule `source` names, unless the
/// view is a deck, with no cancellation flag: the answer is the isolation
/// itself.
pub fn isolate(source: Option<&Vec<(u32, Option<u32>)>>, styles: &Vec<Pair>, deck: bool) -> (r: Result<
    (Option<Layers>, &'static str, usize),
    FocusError,
>)
    ensures
        isolated(source_view(source), styles@, deck, r),
{
    isolate_with(source, styles, deck, None)
}

fn isolate_with(
    source: Option<&Vec<(u32, Option<u32>)>>,
    styles: &Vec<Pair>,
    deck: bool,
    stop: Option<&AtomicUsize>,
) -> (r: Result<(Option<Layers>, &'static str, usize), FocusError>)
    ensures
        (stop is Some && r == Err::<(Option<Layers>, &'static str, usize), FocusError>(FocusError::Cancelled))
            || isolated(source_view(source), styles@, deck, r),
{
    if cancelled(stop) {
        return Err(FocusError::Cancelled);
    }
    if deck {
        return Ok((None, "unsupported_deck", 0));
    }
    let src = match source {
        Some(s) => s,
        None => return Ok((None, "no_rule", 0)),
    };
    if src.len() == 0 {
        return Ok((None, "no_source_layers", 0));
    }
    let (wild, exact) = source_sets(src, stop)?;
    let ghost pred = |p: Pair| matched(src@, p);
    let mut pairs: Vec<Pair> = Vec::new();
    let mut count: usize = 0;
    let mut i: usize = 0;
    while i < styles.len()
        invariant
            i <= styles@.len(),
            pred == (|p: Pair| matched(src@, p)),
            pairs_strictly_sorted(wild@),
            pairs_strictly_sorted(exact@),
            forall|l: u32| #[trigger] wild@.contains((l, 0u32)) <==> src@.contains((l, None::<u32>)),
            forall|p: Pair| #[trigger] exact@.contains(p) <==> src@.contains((p.0, Some(p.1))),
            count == styles@.take(i as int).filter(pred).len(),
            count <= i,
            pairs@ == if count <= ISOLATE_PAIRS {
                styles@.take(i as int).filter(pred)
            } else {
                styles@.take(i as int).filter(pred).take(ISOLATE_PAIRS as int)
            },
        decreases styles@.len() - i,
    {
        if i % 1024 == 0 && cancelled(stop) {
            return Err(FocusError::Cancelled);
        }
        let p = styles[i];
        let hit = search_sorted(&wild, (p.0, 0)).1 || search_sorted(&exact, p).1;
        let ghost m0 = styles@.take(i as int).filter(pred);
        proof {
            let s = styles@.take(i + 1);
            assert(s.drop_last() =~= styles@.take(i as int));
            assert(s.last() == p);
            reveal(Seq::filter);
            assert(hit == pred(p));
        }
        if hit {
            count = count + 1;
            if pairs.len() < ISOLATE_PAIRS {
                pairs.push(p);
            }
            proof {
                let m1 = styles@.take(i + 1).filter(pred);
                assert(m1 == m0.push(p));
                if count <= ISOLATE_PAIRS {
                    assert(pairs@ =~= m1);
                } else if count == ISOLATE_PAIRS + 1 {
                    assert(m0.len() == ISOLATE_PAIRS);
                    assert(pairs@ =~= m1.take(ISOLATE_PAIRS as int));
                } else {
                    assert(m0.take(ISOLATE_PAIRS as int) =~= m1.take(ISOLATE_PAIRS as int));
                }
            }
        }
        i = i + 1;
    }
    proof {
        assert(styles@.take(styles@.len() as int) =~= styles@);
    }
    if count == 0 {
        return Ok((None, "no_match", 0));
    }
    if count == styles.len() {
        return Ok((Some(Layers::All), "ready", count));
    }
    if count > ISOLATE_PAIRS {
        return Err(FocusError::Incomplete);
    }
    Ok((Some(Layers::Only(pairs)), "ready", count))
}

} // verus!
