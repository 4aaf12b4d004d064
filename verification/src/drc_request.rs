//! DRC read requests as the wire sends them, and their checked decoding into
//! commands for the reader. Every refusal is `invalid_drc_request`.
//!
//! Bounding boxes stay text here: the library bounds each coordinate's length
//! and the caller reads the coordinates as floating-point numbers.
use crate::drc::{CursorDto, StepCursorDto};
use crate::service::counter_value;
use crate::wire::{canonical_u64, number, utf8};
use crate::drc::index;
use crate::service::counter;
use vstd::prelude::*;

verus! {

pub const REFUSED: &'static str = "invalid_drc_request";

/// Longest text of one bounding-box coordinate.
pub const COORDINATE_TEXT: usize = 80;

/// Longest rule search text, in bytes.
pub const SEARCH_TEXT: usize = 256;

/// Longest metric name, in bytes.
pub const METRIC_TEXT: usize = 64;

/// Most checks one query may name.
pub const QUERY_CHECKS: usize = 128;

/// Largest page of most listings.
pub const PAGE_LIMIT: usize = 64;

/// Largest page of geometry points.
pub const GEOMETRY_LIMIT: usize = 2048;

#[derive(Debug)]
pub enum Request {
    List {
        check: String,
        start: String,
        waived: Option<bool>,
        limit: usize,
        in_view: bool,
        selection_rev: Option<String>,
    },
    FilteredStep {
        check: String,
        backwards: bool,
        after: Option<String>,
        cursor: Option<StepCursorDto>,
        waived: Option<bool>,
        in_view: bool,
        selection_rev: Option<String>,
    },
    Rules {
        start: String,
        search: String,
        limit: usize,
        metric: Option<String>,
        waived: Option<bool>,
    },
    Types { start: String, limit: usize },
    Rule { check: String },
    Errors { check: String, start: String, waived: Option<bool>, limit: usize },
    Geometry { check: String, error: String, start: String, limit: usize },
    Measurements { check: String, error: String },
    Comparison { check: String, error: String },
    Records { check: String, errors: Vec<String> },
    Focus { check: String, error: String, fit: bool, isolate: bool },
    Step {
        check: String,
        backwards: bool,
        after: Option<String>,
        cursor: Option<StepCursorDto>,
        waived: Option<bool>,
        bbox_um: Option<[String; 4]>,
    },
    InView { waived: Option<bool>, cursor: CursorDto, limit: usize },
    Query {
        bbox_um: [String; 4],
        checks: Option<Vec<String>>,
        waived: Option<bool>,
        cursor: CursorDto,
        limit: usize,
    },
}

#[derive(Clone, Copy, Debug, PartialEq, Eq)]
pub struct Cursor {
    pub check: usize,
    pub error: u64,
}

#[derive(Clone, Copy, Debug, PartialEq, Eq)]
pub struct StepCursor {
    pub next: u64,
    pub remaining: u64,
}

#[derive(Debug)]
pub struct StepRequest {
    pub check: usize,
    pub backwards: bool,
    pub after: Option<u64>,
    pub cursor: Option<StepCursor>,
    pub waived: Option<bool>,
    pub bbox_um: Option<[String; 4]>,
}

/// The view and selection filters of a listing, before the reader binds the
/// authoritative view and the selected errors.
#[derive(Clone, Copy, Debug, PartialEq, Eq)]
pub struct Filters {
    pub in_view: bool,
    pub selection_rev: Option<u64>,
}

#[derive(Debug)]
pub enum Command {
    List { check: usize, start: u64, waived: Option<bool>, limit: usize, filters: Filters },
    FilteredStep { request: StepRequest, filters: Filters },
    SelectionCandidates { check: Option<usize>, errors: Vec<u64>, waived: Option<bool> },
    Step(StepRequest),
    Rules {
        start: usize,
        search: String,
        limit: usize,
        metric: Option<String>,
        waived: Option<bool>,
    },
    Types { start: usize, limit: usize },
    Rule { check: usize },
    Errors { check: usize, start: u64, waived: Option<bool>, limit: usize },
    Geometry { check: usize, error: u64, start: usize, limit: usize },
    Measurements { check: usize, error: u64 },
    Comparison { check: usize, error: u64 },
    Focus { check: usize, error: u64, fit: bool, isolate: bool },
    InView { waived: Option<bool>, cursor: Cursor, limit: usize },
    Query {
        bbox_um: [String; 4],
        checks: Option<Vec<usize>>,
        waived: Option<bool>,
        cursor: Cursor,
        limit: usize,
    },
}

/// What Unicode lower-casing makes of a text.
pub uninterp spec fn lower_case(s: Seq<char>) -> Seq<char>;

/// `str::to_lowercase`: the text with every character lower-cased by the
/// Unicode rules, which depend on the text alone.
#[verifier::external_body]
fn to_lower(s: &str) -> (r: String)
    ensures
        r@ == lower_case(s@),
{
    s.to_lowercase()
}

/// The bytes of a text.
pub open spec fn bytes(s: String) -> Seq<u8> {
    utf8(s@)
}

pub open spec fn num(s: String) -> Option<u64> {
    canonical_u64(bytes(s))
}

pub open spec fn idx(s: String) -> Option<usize> {
    match num(s) {
        Some(v) => if v <= usize::MAX {
            Some(v as usize)
        } else {
            None
        },
        None => None,
    }
}

pub open spec fn within(n: usize, max: usize) -> bool {
    1 <= n <= max
}

pub open spec fn opt_num(o: Option<String>) -> Option<Option<u64>> {
    match o {
        Some(s) => match num(s) {
            Some(v) => Some(Some(v)),
            None => None,
        },
        None => Some(None),
    }
}

pub open spec fn opt_counter(o: Option<String>) -> Option<Option<u64>> {
    match o {
        Some(s) => match counter_value(bytes(s)) {
            Some(v) => Some(Some(v)),
            None => None,
        },
        None => Some(None),
    }
}

pub open spec fn step_cursor_of(c: Option<StepCursorDto>) -> Option<Option<StepCursor>> {
    match c {
        Some(d) => match (num(d.next), num(d.remaining)) {
            (Some(n), Some(m)) => Some(Some(StepCursor { next: n, remaining: m })),
            _ => None,
        },
        None => Some(None),
    }
}

pub open spec fn cursor_of(c: CursorDto) -> Option<Cursor> {
    match (idx(c.check), num(c.error)) {
        (Some(k), Some(e)) => Some(Cursor { check: k, error: e }),
        _ => None,
    }
}

pub open spec fn bbox_text_ok(b: [String; 4]) -> bool {
    forall|k: int| 0 <= k < 4 ==> #[trigger] bytes(b[k]).len() <= COORDINATE_TEXT
}

pub open spec fn metric_ok(m: Option<String>) -> bool {
    m matches Some(s) ==> 0 < bytes(s).len() <= METRIC_TEXT
}

pub open spec fn all_numbers(v: Seq<String>) -> bool {
    forall|k: int| 0 <= k < v.len() ==> (#[trigger] num(v[k])) is Some
}

pub open spec fn all_indices(v: Seq<String>) -> bool {
    forall|k: int| 0 <= k < v.len() ==> (#[trigger] idx(v[k])) is Some
}

pub open spec fn step_ok(
    check: String,
    after: Option<String>,
    cursor: Option<StepCursorDto>,
) -> bool {
    &&& !(after is Some && cursor is Some)
    &&& idx(check) is Some
    &&& opt_num(after) is Some
    &&& step_cursor_of(cursor) is Some
}

/// Whether a request decodes.
pub open spec fn accepted(r: Request, selection_input: usize) -> bool {
    match r {
        Request::List { check, start, limit, selection_rev, .. } => {
            &&& idx(check) is Some
            &&& num(start) is Some
            &&& within(limit, PAGE_LIMIT)
            &&& opt_counter(selection_rev) is Some
        },
        Request::FilteredStep { check, after, cursor, selection_rev, .. } => {
            &&& !(selection_rev is Some && cursor is Some)
            &&& step_ok(check, after, cursor)
            &&& opt_counter(selection_rev) is Some
        },
        Request::Rules { start, search, limit, metric, .. } => {
            &&& bytes(search).len() <= SEARCH_TEXT
            &&& metric_ok(metric)
            &&& idx(start) is Some
            &&& within(limit, PAGE_LIMIT)
        },
        Request::Types { start, limit } => idx(start) is Some && within(limit, PAGE_LIMIT),
        Request::Rule { check } => idx(check) is Some,
        Request::Errors { check, start, limit, .. } => {
            &&& idx(check) is Some
            &&& num(start) is Some
            &&& within(limit, PAGE_LIMIT)
        },
        Request::Geometry { check, error, start, limit } => {
            &&& idx(check) is Some
            &&& num(error) is Some
            &&& idx(start) is Some
            &&& within(limit, GEOMETRY_LIMIT)
        },
        Request::Measurements { check, error } => idx(check) is Some && num(error) is Some,
        Request::Comparison { check, error } => idx(check) is Some && num(error) is Some,
        Request::Records { check, errors } => {
            &&& errors@.len() <= selection_input
            &&& idx(check) is Some
            &&& all_numbers(errors@)
        },
        Request::Focus { check, error, .. } => idx(check) is Some && num(error) is Some,
        Request::Step { check, after, cursor, bbox_um, .. } => {
            &&& step_ok(check, after, cursor)
            &&& (bbox_um matches Some(b) ==> bbox_text_ok(b))
        },
        Request::InView { cursor, limit, .. } => cursor_of(cursor) is Some && within(
            limit,
            PAGE_LIMIT,
        ),
        Request::Query { bbox_um, checks, cursor, limit, .. } => {
            &&& bbox_text_ok(bbox_um)
            &&& (checks matches Some(c) ==> c@.len() <= QUERY_CHECKS && all_indices(c@))
            &&& cursor_of(cursor) is Some
            &&& within(limit, PAGE_LIMIT)
        },
    }
}

/// `v` holds, in increasing order and once each, the indices that `texts`
/// name.
pub open spec fn index_set(v: Seq<usize>, texts: Seq<String>) -> bool {
    &&& forall|i: int, j: int| 0 <= i < j < v.len() ==> #[trigger] v[i] < #[trigger] v[j]
    &&& forall|x: usize|
        #[trigger] v.contains(x) <==> exists|k: int|
            0 <= k < texts.len() && #[trigger] idx(texts[k]) == Some(x)
}

pub open spec fn step_decodes(
    q: StepRequest,
    check: String,
    backwards: bool,
    after: Option<String>,
    cursor: Option<StepCursorDto>,
    waived: Option<bool>,
) -> bool {
    &&& Some(q.check) == idx(check)
    &&& q.backwards == backwards
    &&& Some(q.after) == opt_num(after)
    &&& Some(q.cursor) == step_cursor_of(cursor)
    &&& q.waived == waived
}

/// What an accepted request decodes to.
pub open spec fn decodes(r: Request, c: Command) -> bool {
    match r {
        Request::List { check, start, waived, limit, in_view, selection_rev } => c matches Command::List {
            check: k,
            start: s,
            waived: w,
            limit: l,
            filters,
        } && Some(k) == idx(check) && Some(s) == num(start) && w == waived && l == limit
            && filters.in_view == in_view && Some(filters.selection_rev) == opt_counter(selection_rev),
        Request::FilteredStep {
            check,
            backwards,
            after,
            cursor,
            waived,
            in_view,
            selection_rev,
        } => c matches Command::FilteredStep { request, filters } && step_decodes(
            request,
            check,
            backwards,
            after,
            cursor,
            waived,
        ) && request.bbox_um is None && filters.in_view == in_view && Some(filters.selection_rev)
            == opt_counter(selection_rev),
        Request::Rules { start, search, limit, metric, waived } => c matches Command::Rules {
            start: s,
            search: t,
            limit: l,
            metric: m,
            waived: w,
        } && Some(s) == idx(start) && t@ == lower_case(search@) && l == limit && m == metric && w
            == waived,
        Request::Types { start, limit } => c matches Command::Types { start: s, limit: l } && Some(s)
            == idx(start) && l == limit,
        Request::Rule { check } => c matches Command::Rule { check: k } && Some(k) == idx(check),
        Request::Errors { check, start, waived, limit } => c matches Command::Errors {
            check: k,
            start: s,
            waived: w,
            limit: l,
        } && Some(k) == idx(check) && Some(s) == num(start) && w == waived && l == limit,
        Request::Geometry { check, error, start, limit } => c matches Command::Geometry {
            check: k,
            error: e,
            start: s,
            limit: l,
        } && Some(k) == idx(check) && Some(e) == num(error) && Some(s) == idx(start) && l == limit,
        Request::Measurements { check, error } => c matches Command::Measurements {
            check: k,
            error: e,
        } && Some(k) == idx(check) && Some(e) == num(error),
        Request::Comparison { check, error } => c matches Command::Comparison { check: k, error: e }
            && Some(k) == idx(check) && Some(e) == num(error),
        Request::Records { check, errors } => c matches Command::SelectionCandidates {
            check: k,
            errors: e,
            waived: w,
        } && k == idx(check) && w is None && e@.len() == errors@.len() && forall|i: int|
            0 <= i < e@.len() ==> Some(#[trigger] e@[i]) == num(errors@[i]),
        Request::Focus { check, error, fit, isolate } => c matches Command::Focus {
            check: k,
            error: e,
            fit: f,
            isolate: i,
        } && Some(k) == idx(check) && Some(e) == num(error) && f == fit && i == isolate,
        Request::Step { check, backwards, after, cursor, waived, bbox_um } => c matches Command::Step(
            request,
        ) && step_decodes(request, check, backwards, after, cursor, waived) && request.bbox_um
            == bbox_um,
        Request::InView { waived, cursor, limit } => c matches Command::InView {
            waived: w,
            cursor: k,
            limit: l,
        } && w == waived && Some(k) == cursor_of(cursor) && l == limit,
        Request::Query { bbox_um, checks, waived, cursor, limit } => c matches Command::Query {
            bbox_um: b,
            checks: s,
            waived: w,
            cursor: k,
            limit: l,
        } && b == bbox_um && w == waived && Some(k) == cursor_of(cursor) && l == limit && (match checks {
            Some(t) => s matches Some(v) && index_set(v@, t@),
            None => s is None,
        }),
    }
}

fn limit(n: usize, max: usize) -> (r: Result<usize, &'static str>)
    ensures
        within(n, max) ==> r == Ok::<usize, &'static str>(n),
        !within(n, max) ==> r == Err::<usize, &'static str>(REFUSED),
{
    crate::drc::cap(n, max)
}

fn num_of(s: &String) -> (r: Result<u64, &'static str>)
    ensures
        match num(*s) {
            Some(v) => r == Ok::<u64, &'static str>(v),
            None => r == Err::<u64, &'static str>(REFUSED),
        },
{
    number(s.as_str())
}

fn idx_of(s: &String) -> (r: Result<usize, &'static str>)
    ensures
        match idx(*s) {
            Some(v) => r == Ok::<usize, &'static str>(v),
            None => r == Err::<usize, &'static str>(REFUSED),
        },
{
    index(s.as_str())
}

fn opt_num_of(o: &Option<String>) -> (r: Result<Option<u64>, &'static str>)
    ensures
        match opt_num(*o) {
            Some(v) => r == Ok::<Option<u64>, &'static str>(v),
            None => r == Err::<Option<u64>, &'static str>(REFUSED),
        },
{
    match o {
        Some(s) => match num_of(s) {
            Ok(v) => Ok(Some(v)),
            Err(e) => Err(e),
        },
        None => Ok(None),
    }
}

fn opt_counter_of(o: &Option<String>) -> (r: Result<Option<u64>, &'static str>)
    ensures
        match opt_counter(*o) {
            Some(v) => r == Ok::<Option<u64>, &'static str>(v),
            None => r == Err::<Option<u64>, &'static str>(REFUSED),
        },
{
    match o {
        Some(s) => match counter(s.as_str()) {
            Ok(v) => Ok(Some(v)),
            Err(_) => Err(REFUSED),
        },
        None => Ok(None),
    }
}

fn step_cursor(c: &Option<StepCursorDto>) -> (r: Result<Option<StepCursor>, &'static str>)
    ensures
        match step_cursor_of(*c) {
            Some(v) => r == Ok::<Option<StepCursor>, &'static str>(v),
            None => r == Err::<Option<StepCursor>, &'static str>(REFUSED),
        },
{
    match c {
        Some(d) => {
            let next = match num_of(&d.next) {
                Ok(v) => v,
                Err(e) => return Err(e),
            };
            let remaining = match num_of(&d.remaining) {
                Ok(v) => v,
                Err(e) => return Err(e),
            };
            Ok(Some(StepCursor { next, remaining }))
        },
        None => Ok(None),
    }
}

fn cursor_from(c: &CursorDto) -> (r: Result<Cursor, &'static str>)
    ensures
        match cursor_of(*c) {
            Some(v) => r == Ok::<Cursor, &'static str>(v),
            None => r == Err::<Cursor, &'static str>(REFUSED),
        },
{
    let check = match idx_of(&c.check) {
        Ok(v) => v,
        Err(e) => return Err(e),
    };
    let error = match num_of(&c.error) {
        Ok(v) => v,
        Err(e) => return Err(e),
    };
    Ok(Cursor { check, error })
}

fn bbox_text(b: &[String; 4]) -> (r: bool)
    ensures
        r == bbox_text_ok(*b),
{
    let mut i: usize = 0;
    while i < 4
        invariant
            i <= 4,
            forall|k: int| 0 <= k < i ==> #[trigger] bytes(b[k]).len() <= COORDINATE_TEXT,
        decreases 4 - i,
    {
        let text: &str = b[i].as_str();
        if text.as_bytes().len() > COORDINATE_TEXT {
            assert(bytes(b[i as int]).len() > COORDINATE_TEXT);
            return false;
        }
        i = i + 1;
    }
    true
}

fn numbers(v: &Vec<String>) -> (r: Result<Vec<u64>, &'static str>)
    ensures
        r is Ok <==> all_numbers(v@),
        r is Err ==> r->Err_0 == REFUSED,
        r matches Ok(out) ==> out@.len() == v@.len() && forall|i: int|
            0 <= i < out@.len() ==> Some(#[trigger] out@[i]) == num(v@[i]),
{
    let mut out: Vec<u64> = Vec::new();
    let mut i: usize = 0;
    while i < v.len()
        invariant
            i <= v@.len(),
            out@.len() == i,
            forall|k: int| 0 <= k < i ==> Some(#[trigger] out@[k]) == num(v@[k]),
        decreases v@.len() - i,
    {
        match num_of(&v[i]) {
            Ok(n) => out.push(n),
            Err(e) => return Err(e),
        }
        i = i + 1;
    }
    assert forall|k: int| 0 <= k < v@.len() implies (#[trigger] num(v@[k])) is Some by {
        assert(Some(out@[k]) == num(v@[k]));
    }
    Ok(out)
}

pub open spec fn sorted_indices(v: Seq<usize>) -> bool {
    forall|i: int, j: int| 0 <= i < j < v.len() ==> #[trigger] v[i] < #[trigger] v[j]
}

fn insert_index(v: &mut Vec<usize>, x: usize)
    requires
        sorted_indices(old(v)@),
    ensures
        sorted_indices(final(v)@),
        forall|y: usize| #[trigger] final(v)@.contains(y) <==> old(v)@.contains(y) || y == x,
{
    let mut pos: usize = v.len();
    while pos > 0 && v[pos - 1] >= x
        invariant
            pos <= v@.len(),
            forall|i: int, j: int| 0 <= i < j < v@.len() ==> #[trigger] v@[i] < #[trigger] v@[j],
            forall|k: int| pos <= k < v@.len() ==> x <= #[trigger] v@[k],
        decreases pos,
    {
        pos = pos - 1;
    }
    if pos < v.len() && v[pos] == x {
        return;
    }
    let ghost before = v@;
    v.insert(pos, x);
    proof {
        let after = v@;
        assert(after == before.insert(pos as int, x));
        assert forall|i: int, j: int| 0 <= i < j < after.len() implies #[trigger] after[i]
            < #[trigger] after[j] by {
            if i == pos {
                assert(after[j] == before[j - 1]);
                if j - 1 > pos {
                    assert(before[pos as int] < before[j - 1]);
                }
            } else if j == pos {
                assert(after[i] == before[i]);
                if i < pos - 1 {
                    assert(before[i] < before[pos - 1]);
                }
            } else {
                let ii = if i < pos {
                    i
                } else {
                    i - 1
                };
                let jj = if j < pos {
                    j
                } else {
                    j - 1
                };
                assert(after[i] == before[ii] && after[j] == before[jj]);
            }
        }
        assert forall|y: usize| #[trigger] after.contains(y) <==> before.contains(y) || y == x by {
            if after.contains(y) {
                let i = choose|i: int| 0 <= i < after.len() && #[trigger] after[i] == y;
                if i < pos {
                    assert(before[i] == y);
                } else if i > pos {
                    assert(before[i - 1] == y);
                }
            }
            if before.contains(y) {
                let i = choose|i: int| 0 <= i < before.len() && #[trigger] before[i] == y;
                if i < pos {
                    assert(after[i] == y);
                } else {
                    assert(after[i + 1] == y);
                }
            }
            if y == x {
                assert(after[pos as int] == y);
            }
        }
    }
}

fn indices(texts: &Vec<String>) -> (r: Result<Vec<usize>, &'static str>)
    ensures
        r is Ok <==> all_indices(texts@),
        r is Err ==> r->Err_0 == REFUSED,
        r matches Ok(v) ==> index_set(v@, texts@),
{
    let mut out: Vec<usize> = Vec::new();
    let mut i: usize = 0;
    while i < texts.len()
        invariant
            i <= texts@.len(),
            forall|a: int, b: int| 0 <= a < b < out@.len() ==> #[trigger] out@[a] < #[trigger] out@[b],
            forall|k: int| 0 <= k < i ==> (#[trigger] idx(texts@[k])) is Some,
            forall|x: usize|
                #[trigger] out@.contains(x) <==> exists|k: int|
                    0 <= k < i && #[trigger] idx(texts@[k]) == Some(x),
        decreases texts@.len() - i,
    {
        let n = match idx_of(&texts[i]) {
            Ok(n) => n,
            Err(e) => return Err(e),
        };
        insert_index(&mut out, n);
        proof {
            assert forall|x: usize| #[trigger] out@.contains(x) <==> exists|k: int|
                0 <= k < i + 1 && #[trigger] idx(texts@[k]) == Some(x) by {
                if out@.contains(x) && x != n {
                    let k = choose|k: int| 0 <= k < i && #[trigger] idx(texts@[k]) == Some(x);
                }
                if exists|k: int| 0 <= k < i + 1 && #[trigger] idx(texts@[k]) == Some(x) {
                    let k = choose|k: int| 0 <= k < i + 1 && #[trigger] idx(texts@[k]) == Some(x);
                    if k < i {
                        assert(exists|k: int| 0 <= k < i && #[trigger] idx(texts@[k]) == Some(x));
                    }
                }
            }
        }
        i = i + 1;
    }
    Ok(out)
}

/// The `in_view` flag of a request that carries one: a list or a filtered
/// step restricted to the caller's view.
pub open spec fn in_view_flag(r: Request) -> Option<bool> {
    match r {
        Request::List { in_view, .. } => Some(in_view),
        Request::FilteredStep { in_view, .. } => Some(in_view),
        _ => None,
    }
}

/// Which requests are sent with the caller's authoritative view: every
/// request whose `in_view` flag is set, whether a list or a filtered step,
/// and every focus and in-view listing; no other.
pub proof fn law_in_view_requests_need_the_view(r: Request)
    ensures
        in_view_flag(r) == Some(true) ==> r.spec_needs_view(),
        r is Focus || r is InView ==> r.spec_needs_view(),
        r.spec_needs_view() ==> in_view_flag(r) == Some(true) || r is Focus || r is InView,
{
}

/// A filtered step needs the view exactly when the list of the same rule
/// with the same `in_view` flag does.
pub proof fn law_filtered_step_needs_the_view_as_its_list(
    check: String,
    backwards: bool,
    after: Option<String>,
    cursor: Option<StepCursorDto>,
    waived: Option<bool>,
    in_view: bool,
    selection_rev: Option<String>,
    start: String,
    limit: usize,
)
    ensures
        (Request::FilteredStep { check, backwards, after, cursor, waived, in_view, selection_rev }).spec_needs_view()
            == (Request::List { check, start, waived, limit, in_view, selection_rev }).spec_needs_view(),
        (Request::FilteredStep { check, backwards, after, cursor, waived, in_view, selection_rev }).spec_needs_view()
            == in_view,
{
}

impl Request {
    /// A request that needs the caller's authoritative view.
    pub open spec fn spec_needs_view(&self) -> bool {
        ||| self is Focus
        ||| self is InView
        ||| (*self matches Request::List { in_view, .. } && in_view)
        ||| (*self matches Request::FilteredStep { in_view, .. } && in_view)
    }

    pub fn needs_view(&self) -> (r: bool)
        ensures
            r == self.spec_needs_view(),
    {
        match self {
            Request::Focus { .. } => true,
            Request::InView { .. } => true,
            Request::List { in_view, .. } => *in_view,
            Request::FilteredStep { in_view, .. } => *in_view,
            _ => false,
        }
    }

    /// A read that a guest may not make: metric rule listings, check types,
    /// comparisons and layer isolation.
    pub open spec fn spec_guest_forbidden(&self) -> bool {
        ||| (*self matches Request::Rules { metric, .. } && metric is Some)
        ||| self is Types
        ||| self is Comparison
        ||| (*self matches Request::Focus { isolate, .. } && isolate)
    }

    pub fn guest_forbidden(&self) -> (r: bool)
        ensures
            r == self.spec_guest_forbidden(),
    {
        match self {
            Request::Rules { metric, .. } => metric.is_some(),
            Request::Types { .. } => true,
            Request::Comparison { .. } => true,
            Request::Focus { isolate, .. } => *isolate,
            _ => false,
        }
    }

    /// The selection revision and check that a filtered listing names.
    pub fn selection_filter(&self) -> (r: Result<Option<(u64, usize)>, &'static str>)
        ensures
            match *self {
                Request::List { check, selection_rev, .. } | Request::FilteredStep {
                    check,
                    selection_rev,
                    ..
                } => match selection_rev {
                    Some(rev) => match (counter_value(bytes(rev)), idx(check)) {
                        (Some(v), Some(k)) => r == Ok::<Option<(u64, usize)>, &'static str>(
                            Some((v, k)),
                        ),
                        _ => r == Err::<Option<(u64, usize)>, &'static str>(REFUSED),
                    },
                    None => r == Ok::<Option<(u64, usize)>, &'static str>(None),
                },
                _ => r == Ok::<Option<(u64, usize)>, &'static str>(None),
            },
    {
        let (check, selection_rev) = match self {
            Request::List { check, selection_rev, .. } => (check, selection_rev),
            Request::FilteredStep { check, selection_rev, .. } => (check, selection_rev),
            _ => return Ok(None),
        };
        match selection_rev {
            Some(rev) => {
                let v = match counter(rev.as_str()) {
                    Ok(v) => v,
                    Err(_) => return Err(REFUSED),
                };
                let k = match idx_of(check) {
                    Ok(k) => k,
                    Err(e) => return Err(e),
                };
                Ok(Some((v, k)))
            },
            None => Ok(None),
        }
    }
}

impl Request {
    /// The command that a request decodes to. `selection_input` is the most
    /// error IDs that one selection may name.
    pub fn decode(self, selection_input: usize) -> (r: Result<Command, &'static str>)
        ensures
            r is Ok <==> accepted(self, selection_input),
            r is Err ==> r->Err_0 == REFUSED,
            r matches Ok(c) ==> decodes(self, c),
    {
        match self {
            Request::List { check, start, waived, limit: n, in_view, selection_rev } => {
                let check = match idx_of(&check) {
                    Ok(v) => v,
                    Err(e) => return Err(e),
                };
                let start = match num_of(&start) {
                    Ok(v) => v,
                    Err(e) => return Err(e),
                };
                let n = match limit(n, PAGE_LIMIT) {
                    Ok(v) => v,
                    Err(e) => return Err(e),
                };
                let rev = match opt_counter_of(&selection_rev) {
                    Ok(v) => v,
                    Err(e) => return Err(e),
                };
                Ok(
                    Command::List {
                        check,
                        start,
                        waived,
                        limit: n,
                        filters: Filters { in_view, selection_rev: rev },
                    },
                )
            },
            Request::FilteredStep {
                check,
                backwards,
                after,
                cursor,
                waived,
                in_view,
                selection_rev,
            } => {
                if after.is_some() && cursor.is_some() || selection_rev.is_some() && cursor.is_some() {
                    return Err(REFUSED);
                }
                let k = match idx_of(&check) {
                    Ok(v) => v,
                    Err(e) => return Err(e),
                };
                let a = match opt_num_of(&after) {
                    Ok(v) => v,
                    Err(e) => return Err(e),
                };
                let c = match step_cursor(&cursor) {
                    Ok(v) => v,
                    Err(e) => return Err(e),
                };
                let rev = match opt_counter_of(&selection_rev) {
                    Ok(v) => v,
                    Err(e) => return Err(e),
                };
                Ok(
                    Command::FilteredStep {
                        request: StepRequest {
                            check: k,
                            backwards,
                            after: a,
                            cursor: c,
                            waived,
                            bbox_um: None,
                        },
                        filters: Filters { in_view, selection_rev: rev },
                    },
                )
            },
            Request::Records { check, errors } => {
                if errors.len() > selection_input {
                    return Err(REFUSED);
                }
                let k = match idx_of(&check) {
                    Ok(v) => v,
                    Err(e) => return Err(e),
                };
                let ids = match numbers(&errors) {
                    Ok(v) => v,
                    Err(e) => return Err(e),
                };
                Ok(Command::SelectionCandidates { check: Some(k), errors: ids, waived: None })
            },
            Request::Step { check, backwards, after, cursor, waived, bbox_um } => {
                if after.is_some() && cursor.is_some() {
                    return Err(REFUSED);
                }
                let k = match idx_of(&check) {
                    Ok(v) => v,
                    Err(e) => return Err(e),
                };
                let a = match opt_num_of(&after) {
                    Ok(v) => v,
                    Err(e) => return Err(e),
                };
                let c = match step_cursor(&cursor) {
                    Ok(v) => v,
                    Err(e) => return Err(e),
                };
                match &bbox_um {
                    Some(b) => if !bbox_text(b) {
                        return Err(REFUSED);
                    },
                    None => {},
                }
                Ok(
                    Command::Step(
                        StepRequest { check: k, backwards, after: a, cursor: c, waived, bbox_um },
                    ),
                )
            },
            Request::Rules { start, search, limit: n, metric, waived } => {
                let too_long = search.as_str().as_bytes().len() > SEARCH_TEXT;
                let bad_metric = match &metric {
                    Some(m) => {
                        let len = m.as_str().as_bytes().len();
                        len == 0 || len > METRIC_TEXT
                    },
                    None => false,
                };
                if too_long || bad_metric {
                    return Err(REFUSED);
                }
                let s = match idx_of(&start) {
                    Ok(v) => v,
                    Err(e) => return Err(e),
                };
                let n = match limit(n, PAGE_LIMIT) {
                    Ok(v) => v,
                    Err(e) => return Err(e),
                };
                Ok(
                    Command::Rules {
                        start: s,
                        search: to_lower(search.as_str()),
                        limit: n,
                        metric,
                        waived,
                    },
                )
            },
            Request::Types { start, limit: n } => {
                let s = match idx_of(&start) {
                    Ok(v) => v,
                    Err(e) => return Err(e),
                };
                let n = match limit(n, PAGE_LIMIT) {
                    Ok(v) => v,
                    Err(e) => return Err(e),
                };
                Ok(Command::Types { start: s, limit: n })
            },
            Request::Rule { check } => match idx_of(&check) {
                Ok(k) => Ok(Command::Rule { check: k }),
                Err(e) => Err(e),
            },
            Request::Measurements { check, error } => {
                let k = match idx_of(&check) {
                    Ok(v) => v,
                    Err(e) => return Err(e),
                };
                let e = match num_of(&error) {
                    Ok(v) => v,
                    Err(e) => return Err(e),
                };
                Ok(Command::Measurements { check: k, error: e })
            },
            Request::Comparison { check, error } => {
                let k = match idx_of(&check) {
                    Ok(v) => v,
                    Err(e) => return Err(e),
                };
                let e = match num_of(&error) {
                    Ok(v) => v,
                    Err(e) => return Err(e),
                };
                Ok(Command::Comparison { check: k, error: e })
            },
            Request::Focus { check, error, fit, isolate } => {
                let k = match idx_of(&check) {
                    Ok(v) => v,
                    Err(e) => return Err(e),
                };
                let e = match num_of(&error) {
                    Ok(v) => v,
                    Err(e) => return Err(e),
                };
                Ok(Command::Focus { check: k, error: e, fit, isolate })
            },
            Request::InView { waived, cursor, limit: n } => {
                let c = match cursor_from(&cursor) {
                    Ok(v) => v,
                    Err(e) => return Err(e),
                };
                let n = match limit(n, PAGE_LIMIT) {
                    Ok(v) => v,
                    Err(e) => return Err(e),
                };
                Ok(Command::InView { waived, cursor: c, limit: n })
            },
            Request::Errors { check, start, waived, limit: n } => {
                let k = match idx_of(&check) {
                    Ok(v) => v,
                    Err(e) => return Err(e),
                };
                let s = match num_of(&start) {
                    Ok(v) => v,
                    Err(e) => return Err(e),
                };
                let n = match limit(n, PAGE_LIMIT) {
                    Ok(v) => v,
                    Err(e) => return Err(e),
                };
                Ok(Command::Errors { check: k, start: s, waived, limit: n })
            },
            Request::Geometry { check, error, start, limit: n } => {
                let k = match idx_of(&check) {
                    Ok(v) => v,
                    Err(e) => return Err(e),
                };
                let e = match num_of(&error) {
                    Ok(v) => v,
                    Err(e) => return Err(e),
                };
                let s = match idx_of(&start) {
                    Ok(v) => v,
                    Err(e) => return Err(e),
                };
                let n = match limit(n, GEOMETRY_LIMIT) {
                    Ok(v) => v,
                    Err(e) => return Err(e),
                };
                Ok(Command::Geometry { check: k, error: e, start: s, limit: n })
            },
            Request::Query { bbox_um, checks, waived, cursor, limit: n } => {
                if !bbox_text(&bbox_um) {
                    return Err(REFUSED);
                }
                let set = match &checks {
                    Some(c) => {
                        if c.len() > QUERY_CHECKS {
                            return Err(REFUSED);
                        }
                        match indices(c) {
                            Ok(v) => Some(v),
                            Err(e) => return Err(e),
                        }
                    },
                    None => None,
                };
                let k = match cursor_from(&cursor) {
                    Ok(v) => v,
                    Err(e) => return Err(e),
                };
                let n = match limit(n, PAGE_LIMIT) {
                    Ok(v) => v,
                    Err(e) => return Err(e),
                };
                Ok(Command::Query { bbox_um, checks: set, waived, cursor: k, limit: n })
            },
        }
    }
}


/// How a selection edit combines the named errors with those selected.
#[derive(Clone, Copy, Debug, PartialEq, Eq, Structural)]
pub enum SelectMode {
    Replace,
    Add,
    Toggle,
}

/// A selection edit as the owner sends it: apply errors of one rule, or
/// clear every selection.
#[derive(Debug)]
pub enum Edit {
    Apply { check: String, errors: Vec<String>, mode: SelectMode, bbox_um: Option<[String; 4]>, waived: Option<bool> },
    ClearAll {},
}

/// A decoded selection edit: the rule (none clears every selection), how it
/// applies, the errors, the box text and the waiver filter. The box's
/// coordinates are read as numbers by the caller.
#[derive(Debug)]
pub struct PreparedEdit {
    pub check: Option<usize>,
    pub mode: SelectMode,
    pub errors: Vec<u64>,
    pub bbox_um: Option<[String; 4]>,
    pub waived: Option<bool>,
}

impl PreparedEdit {
    /// A box edit needs the viewer's current view.
    pub fn needs_view(&self) -> (r: bool)
        ensures
            r == self.bbox_um is Some,
    {
        self.bbox_um.is_some()
    }
}

/// Whether a selection edit decodes: at most `selection_input` errors, a
/// rule index, canonical error numbers and bounded box text.
pub open spec fn edit_ok(e: Edit, selection_input: usize) -> bool {
    match e {
        Edit::ClearAll {} => true,
        Edit::Apply { check, errors, bbox_um, .. } => {
            &&& errors@.len() <= selection_input
            &&& idx(check) is Some
            &&& all_numbers(errors@)
            &&& (bbox_um matches Some(b) ==> bbox_text_ok(b))
        },
    }
}

impl Edit {
    /// Decodes a selection edit; every refusal is `invalid_drc_request`.
    pub fn prepare(self, selection_input: usize) -> (r: Result<PreparedEdit, &'static str>)
        ensures
            r is Ok <==> edit_ok(self, selection_input),
            r is Err ==> r->Err_0 == REFUSED,
            r matches Ok(p) ==> match self {
                Edit::ClearAll {} => p.check is None && p.mode == SelectMode::Replace && p.errors@.len() == 0
                    && p.bbox_um is None && p.waived is None,
                Edit::Apply { check, errors, mode, bbox_um, waived } => {
                    &&& p.check == idx(check)
                    &&& p.mode == mode
                    &&& p.errors@.len() == errors@.len()
                    &&& forall|i: int| 0 <= i < errors@.len() ==> Some(#[trigger] p.errors@[i]) == num(errors@[i])
                    &&& p.bbox_um == bbox_um
                    &&& p.waived == waived
                },
            },
    {
        match self {
            Edit::ClearAll {} => Ok(
                PreparedEdit { check: None, mode: SelectMode::Replace, errors: Vec::new(), bbox_um: None, waived: None },
            ),
            Edit::Apply { check, errors, mode, bbox_um, waived } => {
                if errors.len() > selection_input {
                    return Err(REFUSED);
                }
                let check = idx_of(&check)?;
                let errors = numbers(&errors)?;
                let box_ok = match &bbox_um {
                    Some(b) => bbox_text(b),
                    None => true,
                };
                if !box_ok {
                    return Err(REFUSED);
                }
                Ok(PreparedEdit { check: Some(check), mode, errors, bbox_um, waived })
            },
        }
    }
}

} // verus!
