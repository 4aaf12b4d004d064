//! Picker requests over approved roots: what each names, and the checks it
//! passes before it is admitted. A request carries only opaque handles,
//! never a path; a query is a bounded name fragment.
use crate::drc::{is_identity, identity_ok, OpenContext};
use crate::wire::utf8;
use vstd::prelude::*;
use vstd::string::{StrSliceExecFns, StringSliceAdditionalSpecFns};

verus! {

/// Longest listing query, in bytes.
pub const QUERY_BYTES: usize = 128;

/// Listing pages start below this row.
pub const PAGE_START_LIMIT: usize = 100_000;

/// A picker request. `F` is the listing's file filter, carried through.
#[derive(Debug)]
pub enum Request<F> {
    List { seq: String, directory: String, filter: F, query: String },
    Page { seq: String, snapshot: String, start: usize },
    Select { seq: String, handle: String },
    OpenDrc { seq: String, handle: String, context: OpenContext },
    ReconnectDrcReview { seq: String, context: OpenContext, approve: bool },
    LoadDrcRules { seq: String, handle: String, context: OpenContext },
}

/// The wire kind of each request.
pub open spec fn kind_of<F>(r: Request<F>) -> &'static str {
    match r {
        Request::List { .. } => "list",
        Request::Page { .. } => "page",
        Request::Select { .. } => "select",
        Request::OpenDrc { .. } => "open_drc",
        Request::ReconnectDrcReview { .. } => "reconnect_drc_review",
        Request::LoadDrcRules { .. } => "load_drc_rules",
    }
}

pub open spec fn seq_of<F>(r: Request<F>) -> Seq<char> {
    match r {
        Request::List { seq, .. } => seq@,
        Request::Page { seq, .. } => seq@,
        Request::Select { seq, .. } => seq@,
        Request::OpenDrc { seq, .. } => seq@,
        Request::ReconnectDrcReview { seq, .. } => seq@,
        Request::LoadDrcRules { seq, .. } => seq@,
    }
}

/// A control character: C0, DEL or C1.
pub open spec fn is_control(c: char) -> bool {
    (c as u32) < 0x20 || (0x7f <= (c as u32) && (c as u32) < 0xa0)
}

/// A listing query: at most `QUERY_BYTES` bytes, with no path separator, no
/// NUL and no control character.
pub open spec fn query_ok(q: Seq<char>) -> bool {
    &&& utf8(q).len() <= QUERY_BYTES
    &&& forall|i: int| 0 <= i < q.len() ==> (#[trigger] q[i]) != '/' && !is_control(q[i])
}

/// An open context is acceptable: see `OpenContext::validate`.
pub open spec fn context_ok(c: OpenContext) -> bool {
    &&& c.drc_id.is_some() == c.revision.is_some()
    &&& is_identity(utf8(c.view_id@))
    &&& (c.drc_id matches Some(d) ==> is_identity(utf8(d@)))
    &&& (c.revision matches Some(v) ==> is_identity(utf8(v@)))
}

/// What a request's checks answer, before any state is consulted.
pub open spec fn validity<F>(r: Request<F>, page_rows: usize) -> Result<(), &'static str> {
    match r {
        Request::ReconnectDrcReview { context, approve, .. } => if !approve || context.drc_id is None {
            Err("invalid_request")
        } else if !context_ok(context) {
            Err("invalid_drc_request")
        } else {
            Ok(())
        },
        Request::List { directory, query, .. } => if !query_ok(query@) || !is_identity(utf8(directory@)) {
            Err("invalid_request")
        } else {
            Ok(())
        },
        Request::Page { snapshot, start, .. } => if start % page_rows != 0 || start >= PAGE_START_LIMIT
            || !is_identity(utf8(snapshot@)) {
            Err("invalid_request")
        } else {
            Ok(())
        },
        Request::Select { handle, .. } => if is_identity(utf8(handle@)) {
            Ok(())
        } else {
            Err("invalid_request")
        },
        Request::LoadDrcRules { handle, context, .. } => if !context_ok(context) {
            Err("invalid_drc_request")
        } else if context.drc_id is None || !is_identity(utf8(handle@)) {
            Err("invalid_request")
        } else {
            Ok(())
        },
        Request::OpenDrc { handle, context, .. } => if !context_ok(context) {
            Err("invalid_drc_request")
        } else if !is_identity(utf8(handle@)) {
            Err("invalid_request")
        } else {
            Ok(())
        },
    }
}

fn is_control_char(c: char) -> (r: bool)
    ensures
        r == is_control(c),
{
    (c as u32) < 0x20 || (0x7f <= (c as u32) && (c as u32) < 0xa0)
}

/// Whether a listing query is acceptable.
pub fn query_acceptable(q: &str) -> (r: bool)
    ensures
        r == query_ok(q@),
{
    if q.as_bytes().len() > QUERY_BYTES {
        return false;
    }
    let n = q.unicode_len();
    let mut i: usize = 0;
    while i < n
        invariant
            i <= n,
            n == q@.len(),
            forall|k: int| 0 <= k < i ==> (#[trigger] q@[k]) != '/' && !is_control(q@[k]),
        decreases n - i,
    {
        let c = q.get_char(i);
        if c == '/' || is_control_char(c) {
            return false;
        }
        i = i + 1;
    }
    true
}

impl<F> Request<F> {
    /// The request's sequence text and wire kind.
    pub fn identity(&self) -> (r: (&str, &'static str))
        ensures
            r.0@ == seq_of(*self),
            r.1 == kind_of(*self),
    {
        match self {
            Request::List { seq, .. } => (seq.as_str(), "list"),
            Request::Page { seq, .. } => (seq.as_str(), "page"),
            Request::Select { seq, .. } => (seq.as_str(), "select"),
            Request::OpenDrc { seq, .. } => (seq.as_str(), "open_drc"),
            Request::ReconnectDrcReview { seq, .. } => (seq.as_str(), "reconnect_drc_review"),
            Request::LoadDrcRules { seq, .. } => (seq.as_str(), "load_drc_rules"),
        }
    }

    /// Checks what a request names before it is admitted: every handle and
    /// snapshot is an opaque identity, a page starts on a page boundary
    /// (`page_rows` rows) below `PAGE_START_LIMIT`, a query is a bounded name
    /// fragment, and a reconnection is approved and names a reader.
    pub fn validate(&self, page_rows: usize) -> (r: Result<(), &'static str>)
        requires
            page_rows > 0,
        ensures
            r == validity(*self, page_rows),
    {
        let token: &String = match self {
            Request::ReconnectDrcReview { context, approve, .. } => {
                if !*approve || context.drc_id.is_none() {
                    return Err("invalid_request");
                }
                context.validate()?;
                return Ok(());
            },
            Request::List { directory, query, .. } => {
                if !query_acceptable(query.as_str()) {
                    return Err("invalid_request");
                }
                directory
            },
            Request::Page { snapshot, start, .. } => {
                if *start % page_rows != 0 || *start >= PAGE_START_LIMIT {
                    return Err("invalid_request");
                }
                snapshot
            },
            Request::Select { handle, .. } => handle,
            Request::LoadDrcRules { handle, context, .. } => {
                context.validate()?;
                if context.drc_id.is_none() {
                    return Err("invalid_request");
                }
                handle
            },
            Request::OpenDrc { handle, context, .. } => {
                context.validate()?;
                handle
            },
        };
        if !identity_ok(token.as_str()) {
            return Err("invalid_request");
        }
        Ok(())
    }
}

} // verus!
