//! A short commit fence for one DRC reader. A fence captures the reader's
//! current token; it passes only while the reader is open, not changing and
//! still holds that token. A change retires the token before it starts, so an
//! uncertain or cancelled change never revives an old fence.
use crate::auth::{is_public_id, public_id};
use vstd::prelude::*;
use vstd::string::StringExecFns;

verus! {

pub const CONTEXT_CHANGED: &'static str = "drc_context_changed";

pub const BUSY: &'static str = "drc_busy";

pub const CLOSED: &'static str = "drc_closed";

pub const READ_ERROR: &'static str = "drc_read_error";

/// The fence state of a reader.
#[derive(Debug)]
pub struct Revision {
    token: String,
    changing: bool,
    closed: bool,
}

/// A revision's state in specifications: its token, whether a change is in
/// progress, and whether the reader is closed.
pub struct RevisionView {
    pub token: Seq<char>,
    pub changing: bool,
    pub closed: bool,
}

/// The token that a caller read; it guards later commits.
#[derive(Debug, Clone)]
pub struct Fence {
    token: String,
}

impl Fence {
    pub closed spec fn token_view(&self) -> Seq<char> {
        self.token@
    }
}

/// Whether a commit under a fence holding `token` may go ahead.
pub open spec fn is_current(r: RevisionView, token: Seq<char>) -> bool {
    !r.closed && !r.changing && r.token == token
}

impl View for Revision {
    type V = RevisionView;

    closed spec fn view(&self) -> RevisionView {
        RevisionView { token: self.token@, changing: self.changing, closed: self.closed }
    }
}

fn same(a: &String, b: &str) -> (r: bool)
    ensures
        r == (a@ == b@),
{
    *a == String::from_str(b)
}

impl Revision {
    pub fn new(token: String) -> (r: Revision)
        ensures
            r@ == (RevisionView { token: token@, changing: false, closed: false }),
    {
        Revision { token, changing: false, closed: false }
    }

    /// The current token and whether a change is in progress.
    pub fn snapshot(&self) -> (r: (String, bool))
        ensures
            r.0@ == self@.token,
            r.1 == self@.changing,
    {
        (self.token.clone(), self.changing)
    }

    /// Whether a fence holding `token` may commit now.
    pub fn current(&self, token: &str) -> (r: Result<(), &'static str>)
        ensures
            r is Ok <==> is_current(self@, token@),
            r is Err ==> r->Err_0 == CONTEXT_CHANGED,
    {
        if self.closed || self.changing || !same(&self.token, token) {
            return Err(CONTEXT_CHANGED);
        }
        Ok(())
    }

    /// A fence on `expected`, if that is the current token.
    pub fn capture(&self, expected: &str) -> (r: Result<Fence, &'static str>)
        ensures
            r is Ok <==> is_current(self@, expected@),
            r is Err ==> r->Err_0 == CONTEXT_CHANGED,
            r matches Ok(f) ==> f.token_view() == expected@,
    {
        match self.current(expected) {
            Ok(()) => Ok(Fence { token: String::from_str(expected) }),
            Err(e) => Err(e),
        }
    }

    /// Starts a change under a fresh token, where `expected` (if given) is
    /// still the current token. The old token is retired at once.
    pub fn begin_at(&mut self, expected: Option<&str>) -> (r: Result<(), &'static str>)
        ensures
            r is Ok ==> !old(self)@.closed && !old(self)@.changing && (expected matches Some(
                v,
            ) ==> v@ == old(self)@.token) && final(self)@.changing && !final(self)@.closed
                && is_public_id(final(self)@.token),
            r is Err ==> final(self)@ == old(self)@,
            old(self)@.closed ==> r == Err::<(), &'static str>(CLOSED) || r == Err::<(), &'static str>(
                READ_ERROR,
            ),
            !old(self)@.closed && old(self)@.changing ==> r == Err::<(), &'static str>(BUSY) || r
                == Err::<(), &'static str>(READ_ERROR),
            !old(self)@.closed && !old(self)@.changing && (expected matches Some(v) && v@ != old(
                self,
            )@.token) ==> r == Err::<(), &'static str>(CONTEXT_CHANGED) || r == Err::<
                (),
                &'static str,
            >(READ_ERROR),
            r is Err ==> r->Err_0 == CLOSED || r->Err_0 == BUSY || r->Err_0 == CONTEXT_CHANGED
                || r->Err_0 == READ_ERROR,
    {
        let next = match public_id() {
            Ok(id) => id,
            Err(_) => return Err(READ_ERROR),
        };
        self.advance(expected, next)
    }

    /// The decision of a change, given the fresh token it would install.
    pub fn advance(&mut self, expected: Option<&str>, next: String) -> (r: Result<(), &'static str>)
        ensures
            r is Ok <==> !old(self)@.closed && !old(self)@.changing && (expected matches Some(
                v,
            ) ==> v@ == old(self)@.token),
            r is Ok ==> final(self)@ == (RevisionView {
                token: next@,
                changing: true,
                closed: false,
            }),
            r is Err ==> final(self)@ == old(self)@,
            old(self)@.closed ==> r == Err::<(), &'static str>(CLOSED),
            !old(self)@.closed && old(self)@.changing ==> r == Err::<(), &'static str>(BUSY),
            !old(self)@.closed && !old(self)@.changing && r is Err ==> r == Err::<
                (),
                &'static str,
            >(CONTEXT_CHANGED),
    {
        if self.closed {
            return Err(CLOSED);
        }
        if self.changing {
            return Err(BUSY);
        }
        match expected {
            Some(v) => if !same(&self.token, v) {
                return Err(CONTEXT_CHANGED);
            },
            None => {},
        }
        self.token = next;
        self.changing = true;
        Ok(())
    }

    /// Ends a change, whether it succeeded, failed or was cancelled. The
    /// token it installed stays: the old one is never restored.
    pub fn finish(&mut self)
        ensures
            final(self)@ == (RevisionView { changing: false, ..old(self)@ }),
    {
        self.changing = false;
    }

    /// Closes the reader for good.
    pub fn close(&mut self)
        ensures
            final(self)@ == (RevisionView { closed: true, ..old(self)@ }),
    {
        self.closed = true;
    }
}

impl Fence {
    /// Whether this fence still guards the revision.
    pub fn check(&self, r: &Revision) -> (res: Result<(), &'static str>)
        ensures
            res is Ok <==> is_current(r@, self.token_view()),
            res is Err ==> res->Err_0 == CONTEXT_CHANGED,
    {
        r.current(self.token.as_str())
    }
}

/// While a change is in progress, or once the reader is closed, no fence
/// passes. Closing is final: ending a change leaves the reader closed.
pub proof fn law_changing_or_closed_fails_closed(r: RevisionView, token: Seq<char>)
    requires
        r.changing || r.closed,
    ensures
        !is_current(r, token),
        r.closed ==> !is_current(RevisionView { changing: false, ..r }, token),
{
}

} // verus!
