//! Explicit owner design-default drafts. Only the newest preparation can
//! become a draft, a draft belongs to the owner who prepared it and expires,
//! and an approval names the draft, its view and its state revision exactly.
//! Shutdown ends every draft for good.
use crate::auth::{is_public_id, public_id, SessionId};
use crate::service::{counter, counter_value};
use crate::wire::utf8;
use vstd::prelude::*;
use vstd::string::StringSliceAdditionalSpecFns;

verus! {

/// How long a draft stays valid, in nanoseconds.
pub const DEFAULT_DRAFT_NANOS: u64 = 30_000_000_000;

/// A prepared draft awaiting approval: its token, owner, view and state
/// revision, when it expires (nanoseconds), the name of the file it
/// replaces, and the draft itself.
pub struct Ready<D> {
    token: String,
    owner: SessionId,
    view_id: String,
    rev: u64,
    expires: u64,
    name: String,
    pub draft: D,
}

pub struct ReadyView {
    pub token: Seq<char>,
    pub owner: Seq<char>,
    pub view_id: Seq<char>,
    pub rev: u64,
    pub expires: u64,
    pub name: Seq<char>,
}

impl<D> Ready<D> {
    pub closed spec fn spec_view(&self) -> ReadyView {
        ReadyView {
            token: self.token@,
            owner: self.owner@,
            view_id: self.view_id@,
            rev: self.rev,
            expires: self.expires,
            name: self.name@,
        }
    }

    /// The draft itself.
    pub closed spec fn draft_view(&self) -> D {
        self.draft
    }

    /// The view the draft was prepared for.
    pub fn view_id(&self) -> (r: &str)
        ensures
            r@ == self.spec_view().view_id,
    {
        self.view_id.as_str()
    }

    /// The state revision the draft was prepared at.
    pub fn rev(&self) -> (r: u64)
        ensures
            r == self.spec_view().rev,
    {
        self.rev
    }

    /// The name of the file the draft replaces.
    pub fn name(&self) -> (r: &str)
        ensures
            r@ == self.spec_view().name,
    {
        self.name.as_str()
    }
}

/// The owner's design-default drafts: whether they are shut down, the serial
/// of the newest preparation, and the one draft awaiting approval.
pub struct Defaults<D> {
    closed: bool,
    serial: u64,
    ready: Option<Ready<D>>,
}

pub struct DefaultsView {
    pub closed: bool,
    pub serial: u64,
    pub ready: Option<ReadyView>,
}

impl<D> Defaults<D> {
    /// The draft awaiting approval, if any.
    pub closed spec fn ready_draft(&self) -> Option<D> {
        match self.ready {
            Some(r) => Some(r.draft),
            None => None,
        }
    }

    /// The draft after a change that keeps or drops it: none once nothing
    /// is ready, else the one held before.
    pub open spec fn kept_draft(before: Option<D>, after: DefaultsView) -> Option<D> {
        if after.ready is None {
            None
        } else {
            before
        }
    }
}

impl<D> View for Defaults<D> {
    type V = DefaultsView;

    closed spec fn view(&self) -> DefaultsView {
        DefaultsView {
            closed: self.closed,
            serial: self.serial,
            ready: match self.ready {
                Some(r) => Some(r.spec_view()),
                None => None,
            },
        }
    }
}

/// What `begin` answers: closed, busy while a publication is in progress,
/// out of serials, or the serial of the new preparation.
pub open spec fn begin_result(v: DefaultsView, active: bool) -> Result<u64, &'static str> {
    if v.closed {
        Err("closed")
    } else if active {
        Err("busy")
    } else if v.serial == u64::MAX {
        Err("default_draft_limit")
    } else {
        Ok((v.serial + 1) as u64)
    }
}

/// Whether an approval's wire fields are acceptable: canonical counters,
/// explicit approval, and a token and a view identity of 64 bytes each.
pub open spec fn approval(seq: Seq<char>, state_rev: Seq<char>, token: Seq<char>, view_id: Seq<char>, approve: bool) -> Result<
    (u64, u64),
    &'static str,
> {
    match counter_value(utf8(seq)) {
        None => Err("invalid_request"),
        Some(n) => match counter_value(utf8(state_rev)) {
            None => Err("invalid_request"),
            Some(r) => if !approve || utf8(token).len() != 64 || utf8(view_id).len() != 64 {
                Err("default_approval_required")
            } else {
                Ok((n, r))
            },
        },
    }
}

/// Checks an approval's wire fields, before any state is consulted, and
/// returns its sequence and state revision.
pub fn check_approval(seq: &str, state_rev: &str, token: &str, view_id: &str, approved: bool) -> (r: Result<(u64, u64), &'static str>)
    ensures
        r == approval(seq@, state_rev@, token@, view_id@, approved),
{
    let n = counter(seq)?;
    let rev = counter(state_rev)?;
    if !approved || token.as_bytes().len() != 64 || view_id.as_bytes().len() != 64 {
        return Err("default_approval_required");
    }
    Ok((n, rev))
}

fn same(a: &str, b: &str) -> (r: bool)
    ensures
        r == (a@ == b@),
{
    String::from_str(a) == String::from_str(b)
}

impl<D> Defaults<D> {
    /// Open, with no preparation and no draft.
    pub fn new() -> (r: Defaults<D>)
        ensures
            r@ == (DefaultsView { closed: false, serial: 0, ready: None }),
            r.ready_draft() is None,
    {
        Defaults { closed: false, serial: 0, ready: None }
    }

    pub fn is_closed(&self) -> (r: bool)
        ensures
            r == self@.closed,
    {
        self.closed
    }

    /// The draft awaiting approval.
    pub fn ready(&self) -> (r: Option<&Ready<D>>)
        ensures
            match r {
                Some(d) => self@.ready == Some(d.spec_view()) && self.ready_draft() == Some(d.draft_view()),
                None => self@.ready is None,
            },
    {
        match &self.ready {
            Some(d) => Some(d),
            None => None,
        }
    }

    /// Begins a preparation, unless the drafts are shut down or a
    /// publication is `active`. The new serial supersedes every earlier
    /// preparation, and any draft is dropped.
    pub fn begin(&mut self, active: bool) -> (r: Result<u64, &'static str>)
        ensures
            r == begin_result(old(self)@, active),
            r matches Ok(s) ==> final(self)@ == (DefaultsView { closed: false, serial: s, ready: None }),
            r is Err ==> final(self)@ == old(self)@,
            final(self).ready_draft() == Self::kept_draft(old(self).ready_draft(), final(self)@),
    {
        if self.closed {
            return Err("closed");
        }
        if active {
            return Err("busy");
        }
        if self.serial == u64::MAX {
            return Err("default_draft_limit");
        }
        self.serial = self.serial + 1;
        self.ready = None;
        Ok(self.serial)
    }

    /// Finishes preparation `serial` as `owner`'s draft for `view_id` at
    /// `state_rev`, valid for `DEFAULT_DRAFT_NANOS` from `now`, and returns
    /// its fresh token. A preparation that was superseded or outlived a
    /// shutdown is expired; a draft without a file name, or without an
    /// identity to give it, is unavailable.
    pub fn finish(
        &mut self,
        serial: u64,
        owner: SessionId,
        view_id: String,
        state_rev: &str,
        name: Option<String>,
        draft: D,
        now: u64,
    ) -> (r: Result<String, &'static str>)
        requires
            now <= u64::MAX - DEFAULT_DRAFT_NANOS,
        ensures
            r is Err ==> final(self)@ == old(self)@ && final(self).ready_draft() == old(self).ready_draft(),
            r is Ok ==> final(self).ready_draft() == Some(draft),
            old(self)@.closed || serial != old(self)@.serial ==> r == Err::<String, &'static str>("default_draft_expired"),
            !(old(self)@.closed || serial != old(self)@.serial) ==> match r {
                Err(e) => e == "default_unavailable" || (e == "invalid_request" && name is Some
                    && counter_value(utf8(state_rev@)) is None),
                Ok(t) => name is Some && is_public_id(t@) && final(self)@ == (DefaultsView {
                    closed: false,
                    serial,
                    ready: Some(
                        ReadyView {
                            token: t@,
                            owner: owner@,
                            view_id: view_id@,
                            rev: counter_value(utf8(state_rev@))->0,
                            expires: (now + DEFAULT_DRAFT_NANOS) as u64,
                            name: name->0@,
                        },
                    ),
                }),
            },
            !(old(self)@.closed || serial != old(self)@.serial) && name is None ==> r == Err::<String, &'static str>(
                "default_unavailable",
            ),
    {
        if self.closed || serial != self.serial {
            return Err("default_draft_expired");
        }
        let token = match public_id() {
            Ok(t) => t,
            Err(_) => return Err("default_unavailable"),
        };
        let name = match name {
            Some(n) => n,
            None => return Err("default_unavailable"),
        };
        let rev = counter(state_rev)?;
        let out = token.clone();
        self.ready = Some(Ready { token, owner, view_id, rev, expires: now + DEFAULT_DRAFT_NANOS, name, draft });
        Ok(out)
    }

    /// Claims the draft for an approval by `owner` of `token` for `view_id`
    /// at `rev`, at time `now`. Another owner's token, or none, is expired
    /// and leaves the draft; an expired draft, or one for another view or
    /// revision, is dropped. A claimed draft stays until it is taken.
    pub fn claim(&mut self, owner: &SessionId, token: &str, view_id: &str, rev: u64, now: u64) -> (r: Result<(), &'static str>)
        ensures
            old(self)@.closed ==> r == Err::<(), &'static str>("closed") && final(self)@ == old(self)@,
            !old(self)@.closed ==> match old(self)@.ready {
                Some(d) => if d.token != token@ || d.owner != owner@ {
                    r == Err::<(), &'static str>("default_draft_expired") && final(self)@ == old(self)@
                } else if now >= d.expires {
                    r == Err::<(), &'static str>("default_draft_expired") && final(self)@ == (DefaultsView {
                        ready: None,
                        ..old(self)@
                    })
                } else if d.view_id != view_id@ || d.rev != rev {
                    r == Err::<(), &'static str>("stale_state") && final(self)@ == (DefaultsView {
                        ready: None,
                        ..old(self)@
                    })
                } else {
                    r is Ok && final(self)@ == old(self)@
                },
                None => r == Err::<(), &'static str>("default_draft_expired") && final(self)@ == old(self)@,
            },
            final(self).ready_draft() == Self::kept_draft(old(self).ready_draft(), final(self)@),
    {
        if self.closed {
            return Err("closed");
        }
        let (expired, stale) = match &self.ready {
            Some(d) => {
                if !same(d.token.as_str(), token) || !same(d.owner.as_str(), owner.as_str()) {
                    return Err("default_draft_expired");
                }
                (now >= d.expires, !same(d.view_id.as_str(), view_id) || d.rev != rev)
            },
            None => return Err("default_draft_expired"),
        };
        if expired {
            self.ready = None;
            return Err("default_draft_expired");
        }
        if stale {
            self.ready = None;
            return Err("stale_state");
        }
        Ok(())
    }

    /// Takes the claimed draft once its publication is admitted.
    pub fn take(&mut self) -> (r: Option<Ready<D>>)
        ensures
            match r {
                Some(d) => old(self)@.ready == Some(d.spec_view()) && old(self).ready_draft() == Some(
                    d.draft_view(),
                ),
                None => old(self)@.ready is None,
            },
            final(self)@ == (DefaultsView { ready: None, ..old(self)@ }),
            final(self).ready_draft() is None,
    {
        let r = match self.ready.take() {
            Some(d) => Some(d),
            None => None,
        };
        r
    }

    /// Drops the draft: its view changed before the publication was
    /// admitted.
    pub fn discard(&mut self)
        ensures
            final(self)@ == (DefaultsView { ready: None, ..old(self)@ }),
            final(self).ready_draft() is None,
    {
        self.ready = None;
    }

    /// Drops the draft if `owner` holds it under `token`.
    pub fn revoke(&mut self, owner: &SessionId, token: &str)
        ensures
            match old(self)@.ready {
                Some(d) => if d.token == token@ && d.owner == owner@ {
                    final(self)@ == (DefaultsView { ready: None, ..old(self)@ })
                } else {
                    final(self)@ == old(self)@
                },
                None => final(self)@ == old(self)@,
            },
            final(self).ready_draft() == Self::kept_draft(old(self).ready_draft(), final(self)@),
    {
        let mine = match &self.ready {
            Some(d) => same(d.token.as_str(), token) && same(d.owner.as_str(), owner.as_str()),
            None => false,
        };
        if mine {
            self.ready = None;
        }
    }

    /// Drops the draft once it has expired at `now`.
    pub fn maintain(&mut self, now: u64)
        ensures
            match old(self)@.ready {
                Some(d) => if now >= d.expires {
                    final(self)@ == (DefaultsView { ready: None, ..old(self)@ })
                } else {
                    final(self)@ == old(self)@
                },
                None => final(self)@ == old(self)@,
            },
            final(self).ready_draft() == Self::kept_draft(old(self).ready_draft(), final(self)@),
    {
        let expired = match &self.ready {
            Some(d) => now >= d.expires,
            None => false,
        };
        if expired {
            self.ready = None;
        }
    }

    /// Shuts the drafts down for good and drops any draft.
    pub fn close(&mut self)
        ensures
            final(self)@ == (DefaultsView { closed: true, serial: old(self)@.serial, ready: None }),
            final(self).ready_draft() is None,
    {
        self.closed = true;
        self.ready = None;
    }
}

/// Only the newest preparation finishes: once another has begun, the
/// earlier serial is expired.
pub proof fn law_newest_preparation_only(v: DefaultsView, active: bool)
    requires
        begin_result(v, active) is Ok,
    ensures
        ({
            let first = begin_result(v, active)->Ok_0;
            let w = DefaultsView { closed: false, serial: first, ready: None };
            begin_result(w, active) is Ok ==> begin_result(w, active)->Ok_0 != first
        }),
{
}

} // verus!
