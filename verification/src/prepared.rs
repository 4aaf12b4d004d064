//! One bounded, single-use server-side edit per view. Each preparation takes
//! a fresh serial: only the newest one can be finished, a finished edit is
//! consumed by the first attempt to apply it, and revocation defeats ready
//! and in-flight preparations alike.
use crate::auth::public_id;
use crate::revision::Fence;
use vstd::prelude::*;
use vstd::string::StringExecFns;

verus! {

pub const EXPIRED: &'static str = "prepared_edit_expired";

/// What identifies one preparation: its serial, the view revision it was
/// based on, and the token that names it to the client.
#[derive(Debug)]
pub struct Stamp {
    serial: u64,
    base: u64,
    token: String,
}

impl Stamp {
    pub closed spec fn serial_view(&self) -> u64 {
        self.serial
    }

    pub closed spec fn base_view(&self) -> u64 {
        self.base
    }

    pub closed spec fn token_view(&self) -> Seq<char> {
        self.token@
    }
}

struct Edit<P> {
    stamp: Stamp,
    patch: P,
    fence: Option<Fence>,
}

/// The prepared edit of a view, if any.
pub struct PreparedEdits<P> {
    serial: u64,
    ready: Option<Edit<P>>,
    exhausted: bool,
}

impl<P> PreparedEdits<P> {
    pub closed spec fn serial_view(&self) -> u64 {
        self.serial
    }

    pub closed spec fn exhausted_view(&self) -> bool {
        self.exhausted
    }

    /// The token and base of the ready edit, if there is one.
    pub closed spec fn ready_view(&self) -> Option<(Seq<char>, u64)> {
        match self.ready {
            Some(e) => Some((e.stamp.token@, e.stamp.base)),
            None => None,
        }
    }

    /// The patch of the ready edit.
    pub closed spec fn ready_patch(&self) -> P {
        self.ready->0.patch
    }

    /// The fence the ready edit was prepared under, if it has one.
    pub closed spec fn ready_fence(&self) -> Option<Fence> {
        match self.ready {
            Some(e) => e.fence,
            None => None,
        }
    }

    pub fn new() -> (r: PreparedEdits<P>)
        ensures
            r.serial_view() == 0,
            !r.exhausted_view(),
            r.ready_view() is None,
    {
        PreparedEdits { serial: 0, ready: None, exhausted: false }
    }

    /// Edits whose serials already reached `serial`.
    pub fn starting_at(serial: u64) -> (r: PreparedEdits<P>)
        ensures
            r.serial_view() == serial,
            !r.exhausted_view(),
            r.ready_view() is None,
    {
        PreparedEdits { serial, ready: None, exhausted: false }
    }

    /// Revokes the ready edit and any preparation still in flight. The serial
    /// moves on and is never reset, so an old finish cannot match a new
    /// preparation; past the last serial the edits are exhausted for good.
    pub fn invalidate(&mut self)
        ensures
            final(self).ready_view() is None,
            old(self).serial_view() < u64::MAX ==> final(self).serial_view() == old(self).serial_view()
                + 1 && final(self).exhausted_view() == old(self).exhausted_view(),
            old(self).serial_view() == u64::MAX ==> final(self).serial_view() == u64::MAX
                && final(self).exhausted_view(),
    {
        self.ready = None;
        if self.serial < u64::MAX {
            self.serial = self.serial + 1;
        } else {
            self.exhausted = true;
        }
    }

    /// Starts a preparation on view revision `base` under a fresh token. It
    /// supersedes any ready edit and any earlier preparation.
    pub fn begin(&mut self, base: u64) -> (r: Result<Stamp, &'static str>)
        ensures
            old(self).serial_view() == u64::MAX ==> r == Err::<Stamp, &'static str>(
                "prepared_edit_limit",
            ) && *final(self) == *old(self),
            r is Err ==> *final(self) == *old(self) && (r->Err_0 == "prepared_edit_limit" || r->Err_0
                == "prepared_edit_unavailable"),
            r matches Ok(s) ==> old(self).serial_view() < u64::MAX && s.serial_view() == old(
                self,
            ).serial_view() + 1 && s.base_view() == base && final(self).serial_view()
                == s.serial_view() && final(self).ready_view() is None && final(self).exhausted_view()
                == old(self).exhausted_view(),
    {
        if self.serial == u64::MAX {
            return Err("prepared_edit_limit");
        }
        let serial = self.serial + 1;
        let token = match public_id() {
            Ok(t) => t,
            Err(_) => return Err("prepared_edit_unavailable"),
        };
        self.serial = serial;
        self.ready = None;
        Ok(Stamp { serial, base, token })
    }

    /// Completes the newest preparation; any other has expired.
    pub fn finish(&mut self, stamp: Stamp, patch: P, fence: Option<Fence>) -> (r: Result<
        String,
        &'static str,
    >)
        ensures
            (old(self).exhausted_view() || old(self).serial_view() != stamp.serial_view()) ==> r
                == Err::<String, &'static str>(EXPIRED) && *final(self) == *old(self),
            !(old(self).exhausted_view() || old(self).serial_view() != stamp.serial_view()) ==> (r matches Ok(
                t,
            ) && t@ == stamp.token_view()) && final(self).ready_view() == Some(
                (stamp.token_view(), stamp.base_view()),
            ) && final(self).ready_patch() == patch && final(self).ready_fence() == fence && final(self).serial_view() == old(
                self,
            ).serial_view() && final(self).exhausted_view() == old(self).exhausted_view(),
    {
        if self.exhausted || self.serial != stamp.serial {
            return Err(EXPIRED);
        }
        let token = stamp.token.clone();
        self.ready = Some(Edit { stamp, patch, fence });
        Ok(token)
    }

    /// The fence the ready edit was prepared under, if `token` names it.
    pub fn fence_for(&self, token: &str) -> (r: Option<&Fence>)
        ensures
            match self.ready_view() {
                Some((t, _)) => if t == token@ {
                    match self.ready_fence() {
                        Some(f) => r matches Some(x) && *x == f,
                        None => r is None,
                    }
                } else {
                    r is None
                },
                None => r is None,
            },
    {
        match &self.ready {
            Some(e) => if e.stamp.token == String::from_str(token) {
                match &e.fence {
                    Some(f) => Some(f),
                    None => None,
                }
            } else {
                None
            },
            None => None,
        }
    }

    /// Takes the ready edit named by `token` for view revision `base`. A
    /// recognized token is consumed by the attempt, even when the view has
    /// moved on since the preparation.
    pub fn take(&mut self, token: &str, base: u64) -> (r: Result<P, &'static str>)
        ensures
            match old(self).ready_view() {
                Some((t, b)) => if t == token@ {
                    final(self).ready_view() is None && if b == base {
                        r == Ok::<P, &'static str>(old(self).ready_patch())
                    } else {
                        r == Err::<P, &'static str>("stale_state")
                    }
                } else {
                    r == Err::<P, &'static str>(EXPIRED) && *final(self) == *old(self)
                },
                None => r == Err::<P, &'static str>(EXPIRED) && *final(self) == *old(self),
            },
            final(self).serial_view() == old(self).serial_view(),
            final(self).exhausted_view() == old(self).exhausted_view(),
    {
        let matches = match &self.ready {
            Some(e) => e.stamp.token == String::from_str(token),
            None => false,
        };
        if !matches {
            return Err(EXPIRED);
        }
        let edit = match self.ready.take() {
            Some(e) => e,
            None => return Err(EXPIRED),
        };
        if base != edit.stamp.base {
            return Err("stale_state");
        }
        Ok(edit.patch)
    }
}

/// Revocation defeats every preparation issued before it: a stamp whose
/// serial is at most the serial at revocation can no longer be finished.
pub proof fn law_revocation_defeats_inflight(before: u64, exhausted_before: bool, stamp_serial: u64)
    requires
        stamp_serial <= before,
    ensures
        ({
            let serial_after = if before < u64::MAX {
                (before + 1) as u64
            } else {
                before
            };
            let exhausted_after = exhausted_before || before == u64::MAX;
            exhausted_after || serial_after != stamp_serial
        }),
{
}

} // verus!
