//! Review file transfers: an import announces its size, an export names
//! nothing, and preparation and each upload chunk name their transfer by
//! token. No request names a path.
use crate::drc::{identity_ok, is_identity, ReviewContext};
use crate::service::{counter, counter_value};
use crate::wire::{canonical_u64, number, utf8};
use vstd::prelude::*;

verus! {

/// Largest upload chunk, in bytes.
pub const CHUNK: usize = 1048576;

/// Largest import, in bytes.
pub const MAX_BYTES: u64 = 536870912;

/// What a transfer request does.
#[derive(Clone, Copy, Debug, PartialEq, Eq, Structural)]
pub enum Action {
    Import,
    Export,
    Prepare,
    Chunk,
}

/// A transfer request: its sequence, the review it speaks of, its action,
/// the announced size of an import and the token of a transfer.
#[derive(Debug)]
pub struct Request {
    pub seq: String,
    pub context: ReviewContext,
    pub action: Action,
    pub bytes: Option<String>,
    pub token: Option<String>,
}

pub open spec fn context_ok(c: ReviewContext) -> bool {
    is_identity(utf8(c.drc_id@)) && is_identity(utf8(c.revision@)) && is_identity(utf8(c.view_id@))
}

/// What a transfer request's checks answer. `payload` is the offset and
/// length of a chunk's body, if one came.
pub open spec fn validity(r: Request, payload: Option<(u64, usize)>) -> Result<(), &'static str> {
    if !context_ok(r.context) {
        Err("invalid_drc_request")
    } else if counter_value(utf8(r.seq@)) is None {
        Err("invalid_request")
    } else {
        match (r.action, r.bytes, r.token, payload) {
            (Action::Import, Some(n), None, None) => match canonical_u64(utf8(n@)) {
                None => Err("invalid_drc_request"),
                Some(v) => if v == 0 || v > MAX_BYTES {
                    Err("drc_read_limit")
                } else {
                    Ok(())
                },
            },
            (Action::Export, None, None, None) => Ok(()),
            (Action::Prepare, None, Some(t), None) => if is_identity(utf8(t@)) {
                Ok(())
            } else {
                Err("invalid_drc_request")
            },
            (Action::Chunk, None, Some(t), Some((_, len))) => if is_identity(utf8(t@)) && 0 < len <= CHUNK {
                Ok(())
            } else {
                Err("invalid_drc_request")
            },
            _ => Err("invalid_drc_request"),
        }
    }
}

impl Request {
    /// Checks a transfer request before it is admitted: a valid review
    /// context and sequence, an import of 1 to `MAX_BYTES` bytes, and a
    /// token with every preparation and chunk, a chunk carrying 1 to `CHUNK`
    /// bytes.
    pub fn validate(&self, payload: Option<(u64, usize)>) -> (r: Result<(), &'static str>)
        ensures
            r == validity(*self, payload),
    {
        self.context.validate()?;
        counter(self.seq.as_str())?;
        match (self.action, &self.bytes, &self.token, payload) {
            (Action::Import, Some(n), None, None) => {
                let n = number(n.as_str())?;
                if n == 0 || n > MAX_BYTES {
                    Err("drc_read_limit")
                } else {
                    Ok(())
                }
            },
            (Action::Export, None, None, None) => Ok(()),
            (Action::Prepare, None, Some(t), None) => if identity_ok(t.as_str()) {
                Ok(())
            } else {
                Err("invalid_drc_request")
            },
            (Action::Chunk, None, Some(t), Some((_, len))) => if identity_ok(t.as_str()) && len > 0 && len <= CHUNK {
                Ok(())
            } else {
                Err("invalid_drc_request")
            },
            _ => Err("invalid_drc_request"),
        }
    }
}

} // verus!
