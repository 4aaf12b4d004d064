//! Exact-clip exports: the canonical decoding of a preparation request and
//! the one short-lived draft a connection may hold.
use crate::auth::{is_public_id, public_id};
use crate::query::{Anchor, QueryAnchor};
use crate::scoped::Layers;
use crate::wire::{canonical_i64, parse_i64, utf8};
use vstd::prelude::*;
use vstd::string::StringExecFns;

verus! {

/// How long a draft stays valid, in nanoseconds.
pub const DRAFT_NANOS: u64 = 30_000_000_000;

/// The area to clip: the current viewport, or explicit design-unit bounds.
#[derive(Debug)]
pub enum Bounds {
    Viewport {},
    Dbu { bbox: [String; 4] },
}

/// An export preparation as the owner sends it.
#[derive(Debug)]
pub struct PrepareDto {
    pub anchor: Anchor,
    pub bounds: Bounds,
    pub layers: String,
    pub jobs: u16,
    pub cell_name: String,
}

/// A decoded preparation: the bounds (none for the viewport), whether only
/// visible layers are clipped, and the clip itself.
#[derive(Debug)]
pub struct PrepareInput {
    pub anchor: QueryAnchor,
    pub bbox: Option<[i64; 4]>,
    pub visible: bool,
    pub layers: Layers,
    pub jobs: u16,
    pub cell_name: String,
}

/// The four canonical `i64` bounds of a box, in any order.
pub open spec fn bounds_of(b: [String; 4]) -> Option<[i64; 4]> {
    let v0 = canonical_i64(utf8(b[0]@));
    let v1 = canonical_i64(utf8(b[1]@));
    let v2 = canonical_i64(utf8(b[2]@));
    let v3 = canonical_i64(utf8(b[3]@));
    if v0 is Some && v1 is Some && v2 is Some && v3 is Some {
        Some([v0->0, v1->0, v2->0, v3->0])
    } else {
        None
    }
}

/// The layer word: `visible` and `all` clip every layer (the first only
/// those shown), `none` clips none.
pub open spec fn layer_word(s: Seq<char>) -> Option<bool> {
    if s == "visible"@ {
        Some(true)
    } else if s == "all"@ || s == "none"@ {
        Some(false)
    } else {
        None
    }
}

fn same_text(a: &str, b: &str) -> (r: bool)
    ensures
        r == (a@ == b@),
{
    String::from_str(a) == String::from_str(b)
}

fn decode_bounds(b: &[String; 4]) -> (r: Option<[i64; 4]>)
    ensures
        r == bounds_of(*b),
{
    let x0 = match parse_i64(b[0].as_str().as_bytes()) {
        Some(v) => v,
        None => return None,
    };
    let y0 = match parse_i64(b[1].as_str().as_bytes()) {
        Some(v) => v,
        None => return None,
    };
    let x1 = match parse_i64(b[2].as_str().as_bytes()) {
        Some(v) => v,
        None => return None,
    };
    let y1 = match parse_i64(b[3].as_str().as_bytes()) {
        Some(v) => v,
        None => return None,
    };
    Some([x0, y0, x1, y1])
}

impl PrepareDto {
    pub open spec fn spec_ok(&self) -> bool {
        &&& 1 <= self.jobs <= 16
        &&& (self.bounds matches Bounds::Dbu { bbox } ==> bounds_of(bbox) is Some)
        &&& layer_word(self.layers@) is Some
        &&& self.anchor.spec_ok()
    }

    /// Between 1 and 16 jobs, canonical bounds, a known layer word and a
    /// canonical anchor. The clip's own checks (such as of its cell name) are
    /// the clip service's.
    pub fn decode(self) -> (r: Result<PrepareInput, &'static str>)
        ensures
            r is Ok <==> self.spec_ok(),
            r is Err ==> r->Err_0 == "invalid_request",
            r matches Ok(p) ==> {
                &&& self.anchor.decode_spec(p.anchor)
                &&& p.bbox == match self.bounds {
                    Bounds::Viewport {} => None,
                    Bounds::Dbu { bbox } => bounds_of(bbox),
                }
                &&& Some(p.visible) == layer_word(self.layers@)
                &&& (self.layers@ == "none"@ ==> p.layers is Empty)
                &&& (self.layers@ != "none"@ ==> p.layers is All)
                &&& p.jobs == self.jobs
                &&& p.cell_name@ == self.cell_name@
            },
    {
        proof {
            reveal_strlit("visible");
            reveal_strlit("all");
            reveal_strlit("none");
            assert("none"@.len() == 4 && "all"@.len() == 3 && "visible"@.len() == 7);
        }
        if self.jobs < 1 || self.jobs > 16 {
            return Err("invalid_request");
        }
        let bbox = match &self.bounds {
            Bounds::Viewport {} => None,
            Bounds::Dbu { bbox } => match decode_bounds(bbox) {
                Some(b) => Some(b),
                None => return Err("invalid_request"),
            },
        };
        let word = self.layers.as_str();
        let (visible, layers) = if same_text(word, "visible") {
            (true, Layers::All)
        } else if same_text(word, "all") {
            (false, Layers::All)
        } else if same_text(word, "none") {
            (false, Layers::Empty)
        } else {
            return Err("invalid_request");
        };
        let anchor = match self.anchor.decode() {
            Ok(a) => a,
            Err(_) => return Err("invalid_request"),
        };
        Ok(PrepareInput { anchor, bbox, visible, layers, jobs: self.jobs, cell_name: self.cell_name })
    }
}

/// The one export draft a gateway holds: its clip, the token naming it, the
/// connection that prepared it and when it expires (nanoseconds).
pub struct Draft<C> {
    pub clip: C,
    token: String,
    connection: String,
    expires: u64,
}

impl<C> Draft<C> {
    pub closed spec fn clip_view(&self) -> C {
        self.clip
    }

    pub closed spec fn token_view(&self) -> Seq<char> {
        self.token@
    }

    pub closed spec fn connection_view(&self) -> Seq<char> {
        self.connection@
    }

    pub closed spec fn expires_view(&self) -> u64 {
        self.expires
    }
}

pub struct Drafts<C> {
    ready: Option<Draft<C>>,
}

impl<C> Drafts<C> {
    pub closed spec fn ready_view(&self) -> Option<(Seq<char>, Seq<char>, u64)> {
        match self.ready {
            Some(d) => Some((d.token@, d.connection@, d.expires)),
            None => None,
        }
    }

    /// The clip of the draft held, if any.
    pub closed spec fn ready_clip(&self) -> Option<C> {
        match self.ready {
            Some(d) => Some(d.clip),
            None => None,
        }
    }

    pub fn new() -> (r: Drafts<C>)
        ensures
            r.ready_view() is None,
            r.ready_clip() is None,
    {
        Drafts { ready: None }
    }

    /// Replaces the draft with a new one under a fresh token, valid for
    /// `DRAFT_NANOS` from `now`; the token is returned.
    pub fn prepare(&mut self, clip: C, connection: &str, now: u64) -> (r: Result<String, &'static str>)
        requires
            now <= u64::MAX - DRAFT_NANOS,
        ensures
            r is Err ==> r->Err_0 == "export_unavailable" && final(self).ready_view() == old(
                self,
            ).ready_view() && final(self).ready_clip() == old(self).ready_clip(),
            r matches Ok(t) ==> final(self).ready_view() == Some(
                (t@, connection@, (now + DRAFT_NANOS) as u64),
            ) && final(self).ready_clip() == Some(clip) && is_public_id(t@),
    {
        let token = match public_id() {
            Ok(t) => t,
            Err(_) => return Err("export_unavailable"),
        };
        let out = token.clone();
        self.ready = Some(
            Draft {
                clip,
                token,
                connection: String::from_str(connection),
                expires: now + DRAFT_NANOS,
            },
        );
        Ok(out)
    }

    /// The draft that `token` names, if it has not expired at `now`.
    pub fn check(&self, token: &str, now: u64) -> (r: Result<&Draft<C>, &'static str>)
        ensures
            match self.ready_view() {
                Some((t, _, e)) => if t == token@ && now < e {
                    r matches Ok(d) && Some(d.clip_view()) == self.ready_clip() && d.token_view() == t
                } else {
                    r == Err::<&Draft<C>, &'static str>("export_draft_expired")
                },
                None => r == Err::<&Draft<C>, &'static str>("export_draft_expired"),
            },
    {
        match &self.ready {
            Some(d) => if d.token == String::from_str(token) && now < d.expires {
                Ok(d)
            } else {
                Err("export_draft_expired")
            },
            None => Err("export_draft_expired"),
        }
    }

    /// Uses up the draft.
    pub fn consume(&mut self)
        ensures
            final(self).ready_view() is None,
            final(self).ready_clip() is None,
    {
        self.ready = None;
    }

    /// Drops the draft if `connection` prepared it.
    pub fn revoke(&mut self, connection: &str)
        ensures
            match old(self).ready_view() {
                Some((_, c, _)) => if c == connection@ {
                    final(self).ready_view() is None && final(self).ready_clip() is None
                } else {
                    final(self).ready_view() == old(self).ready_view() && final(self).ready_clip() == old(
                        self,
                    ).ready_clip()
                },
                None => final(self).ready_view() is None && final(self).ready_clip() is None,
            },
    {
        let mine = match &self.ready {
            Some(d) => d.connection == String::from_str(connection),
            None => false,
        };
        if mine {
            self.ready = None;
        }
    }
}

} // verus!
