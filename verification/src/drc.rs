//! DRC wire values: canonical cursors and indices, and the identity of a
//! reader that an open may replace.
use crate::hex::is_lower_hex;
use crate::wire::{canonical_u64, number, utf8};
use vstd::prelude::*;
use vstd::string::{StrSliceExecFns, StringExecFns, StringSliceAdditionalSpecFns};

verus! {

/// A (check, error) position as canonical decimal text.
#[derive(Clone, Debug, PartialEq, Eq)]
pub struct CursorDto {
    pub check: String,
    pub error: String,
}

/// A resumable step position as canonical decimal text.
#[derive(Debug)]
pub struct StepCursorDto {
    pub next: String,
    pub remaining: String,
}

/// A DRC index: a canonical number that fits a `usize`.
pub fn index(s: &str) -> (r: Result<usize, &'static str>)
    ensures
        match canonical_u64(s.spec_bytes()) {
            Some(v) => if v <= usize::MAX {
                r == Ok::<usize, &'static str>(v as usize)
            } else {
                r == Err::<usize, &'static str>("invalid_drc_request")
            },
            None => r == Err::<usize, &'static str>("invalid_drc_request"),
        },
{
    match number(s) {
        Ok(n) => if n <= usize::MAX as u64 {
            Ok(n as usize)
        } else {
            Err("invalid_drc_request")
        },
        Err(e) => Err(e),
    }
}

/// A page size between 1 and `max`.
pub fn cap(n: usize, max: usize) -> (r: Result<usize, &'static str>)
    ensures
        1 <= n <= max ==> r == Ok::<usize, &'static str>(n),
        !(1 <= n <= max) ==> r == Err::<usize, &'static str>("invalid_drc_request"),
{
    if n == 0 || n > max {
        Err("invalid_drc_request")
    } else {
        Ok(n)
    }
}

/// The position a cursor names: a check index and an error number.
pub open spec fn cursor_value(c: CursorDto) -> Option<(usize, u64)> {
    match (canonical_u64(utf8(c.check@)), canonical_u64(utf8(c.error@))) {
        (Some(k), Some(e)) => if k <= usize::MAX {
            Some((k as usize, e))
        } else {
            None
        },
        _ => None,
    }
}

/// The checked decoding of a cursor.
pub fn cursor(c: &CursorDto) -> (r: Result<(usize, u64), &'static str>)
    ensures
        match cursor_value(*c) {
            Some(v) => r == Ok::<(usize, u64), &'static str>(v),
            None => r == Err::<(usize, u64), &'static str>("invalid_drc_request"),
        },
{
    let check = match index(c.check.as_str()) {
        Ok(v) => v,
        Err(e) => return Err(e),
    };
    let error = match number(c.error.as_str()) {
        Ok(v) => v,
        Err(e) => return Err(e),
    };
    Ok((check, error))
}

/// A 64-digit lower-case hex identity.
pub open spec fn is_identity(s: Seq<u8>) -> bool {
    s.len() == 64 && is_lower_hex(s)
}

pub fn identity_ok(s: &str) -> (r: bool)
    ensures
        r == is_identity(s.spec_bytes()),
{
    let b = s.as_bytes();
    if b.len() != 64 {
        return false;
    }
    let mut i: usize = 0;
    while i < 64
        invariant
            i <= 64,
            b@.len() == 64,
            b@ == s.spec_bytes(),
            forall|k: int| 0 <= k < i ==> (#[trigger] crate::hex::hex_nibble(b@[k])) is Some,
        decreases 64 - i,
    {
        if crate::hex::hex_nibble_exec(b[i]).is_none() {
            proof {
                assert(crate::hex::hex_nibble(b@[i as int]) is None);
            }
            return false;
        }
        i = i + 1;
    }
    true
}

/// The positions a review edit names: between 1 and `edit_items` cursors,
/// each decoded; too few or too many is over the read limit.
pub fn refs(errors: &Vec<CursorDto>, edit_items: usize) -> (r: Result<Vec<(usize, u64)>, &'static str>)
    ensures
        errors@.len() == 0 || errors@.len() > edit_items ==> r == Err::<Vec<(usize, u64)>, &'static str>(
            "drc_read_limit",
        ),
        0 < errors@.len() <= edit_items ==> {
            &&& r is Ok <==> forall|k: int| 0 <= k < errors@.len() ==> (#[trigger] cursor_value(errors@[k])) is Some
            &&& r is Err ==> r->Err_0 == "invalid_drc_request"
            &&& r matches Ok(v) ==> v@.len() == errors@.len() && forall|k: int|
                0 <= k < errors@.len() ==> Some(#[trigger] v@[k]) == cursor_value(errors@[k])
        },
{
    if errors.len() == 0 || errors.len() > edit_items {
        return Err("drc_read_limit");
    }
    let mut out: Vec<(usize, u64)> = Vec::new();
    let mut k: usize = 0;
    while k < errors.len()
        invariant
            k <= errors@.len(),
            0 < errors@.len() <= edit_items,
            out@.len() == k,
            forall|j: int| 0 <= j < k ==> Some(#[trigger] out@[j]) == cursor_value(errors@[j]),
        decreases errors@.len() - k,
    {
        match cursor(&errors[k]) {
            Ok(v) => out.push(v),
            Err(e) => return Err(e),
        }
        k = k + 1;
    }
    assert forall|j: int| 0 <= j < errors@.len() implies (#[trigger] cursor_value(errors@[j])) is Some by {
        assert(Some(out@[j]) == cursor_value(errors@[j]));
    }
    Ok(out)
}

/// The reader that an open may replace: none, or one reader and its revision.
#[derive(Clone, Debug)]
pub struct OpenContext {
    pub view_id: String,
    pub drc_id: Option<String>,
    pub revision: Option<String>,
}

impl OpenContext {
    /// The DRC id and revision come together, and every identity is 64
    /// lower-case hex digits.
    pub fn validate(&self) -> (r: Result<(), &'static str>)
        ensures
            r is Ok <==> {
                &&& self.drc_id.is_some() == self.revision.is_some()
                &&& is_identity(utf8(self.view_id@))
                &&& (self.drc_id matches Some(d) ==> is_identity(utf8(d@)))
                &&& (self.revision matches Some(v) ==> is_identity(utf8(v@)))
            },
            r is Err ==> r->Err_0 == "invalid_drc_request",
    {
        if self.drc_id.is_some() != self.revision.is_some() {
            return Err("invalid_drc_request");
        }
        if !identity_ok(self.view_id.as_str()) {
            return Err("invalid_drc_request");
        }
        match &self.drc_id {
            Some(d) => if !identity_ok(d.as_str()) {
                return Err("invalid_drc_request");
            },
            None => {},
        }
        match &self.revision {
            Some(v) => if !identity_ok(v.as_str()) {
                return Err("invalid_drc_request");
            },
            None => {},
        }
        Ok(())
    }
}

/// A name shortened for display: its first 256 characters, and whether
/// anything was cut.
pub fn short(s: &str) -> (r: (String, bool))
    ensures
        r.0@ == if s@.len() <= 256 {
            s@
        } else {
            s@.take(256)
        },
        r.1 == (s@.len() > 256),
{
    let n = s.unicode_len();
    if n <= 256 {
        assert(s@.subrange(0, n as int) =~= s@);
        (String::from_str(s.substring_char(0, n)), false)
    } else {
        (String::from_str(s.substring_char(0, 256)), true)
    }
}

/// The first 256 characters of `s`.
pub open spec fn first_256(s: Seq<char>) -> Seq<char> {
    if s.len() <= 256 {
        s
    } else {
        s.take(256)
    }
}

/// A registered DRC source's identity must have 1 to 128 bytes.
pub fn registered_source(source_id: &str) -> (r: Result<(), &'static str>)
    ensures
        r is Ok <==> 1 <= source_id.spec_bytes().len() <= 128,
        r is Err ==> r->Err_0 == "invalid registered DRC source",
{
    let n = source_id.as_bytes().len();
    if n == 0 || n > 128 {
        return Err("invalid registered DRC source");
    }
    Ok(())
}

/// A review's title: its database file's name, or `DRC` for a file without
/// a readable name, cut to 256 characters.
pub fn review_title(file_name: Option<&str>) -> (r: String)
    ensures
        r@ == match file_name {
            Some(n) => first_256(n@),
            None => first_256("DRC"@),
        },
{
    let name = match file_name {
        Some(n) => n,
        None => "DRC",
    };
    short(name).0
}

/// A review token: 64 lower-case hex digits.
pub fn token(s: &str) -> (r: bool)
    ensures
        r == is_identity(s.spec_bytes()),
{
    identity_ok(s)
}

/// The DRC review a request speaks of: reader, revision and view.
#[derive(Clone, Debug)]
pub struct ReviewContext {
    pub drc_id: String,
    pub revision: String,
    pub view_id: String,
}

impl ReviewContext {
    /// Every identity is 64 lower-case hex digits.
    pub fn validate(&self) -> (r: Result<(), &'static str>)
        ensures
            r is Ok <==> is_identity(utf8(self.drc_id@)) && is_identity(utf8(self.revision@))
                && is_identity(utf8(self.view_id@)),
            r is Err ==> r->Err_0 == "invalid_drc_request",
    {
        if !identity_ok(self.drc_id.as_str()) || !identity_ok(self.revision.as_str())
            || !identity_ok(self.view_id.as_str()) {
            return Err("invalid_drc_request");
        }
        Ok(())
    }
}

} // verus!
