//! Owner operation requests: level selections, index arguments and the view
//! that an index-then-open may replace.
use crate::drc::{identity_ok, is_identity};
use crate::guest::{json_view, Json};
use crate::operations::{admission, ledger_wf, replay_of, Admission, Ledger, ReplaySpec};
use crate::wire::{canonical_i64, canonical_u64, parse_i64, parse_u64, utf8};
use vstd::prelude::*;
use vstd::string::StringSliceAdditionalSpecFns;

verus! {

/// Most level IDs in one selection.
pub const LEVEL_LIMIT: usize = 4096;

/// A revision counter: the canonical decimal text of a positive `u64`.
pub open spec fn counter_value(s: Seq<u8>) -> Option<u64> {
    match canonical_u64(s) {
        Some(v) => if v >= 1 {
            Some(v)
        } else {
            None
        },
        None => None,
    }
}

pub fn counter(s: &str) -> (r: Result<u64, &'static str>)
    ensures
        match counter_value(s.spec_bytes()) {
            Some(v) => r == Ok::<u64, &'static str>(v),
            None => r == Err::<u64, &'static str>("invalid_request"),
        },
{
    match parse_u64(s.as_bytes()) {
        Some(v) => if v >= 1 {
            Ok(v)
        } else {
            Err("invalid_request")
        },
        None => Err("invalid_request"),
    }
}

/// A 64-digit lower-case hex identity, or `invalid_request`.
pub fn identity(id: &str) -> (r: Result<(), &'static str>)
    ensures
        is_identity(id.spec_bytes()) ==> r is Ok,
        !is_identity(id.spec_bytes()) ==> r == Err::<(), &'static str>("invalid_request"),
{
    if identity_ok(id) {
        Ok(())
    } else {
        Err("invalid_request")
    }
}

/// Which levels of a deck to open or index.
#[derive(Debug)]
pub enum LevelSelection {
    All {},
    Only { ids: Vec<String> },
}

impl Default for LevelSelection {
    fn default() -> (r: Self)
        ensures
            r is All,
    {
        LevelSelection::All {}
    }
}

pub open spec fn ids_sorted(s: Seq<i64>) -> bool {
    forall|i: int, j: int| 0 <= i < j < s.len() ==> #[trigger] s[i] < #[trigger] s[j]
}

/// The level ID that a text names.
pub open spec fn level_id(s: String) -> Option<i64> {
    canonical_i64(utf8(s@))
}

fn insert_id(v: &mut Vec<i64>, x: i64)
    requires
        ids_sorted(old(v)@),
    ensures
        ids_sorted(final(v)@),
        forall|y: i64| #[trigger] final(v)@.contains(y) <==> old(v)@.contains(y) || y == x,
{
    let mut pos: usize = v.len();
    while pos > 0 && v[pos - 1] >= x
        invariant
            pos <= v@.len(),
            ids_sorted(v@),
            forall|k: int| pos <= k < v@.len() ==> x <= #[trigger] v@[k],
        decreases pos,
    {
        pos = pos - 1;
    }
    if pos < v.len() && v[pos] == x {
        return;
    }
    let ghost before = v@;
    v.insert(pos, x);
    proof {
        let after = v@;
        assert(after == before.insert(pos as int, x));
        assert forall|i: int, j: int| 0 <= i < j < after.len() implies #[trigger] after[i] < #[trigger] after[j] by {
            if i == pos {
                assert(after[j] == before[j - 1]);
                if j - 1 > pos {
                    assert(before[pos as int] < before[j - 1]);
                }
            } else if j == pos {
                assert(after[i] == before[i]);
                if i < pos - 1 {
                    assert(before[i] < before[pos - 1]);
                }
            } else {
                let ii = if i < pos { i } else { i - 1 };
                let jj = if j < pos { j } else { j - 1 };
                assert(after[i] == before[ii] && after[j] == before[jj]);
            }
        }
        assert forall|y: i64| #[trigger] after.contains(y) <==> before.contains(y) || y == x by {
            if after.contains(y) {
                let i = choose|i: int| 0 <= i < after.len() && #[trigger] after[i] == y;
                if i < pos {
                    assert(before[i] == y);
                } else if i > pos {
                    assert(before[i - 1] == y);
                }
            }
            if before.contains(y) {
                let i = choose|i: int| 0 <= i < before.len() && #[trigger] before[i] == y;
                if i < pos {
                    assert(after[i] == y);
                } else {
                    assert(after[i + 1] == y);
                }
            }
            if y == x {
                assert(after[pos as int] == y);
            }
        }
    }
}

/// The level IDs that `ids` name, as a sorted set, or the first refusal.
pub open spec fn level_ids_ok(ids: Seq<String>) -> bool {
    forall|k: int| 0 <= k < ids.len() ==> (#[trigger] level_id(ids[k])) is Some
}

pub open spec fn names_exactly(v: Seq<i64>, ids: Seq<String>) -> bool {
    &&& ids_sorted(v)
    &&& forall|x: i64|
        #[trigger] v.contains(x) <==> exists|k: int|
            0 <= k < ids.len() && #[trigger] level_id(ids[k]) == Some(x)
}

fn level_ids(ids: &Vec<String>) -> (r: Option<Vec<i64>>)
    ensures
        level_ids_ok(ids@) <==> r is Some,
        r matches Some(v) ==> names_exactly(v@, ids@),
{
    let mut out: Vec<i64> = Vec::new();
    let mut i: usize = 0;
    while i < ids.len()
        invariant
            i <= ids@.len(),
            ids_sorted(out@),
            forall|k: int| 0 <= k < i ==> (#[trigger] level_id(ids@[k])) is Some,
            forall|x: i64|
                #[trigger] out@.contains(x) <==> exists|k: int|
                    0 <= k < i && #[trigger] level_id(ids@[k]) == Some(x),
        decreases ids@.len() - i,
    {
        let text = ids[i].as_str();
        let n = match parse_i64(text.as_bytes()) {
            Some(n) => n,
            None => {
                proof {
                    assert(level_id(ids@[i as int]) is None);
                }
                return None;
            },
        };
        insert_id(&mut out, n);
        proof {
            assert(level_id(ids@[i as int]) == Some(n));
            assert forall|x: i64| #[trigger] out@.contains(x) <==> exists|k: int|
                0 <= k < i + 1 && #[trigger] level_id(ids@[k]) == Some(x) by {
                if out@.contains(x) && x != n {
                    let k = choose|k: int| 0 <= k < i && #[trigger] level_id(ids@[k]) == Some(x);
                }
                if exists|k: int| 0 <= k < i + 1 && #[trigger] level_id(ids@[k]) == Some(x) {
                    let k = choose|k: int| 0 <= k < i + 1 && #[trigger] level_id(ids@[k]) == Some(x);
                    if k < i {
                        assert(exists|k: int| 0 <= k < i && #[trigger] level_id(ids@[k]) == Some(x));
                    }
                }
            }
        }
        i = i + 1;
    }
    Some(out)
}

impl LevelSelection {
    /// All levels, or between 1 and `LEVEL_LIMIT` canonical level IDs as a
    /// sorted set.
    pub fn resolve(self) -> (r: Result<Option<Vec<i64>>, &'static str>)
        ensures
            match self {
                LevelSelection::All {} => r == Ok::<Option<Vec<i64>>, &'static str>(None),
                LevelSelection::Only { ids } => if ids@.len() == 0 || ids@.len() > LEVEL_LIMIT {
                    r == Err::<Option<Vec<i64>>, &'static str>("level selection limit")
                } else if !level_ids_ok(ids@) {
                    r == Err::<Option<Vec<i64>>, &'static str>("invalid level ID")
                } else {
                    r matches Ok(Some(v)) && names_exactly(v@, ids@)
                },
            },
    {
        match self {
            LevelSelection::All {} => Ok(None),
            LevelSelection::Only { ids } => {
                if ids.len() == 0 || ids.len() > LEVEL_LIMIT {
                    return Err("level selection limit");
                }
                match level_ids(&ids) {
                    Some(v) => Ok(Some(v)),
                    None => Err("invalid level ID"),
                }
            },
        }
    }
}

/// Managed index arguments as the owner sends them.
#[derive(Debug)]
pub struct IndexArgs {
    pub jobs: u16,
    pub force: bool,
    pub lod: bool,
    pub occupancy: bool,
    pub occupancy_only: bool,
    pub occupancy_um: Option<String>,
}

impl Default for IndexArgs {
    fn default() -> (r: Self)
        ensures
            r.jobs == 12 && !r.force && !r.lod && r.occupancy && !r.occupancy_only
                && r.occupancy_um is None,
    {
        IndexArgs {
            jobs: 12,
            force: false,
            lod: false,
            occupancy: true,
            occupancy_only: false,
            occupancy_um: None,
        }
    }
}

impl IndexArgs {
    /// The number of index jobs, which must be between 1 and 16.
    pub fn jobs(&self) -> (r: Result<usize, &'static str>)
        ensures
            1 <= self.jobs <= 16 ==> r == Ok::<usize, &'static str>(self.jobs as usize),
            !(1 <= self.jobs <= 16) ==> r == Err::<usize, &'static str>(
                "managed index jobs must be 1..16",
            ),
    {
        if self.jobs < 1 || self.jobs > 16 {
            Err("managed index jobs must be 1..16")
        } else {
            Ok(self.jobs as usize)
        }
    }
}

/// What an index-then-open replaces: nothing, or a view at a state revision.
#[derive(Debug)]
pub enum IndexTarget {
    Empty {},
    Replace { view_id: String, state_rev: String },
}

impl IndexTarget {
    pub fn resolve(self) -> (r: Result<Option<(String, u64)>, &'static str>)
        ensures
            match self {
                IndexTarget::Empty {} => r == Ok::<Option<(String, u64)>, &'static str>(None),
                IndexTarget::Replace { view_id, state_rev } => if !is_identity(utf8(view_id@)) {
                    r == Err::<Option<(String, u64)>, &'static str>("invalid_request")
                } else {
                    match counter_value(utf8(state_rev@)) {
                        Some(v) => r matches Ok(Some((id, n))) && id@ == view_id@ && n == v,
                        None => r == Err::<Option<(String, u64)>, &'static str>("invalid_request"),
                    }
                },
            },
    {
        match self {
            IndexTarget::Empty {} => Ok(None),
            IndexTarget::Replace { view_id, state_rev } => {
                if !identity_ok(view_id.as_str()) {
                    return Err("invalid_request");
                }
                match counter(state_rev.as_str()) {
                    Ok(n) => Ok(Some((view_id, n))),
                    Err(e) => Err(e),
                }
            },
        }
    }
}


/// How an opened view is first displayed: fitted to its window, or exactly
/// as the request says.
#[derive(Clone, Copy, Debug, PartialEq, Eq)]
pub enum OpenDisplay {
    Window,
    Explicit,
}

/// An owner operation request. The view patch of an open is carried
/// uninterpreted as `B`.
#[derive(Debug)]
pub enum OperationDto<B> {
    Mode { seq: String, view_id: String, base_state_rev: String, mode: String },
    Open {
        seq: String,
        source_id: String,
        mode: String,
        levels: LevelSelection,
        body: Box<B>,
        display_policy: OpenDisplay,
        label_preference: Option<bool>,
    },
    IndexOpen {
        seq: String,
        request_id: String,
        open_seq: String,
        approved: bool,
        target: IndexTarget,
        pixels: [u32; 2],
        options: IndexArgs,
    },
    Index { seq: String, source_id: String, levels: LevelSelection, options: IndexArgs },
}

impl<B> OperationDto<B> {
    /// The sequence text of the request, whatever its kind.
    pub open spec fn seq_text(&self) -> String {
        match self {
            OperationDto::Mode { seq, .. } => *seq,
            OperationDto::Open { seq, .. } => *seq,
            OperationDto::IndexOpen { seq, .. } => *seq,
            OperationDto::Index { seq, .. } => *seq,
        }
    }

    /// The request's sequence number: a revision counter.
    pub fn sequence(&self) -> (r: Result<u64, &'static str>)
        ensures
            match counter_value(utf8(self.seq_text()@)) {
                Some(v) => r == Ok::<u64, &'static str>(v),
                None => r == Err::<u64, &'static str>("invalid_request"),
            },
    {
        let seq = match self {
            OperationDto::Mode { seq, .. } => seq,
            OperationDto::Open { seq, .. } => seq,
            OperationDto::IndexOpen { seq, .. } => seq,
            OperationDto::Index { seq, .. } => seq,
        };
        counter(seq.as_str())
    }

    /// Whether the request is an index-then-open without the owner's
    /// approval.
    pub open spec fn is_unapproved_retry(&self) -> bool {
        self matches OperationDto::IndexOpen { approved, .. } && !*approved
    }

    /// The checks of an index-then-open before its retried open is looked
    /// up: approval, a request identity, the counter of the retried open.
    /// Any other kind of request is refused.
    pub open spec fn retry_check(&self) -> Result<u64, &'static str> {
        match self {
            OperationDto::IndexOpen { request_id, open_seq, approved, .. } => if !*approved {
                Err("approval_required")
            } else if !is_identity(utf8(request_id@)) {
                Err("invalid_request")
            } else {
                match counter_value(utf8(open_seq@)) {
                    Some(v) => Ok(v),
                    None => Err("invalid_request"),
                }
            },
            _ => Err("invalid_request"),
        }
    }

    /// What an index-then-open names before its retried open is looked up:
    /// it must carry the owner's approval, a request identity and the
    /// sequence of the open it retries, which is returned. Any other kind
    /// of request is refused.
    pub fn retried_open(&self) -> (r: Result<u64, &'static str>)
        ensures
            r == self.retry_check(),
            match self {
                OperationDto::IndexOpen { request_id, open_seq, approved, .. } => if !*approved {
                    r == Err::<u64, &'static str>("approval_required")
                } else if !is_identity(utf8(request_id@)) {
                    r == Err::<u64, &'static str>("invalid_request")
                } else {
                    match counter_value(utf8(open_seq@)) {
                        Some(v) => r == Ok::<u64, &'static str>(v),
                        None => r == Err::<u64, &'static str>("invalid_request"),
                    }
                },
                _ => r == Err::<u64, &'static str>("invalid_request"),
            },
    {
        match self {
            OperationDto::IndexOpen { request_id, open_seq, approved, .. } => {
                if !*approved {
                    return Err("approval_required");
                }
                identity(request_id.as_str())?;
                counter(open_seq.as_str())
            },
            _ => Err("invalid_request"),
        }
    }

    /// Whether the request may come from the launcher: an open at sequence
    /// `1`, never an index and never a later step.
    pub open spec fn is_launcher_open(&self) -> bool {
        self matches OperationDto::Open { seq, .. } && seq@ == "1"@
    }

    /// Checks a launcher proposal: it must open, at sequence `1`.
    pub fn launcher_proposal(&self) -> (r: Result<(), &'static str>)
        ensures
            r is Ok <==> self.is_launcher_open(),
            r is Err ==> r->Err_0 == "launcher proposal must open, never index",
    {
        match self {
            OperationDto::Open { seq, .. } => if *seq == String::from_str("1") {
                Ok(())
            } else {
                Err("launcher proposal must open, never index")
            },
            _ => Err("launcher proposal must open, never index"),
        }
    }
}

/// The owner service's decision on a submitted operation `request` with
/// signature `signature`, in the order the service takes it: a closed
/// service refuses; a malformed sequence is invalid; a kept receipt of the
/// same request replays, a different request on a kept sequence conflicts,
/// an evicted sequence has expired, all before the request's own checks
/// (`prepared`, the outcome of building its command) are consulted; then,
/// for an index-then-open, its approval, request identity and retried
/// sequence; then the other checks' error; then `busy` while a registration
/// is in progress; then admission with the first state `queued`.
pub fn submission<B>(
    closed: bool,
    registering: bool,
    ledger: &mut Ledger<Json>,
    request: &OperationDto<B>,
    signature: String,
    prepared: Result<(), &'static str>,
    queued: Json,
) -> (r: Result<Admission<Json>, &'static str>)
    ensures
        ledger_wf(final(ledger)@),
        closed ==> r == Err::<Admission<Json>, &'static str>("closed") && final(ledger)@ == old(ledger)@,
        !closed && request.is_unapproved_retry() && (match counter_value(utf8(request.seq_text()@)) {
            Some(seq) => replay_of(old(ledger)@, seq, signature@) is Fresh,
            None => false,
        }) ==> r == Err::<Admission<Json>, &'static str>("approval_required") && final(ledger)@ == old(
            ledger,
        )@,
        !closed ==> match counter_value(utf8(request.seq_text()@)) {
            None => r == Err::<Admission<Json>, &'static str>("invalid_request") && final(ledger)@ == old(
                ledger,
            )@,
            Some(seq) => match replay_of(old(ledger)@, seq, signature@) {
                ReplaySpec::State(st) => (r matches Ok(Admission::Replay(t)) && json_view(t) == json_view(st))
                    && final(ledger)@ == old(ledger)@,
                ReplaySpec::Conflict => r == Err::<Admission<Json>, &'static str>("operation_conflict")
                    && final(ledger)@ == old(ledger)@,
                ReplaySpec::Expired => r == Err::<Admission<Json>, &'static str>("operation_expired")
                    && final(ledger)@ == old(ledger)@,
                ReplaySpec::Fresh => if request is IndexOpen && request.retry_check() is Err {
                    r == Err::<Admission<Json>, &'static str>(request.retry_check()->Err_0) && final(ledger)@ == old(
                        ledger,
                    )@
                } else if prepared is Err {
                    r == Err::<Admission<Json>, &'static str>(prepared->Err_0) && final(ledger)@ == old(ledger)@
                } else if registering {
                    r == Err::<Admission<Json>, &'static str>("busy") && final(ledger)@ == old(ledger)@
                } else {
                    admission(old(ledger)@, final(ledger)@, seq, signature@, None, queued, r)
                },
            },
        },
{
    proof {
        use_type_invariant(&*ledger);
    }
    if closed {
        return Err("closed");
    }
    let seq = match request.sequence() {
        Ok(n) => n,
        Err(e) => return Err(e),
    };
    match ledger.replay(seq, signature.as_str()) {
        Err(e) => return Err(e),
        Ok(Some(st)) => return Ok(Admission::Replay(st.clone())),
        Ok(None) => {},
    }
    match request {
        OperationDto::IndexOpen { .. } => match request.retried_open() {
            Err(e) => return Err(e),
            Ok(_) => {},
        },
        _ => {},
    }
    match prepared {
        Err(e) => return Err(e),
        Ok(()) => {},
    }
    if registering {
        return Err("busy");
    }
    ledger.accept(seq, signature, queued)
}

} // verus!
