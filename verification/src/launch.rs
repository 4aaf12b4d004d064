//! Trusted launcher proposals. Paths never cross this owner boundary: a
//! proposal is only ever an open at sequence one, never an index, and is
//! checked before it is recorded. One request is outstanding at a time, the
//! history is bounded, every change moves the revision on, and shutdown is
//! terminal. A proposal is answered at most once: a recorded receipt answers
//! every retry of the same action and refuses any other.
use crate::auth::{is_public_id, public_id};
use crate::service::{counter, counter_value, LevelSelection, OperationDto};
use crate::wire::utf8;
use std::sync::atomic::{AtomicUsize, Ordering};
use std::sync::Arc;
use vstd::prelude::*;

verus! {

/// Most launcher requests kept.
pub const HISTORY: usize = 16;

/// Where a launcher request stands.
#[derive(Clone, Copy, Debug, PartialEq, Eq, Structural)]
pub enum Phase {
    Preparing,
    Ready,
    Failed,
    Dismissed,
    Presented,
    Submitted,
}

impl Phase {
    /// The wire name of the phase.
    pub fn name(&self) -> (r: &'static str)
        ensures
            r == phase_name(*self),
    {
        match self {
            Phase::Preparing => "preparing",
            Phase::Ready => "ready",
            Phase::Failed => "failed",
            Phase::Dismissed => "dismissed",
            Phase::Presented => "presented",
            Phase::Submitted => "submitted",
        }
    }
}

pub open spec fn phase_name(p: Phase) -> &'static str {
    match p {
        Phase::Preparing => "preparing",
        Phase::Ready => "ready",
        Phase::Failed => "failed",
        Phase::Dismissed => "dismissed",
        Phase::Presented => "presented",
        Phase::Submitted => "submitted",
    }
}

/// A request still waits for the owner: preparing, ready or failed.
pub open spec fn is_pending(p: Phase) -> bool {
    p == Phase::Preparing || p == Phase::Ready || p == Phase::Failed
}

/// Why a preparation failed.
#[derive(Clone, Copy, Debug, PartialEq, Eq, Structural)]
pub enum Failure {
    Busy,
    Cancelled,
    SourceChanged,
    WorkerVersion,
    InvalidRequest,
    Io,
}

impl Failure {
    /// The wire code of the failure.
    pub fn code(&self) -> (r: &'static str)
        ensures
            r == failure_code(*self),
    {
        match self {
            Failure::Busy => "busy",
            Failure::Cancelled => "cancelled",
            Failure::SourceChanged => "source_changed",
            Failure::WorkerVersion => "worker_version",
            Failure::InvalidRequest => "invalid_request",
            Failure::Io => "io_error",
        }
    }
}

pub open spec fn failure_code(f: Failure) -> &'static str {
    match f {
        Failure::Busy => "busy",
        Failure::Cancelled => "cancelled",
        Failure::SourceChanged => "source_changed",
        Failure::WorkerVersion => "worker_version",
        Failure::InvalidRequest => "invalid_request",
        Failure::Io => "io_error",
    }
}

/// Why the launcher refused a reservation or a readiness report.
#[derive(Clone, Copy, Debug, PartialEq, Eq, Structural)]
pub enum LaunchError {
    /// The launcher is shut down.
    Closed,
    /// A request is outstanding, or the revision is exhausted.
    Busy,
    /// No identity could be drawn.
    Entropy,
    /// No request has that identity.
    Expired,
    /// The request was cancelled or is no longer preparing.
    Cancelled,
    /// A present request cannot ask to confirm levels.
    LevelsWithoutRequest,
}

impl LaunchError {
    /// The message of the refusal.
    pub fn message(&self) -> (r: &'static str)
        ensures
            r == launch_message(*self),
    {
        match self {
            LaunchError::Closed => "launcher closed",
            LaunchError::Busy => "finish or dismiss the pending launcher request",
            LaunchError::Entropy => "entropy unavailable",
            LaunchError::Expired => "launch expired",
            LaunchError::Cancelled => "launch cancelled",
            LaunchError::LevelsWithoutRequest => "present request cannot select levels",
        }
    }
}

pub open spec fn launch_message(e: LaunchError) -> &'static str {
    match e {
        LaunchError::Closed => "launcher closed",
        LaunchError::Busy => "finish or dismiss the pending launcher request",
        LaunchError::Entropy => "entropy unavailable",
        LaunchError::Expired => "launch expired",
        LaunchError::Cancelled => "launch cancelled",
        LaunchError::LevelsWithoutRequest => "present request cannot select levels",
    }
}

/// What the owner answered a launcher request with.
#[derive(Debug)]
pub enum LaunchReceipt<O> {
    Dismissed,
    Presented,
    /// The request was opened; the operation's first state.
    Submitted(O),
}

/// An owner's answer to a launcher request. `pixels` and `levels` complete
/// the proposal of an open; `view_id` and `state_rev` name, together, the
/// view it replaces.
#[derive(Debug)]
pub enum Action {
    Dismiss,
    Present,
    Open {
        seq: String,
        pixels: [u32; 2],
        levels: LevelSelection,
        view_id: Option<String>,
        state_rev: Option<String>,
    },
}

/// What an accepted open submits: its sequence and the view it replaces.
#[derive(Debug, PartialEq, Eq)]
pub struct OpenClaim {
    pub seq: u64,
    pub replace: Option<(String, u64)>,
}

/// Longest launcher proposal accepted, in bytes of its JSON text.
pub const PROPOSAL_LIMIT: usize = 16384;

/// A launcher proposal that passed the owner boundary's checks: the request
/// as received (`R`), whose text fits the limit and which parsed as an open
/// at sequence one.
pub struct Proposal<R> {
    request: R,
}

/// The request a checked proposal carries, if any.
pub open spec fn proposed<R>(p: Option<Proposal<R>>) -> Option<R> {
    match p {
        Some(q) => Some(q.request_view()),
        None => None,
    }
}

impl<R> Proposal<R> {
    pub closed spec fn request_view(&self) -> R {
        self.request
    }

    /// Checks `request`, whose JSON text is `text_len` bytes long and which
    /// parsed as `parsed`: a text over the limit is refused, then anything
    /// but an open at sequence one.
    pub fn check<B>(request: R, text_len: usize, parsed: &OperationDto<B>) -> (r: Result<Proposal<R>, &'static str>)
        ensures
            text_len > PROPOSAL_LIMIT ==> (r matches Err(e) && e == "launcher proposal limit"),
            text_len <= PROPOSAL_LIMIT ==> (r is Ok <==> parsed.is_launcher_open()),
            text_len <= PROPOSAL_LIMIT && r is Err ==> r->Err_0 == "launcher proposal must open, never index",
            r matches Ok(p) ==> p.request_view() == request,
    {
        if text_len > PROPOSAL_LIMIT {
            return Err("launcher proposal limit");
        }
        match parsed.launcher_proposal() {
            Ok(()) => Ok(Proposal { request }),
            Err(e) => Err(e),
        }
    }
}

/// A launcher request. `request` is the proposal to open, if any; `stop`
/// is the cancellation flag shared with its preparation.
pub struct Entry<R, O> {
    pub id: String,
    pub stop: Arc<AtomicUsize>,
    pub phase: Phase,
    pub request: Option<R>,
    pub confirm_levels: bool,
    pub error: Option<Failure>,
    pub receipt: Option<(String, LaunchReceipt<O>)>,
}

pub struct EntryView<R, O> {
    pub id: Seq<char>,
    pub phase: Phase,
    pub request: Option<R>,
    pub confirm_levels: bool,
    pub error: Option<Failure>,
    pub receipt: Option<(Seq<char>, LaunchReceipt<O>)>,
}

impl<R, O> View for Entry<R, O> {
    type V = EntryView<R, O>;

    open spec fn view(&self) -> EntryView<R, O> {
        EntryView {
            id: self.id@,
            phase: self.phase,
            request: self.request,
            confirm_levels: self.confirm_levels,
            error: self.error,
            receipt: match self.receipt {
                Some((s, r)) => Some((s@, r)),
                None => None,
            },
        }
    }
}

pub open spec fn entries_view<R, O>(v: Seq<Entry<R, O>>) -> Seq<EntryView<R, O>> {
    v.map_values(|e: Entry<R, O>| e@)
}

/// The launcher's history of requests, newest last.
pub struct Launches<R, O> {
    revision: u64,
    closed: bool,
    entries: Vec<Entry<R, O>>,
}

pub struct LaunchView<R, O> {
    pub revision: u64,
    pub closed: bool,
    pub entries: Seq<EntryView<R, O>>,
}

impl<R, O> View for Launches<R, O> {
    type V = LaunchView<R, O>;

    closed spec fn view(&self) -> LaunchView<R, O> {
        LaunchView { revision: self.revision, closed: self.closed, entries: entries_view(self.entries@) }
    }
}

/// The history is bounded, only its newest request may be pending, and a
/// shut-down launcher has none pending.
pub open spec fn launch_wf<R, O>(v: LaunchView<R, O>) -> bool {
    &&& v.entries.len() <= HISTORY
    &&& forall|i: int| 0 <= i < v.entries.len() - 1 ==> !is_pending(#[trigger] v.entries[i].phase)
    &&& v.closed ==> forall|i: int| 0 <= i < v.entries.len() ==> !is_pending(#[trigger] v.entries[i].phase)
}

/// The revision after a change: one more, held at the largest value.
pub open spec fn bump(r: u64) -> u64 {
    if r == u64::MAX {
        r
    } else {
        (r + 1) as u64
    }
}

/// The first request with identity `id`.
#[verifier::opaque]
pub open spec fn first_with<R, O>(e: Seq<EntryView<R, O>>, id: Seq<char>) -> Option<int> {
    if exists|k: int| 0 <= k < e.len() && (#[trigger] e[k]).id == id && forall|j: int| 0 <= j < k ==> e[j].id != id {
        Some(choose|k: int| 0 <= k < e.len() && (#[trigger] e[k]).id == id && forall|j: int| 0 <= j < k ==> e[j].id != id)
    } else {
        None
    }
}

/// The first request with identity `id` that is still preparing.
#[verifier::opaque]
pub open spec fn first_preparing<R, O>(e: Seq<EntryView<R, O>>, id: Seq<char>) -> Option<int> {
    if exists|k: int|
        0 <= k < e.len() && (#[trigger] e[k]).id == id && e[k].phase == Phase::Preparing && forall|j: int|
            0 <= j < k ==> !(e[j].id == id && e[j].phase == Phase::Preparing) {
        Some(
            choose|k: int|
                0 <= k < e.len() && (#[trigger] e[k]).id == id && e[k].phase == Phase::Preparing && forall|j: int|
                    0 <= j < k ==> !(e[j].id == id && e[j].phase == Phase::Preparing),
        )
    } else {
        None
    }
}

/// The first pending request.
#[verifier::opaque]
pub open spec fn first_pending<R, O>(e: Seq<EntryView<R, O>>) -> Option<int> {
    if exists|k: int| 0 <= k < e.len() && is_pending((#[trigger] e[k]).phase) && forall|j: int| 0 <= j < k ==> !is_pending(e[j].phase) {
        Some(choose|k: int| 0 <= k < e.len() && is_pending((#[trigger] e[k]).phase) && forall|j: int| 0 <= j < k ==> !is_pending(e[j].phase))
    } else {
        None
    }
}

/// Why a reservation is refused before an identity is drawn, if it is.
pub open spec fn reserve_refusal<R, O>(v: LaunchView<R, O>) -> Option<LaunchError> {
    if v.closed {
        Some(LaunchError::Closed)
    } else if first_pending(v.entries) is Some || v.revision > u64::MAX - 4 {
        Some(LaunchError::Busy)
    } else {
        None
    }
}

/// The launcher after reserving request `id`: the oldest request leaves a
/// full history.
pub open spec fn reserved<R, O>(v: LaunchView<R, O>, id: Seq<char>) -> LaunchView<R, O> {
    let kept = if v.entries.len() == HISTORY {
        v.entries.drop_first()
    } else {
        v.entries
    };
    LaunchView {
        revision: bump(v.revision),
        closed: v.closed,
        entries: kept.push(
            EntryView {
                id,
                phase: Phase::Preparing,
                request: None,
                confirm_levels: false,
                error: None,
                receipt: None,
            },
        ),
    }
}

/// The launcher after request `k` became ready with its proposal.
pub open spec fn readied<R, O>(v: LaunchView<R, O>, k: int, request: Option<R>, confirm_levels: bool) -> LaunchView<R, O> {
    LaunchView {
        revision: bump(v.revision),
        closed: v.closed,
        entries: v.entries.update(
            k,
            EntryView { phase: Phase::Ready, request, confirm_levels, ..v.entries[k] },
        ),
    }
}

/// The launcher after request `k` failed to prepare.
pub open spec fn failed_at<R, O>(v: LaunchView<R, O>, k: int, f: Failure) -> LaunchView<R, O> {
    LaunchView {
        revision: bump(v.revision),
        closed: v.closed,
        entries: v.entries.update(k, EntryView { phase: Phase::Failed, error: Some(f), ..v.entries[k] }),
    }
}

/// A request after shutdown: a pending one is dismissed.
pub open spec fn dismissed<R, O>(e: EntryView<R, O>) -> EntryView<R, O> {
    if is_pending(e.phase) {
        EntryView { phase: Phase::Dismissed, ..e }
    } else {
        e
    }
}

/// The launcher after shutdown.
pub open spec fn stopped<R, O>(v: LaunchView<R, O>) -> LaunchView<R, O> {
    if v.closed {
        v
    } else {
        LaunchView {
            revision: bump(v.revision),
            closed: true,
            entries: v.entries.map_values(|e: EntryView<R, O>| dismissed(e)),
        }
    }
}

/// Request `k` answered with `receipt`, its phase moved to `p`.
pub open spec fn answered<R, O>(v: LaunchView<R, O>, k: int, p: Phase, signature: Seq<char>, receipt: LaunchReceipt<O>) -> LaunchView<R, O> {
    LaunchView {
        revision: bump(v.revision),
        closed: v.closed,
        entries: v.entries.update(k, EntryView { phase: p, receipt: Some((signature, receipt)), ..v.entries[k] }),
    }
}

/// How an owner's answer to request `id` stands before it is acted on: the
/// launcher is shut down, the request is gone, the request was answered
/// (by this action or another), or it waits for its answer.
pub enum Standing<O> {
    Closed,
    Expired,
    Replay(LaunchReceipt<O>),
    Conflict,
    Fresh(int),
}

pub open spec fn standing<R, O>(v: LaunchView<R, O>, id: Seq<char>, signature: Seq<char>) -> Standing<O> {
    if v.closed {
        Standing::Closed
    } else {
        match first_with(v.entries, id) {
            None => Standing::Expired,
            Some(k) => match v.entries[k].receipt {
                Some((s, r)) => if s == signature {
                    Standing::Replay(r)
                } else {
                    Standing::Conflict
                },
                None => Standing::Fresh(k),
            },
        }
    }
}

/// What acting on a fresh request `k` does, for the actions decided here.
/// An open is accepted as `Open` and recorded once submitted.
pub enum Acted {
    Dismissed,
    Presented,
    Open(u64, Option<(Seq<char>, u64)>),
    Refused(&'static str),
}

pub open spec fn acted<R, O>(v: LaunchView<R, O>, k: int, action: Action) -> Acted {
    let e = v.entries[k];
    match action {
        Action::Dismiss => if is_pending(e.phase) {
            Acted::Dismissed
        } else {
            Acted::Refused("launch_unavailable")
        },
        Action::Present => if e.phase == Phase::Ready && e.request is None {
            Acted::Presented
        } else {
            Acted::Refused("launch_unavailable")
        },
        Action::Open { seq, view_id, state_rev, .. } => if e.phase != Phase::Ready {
            Acted::Refused("launch_unavailable")
        } else {
            match counter_value(utf8(seq@)) {
                None => Acted::Refused("invalid_request"),
                Some(n) => match (view_id, state_rev) {
                    (None, None) => if e.request is None {
                        Acted::Refused("invalid_request")
                    } else {
                        Acted::Open(n, None)
                    },
                    (Some(v), Some(rev)) => match counter_value(utf8(rev@)) {
                        None => Acted::Refused("invalid_request"),
                        Some(r) => if e.request is None {
                            Acted::Refused("invalid_request")
                        } else {
                            Acted::Open(n, Some((v@, r)))
                        },
                    },
                    _ => Acted::Refused("invalid_request"),
                },
            }
        },
    }
}

/// Another handle on a cancellation flag, through `Arc::clone`. Nothing is
/// stated of it: the flag's value is shared with other holders.
#[verifier::external_body]
fn share(flag: &Arc<AtomicUsize>) -> (r: Arc<AtomicUsize>) {
    Arc::clone(flag)
}

/// Whether a cancellation flag is set. Other holders share the flag, so
/// nothing is known of the answer.
fn flag_set(flag: &Arc<AtomicUsize>) -> bool {
    flag.load(Ordering::Relaxed) != 0
}

/// Sets a cancellation flag.
fn raise(flag: &Arc<AtomicUsize>) {
    flag.store(1, Ordering::Relaxed);
}

fn same(a: &String, b: &String) -> (r: bool)
    ensures
        r == (a@ == b@),
{
    *a == *b
}

impl<R, O> Launches<R, O> {
    #[verifier::type_invariant]
    closed spec fn inv(self) -> bool {
        launch_wf(self@)
    }

    /// An open launcher with no requests.
    pub fn new() -> (r: Launches<R, O>)
        ensures
            r@.revision == 0,
            !r@.closed,
            r@.entries.len() == 0,
    {
        Launches { revision: 0, closed: false, entries: Vec::new() }
    }

    /// The revision: it moves on with every change.
    pub fn revision(&self) -> (r: u64)
        ensures
            r == self@.revision,
    {
        self.revision
    }

    /// Whether the launcher is shut down.
    pub fn is_closed(&self) -> (r: bool)
        ensures
            r == self@.closed,
    {
        self.closed
    }

    /// The requests kept, oldest first.
    pub fn entries(&self) -> (r: &Vec<Entry<R, O>>)
        ensures
            entries_view(r@) == self@.entries,
            launch_wf(self@),
    {
        proof {
            use_type_invariant(self);
        }
        &self.entries
    }

    fn find(&self, id: &String) -> (r: Option<usize>)
        ensures
            match r {
                Some(k) => first_with(self@.entries, id@) == Some(k as int),
                None => first_with(self@.entries, id@) is None,
            },
            self@.entries.len() == self.entries@.len(),
            r matches Some(k) ==> k < self.entries@.len() && self@.entries[k as int] == self.entries@[k as int]@
                && self@.entries[k as int].id == id@,
    {
        let ghost e = self@.entries;
        let mut k: usize = 0;
        while k < self.entries.len()
            invariant
                k <= self.entries@.len(),
                e == entries_view(self.entries@),
                forall|j: int| 0 <= j < k ==> (#[trigger] e[j]).id != id@,
            decreases self.entries@.len() - k,
        {
            assert(e[k as int] == self.entries@[k as int]@);
            if same(&self.entries[k].id, id) {
                proof {
                    lemma_first_with_at(e, id@, k as int);
                }
                return Some(k);
            }
            k = k + 1;
        }
        proof {
            lemma_first_with_none(e, id@);
        }
        None
    }

    /// The first pending request: the one outstanding, if any.
    pub fn pending(&self) -> (r: Option<&Entry<R, O>>)
        ensures
            match first_pending(self@.entries) {
                Some(k) => r matches Some(e) && e@ == self@.entries[k],
                None => r is None,
            },
    {
        let ghost e = self@.entries;
        let mut k: usize = 0;
        while k < self.entries.len()
            invariant
                k <= self.entries@.len(),
                e == entries_view(self.entries@),
                e == self@.entries,
                forall|j: int| 0 <= j < k ==> !is_pending((#[trigger] e[j]).phase),
            decreases self.entries@.len() - k,
        {
            assert(e[k as int] == self.entries@[k as int]@);
            let p = self.entries[k].phase;
            if p == Phase::Preparing || p == Phase::Ready || p == Phase::Failed {
                proof {
                    lemma_first_pending_at(e, k as int);
                }
                return Some(&self.entries[k]);
            }
            k = k + 1;
        }
        proof {
            lemma_first_pending_none(e);
        }
        None
    }

    /// Reserves the one outstanding launcher request under a fresh public
    /// identity, and returns it with the request's cancellation flag.
    pub fn reserve(&mut self) -> (r: Result<(String, Arc<AtomicUsize>), LaunchError>)
        ensures
            match reserve_refusal(old(self)@) {
                Some(e) => r == Err::<(String, Arc<AtomicUsize>), LaunchError>(e) && final(self)@ == old(self)@,
                None => match r {
                    Ok((id, _)) => is_public_id(id@) && final(self)@ == reserved(old(self)@, id@),
                    Err(e) => e == LaunchError::Entropy && final(self)@ == old(self)@,
                },
            },
    {
        proof {
            use_type_invariant(&*self);
        }
        if self.closed {
            return Err(LaunchError::Closed);
        }
        if self.pending().is_some() || self.revision > u64::MAX - 4 {
            return Err(LaunchError::Busy);
        }
        let id = match public_id() {
            Ok(id) => id,
            Err(_) => return Err(LaunchError::Entropy),
        };
        let stop = Arc::new(AtomicUsize::new(0));
        let ghost before = self@;
        let entry = Entry {
            id: id.clone(),
            stop: share(&stop),
            phase: Phase::Preparing,
            request: None,
            confirm_levels: false,
            error: None,
            receipt: None,
        };
        let mut entries: Vec<Entry<R, O>> = Vec::new();
        std::mem::swap(&mut entries, &mut self.entries);
        if entries.len() == HISTORY {
            entries.remove(0);
        }
        entries.push(entry);
        proof {
            let kept = if before.entries.len() == HISTORY {
                before.entries.drop_first()
            } else {
                before.entries
            };
            assert(entries_view(entries@) =~= reserved(before, id@).entries) by {
                assert forall|j: int| 0 <= j < entries@.len() - 1 implies entries@[j]@ == kept[j] by {
                    if before.entries.len() == HISTORY {
                        assert(entries@[j]@ == before.entries[j + 1]);
                    }
                }
            }
            assert forall|i: int| 0 <= i < entries_view(entries@).len() - 1 implies !is_pending(
                #[trigger] entries_view(entries@)[i].phase,
            ) by {
                let kk = if before.entries.len() == HISTORY { i + 1 } else { i };
                assert(entries_view(entries@)[i] == before.entries[kk]);
                if is_pending(before.entries[kk].phase) {
                    lemma_first_pending_some(before.entries, kk);
                }
            }
        }
        self.entries = entries;
        self.revision = self.revision + 1;
        Ok((id, stop))
    }

    /// Reports that request `id` has prepared its proposal (none for a
    /// present request). Only a request still preparing, and not cancelled
    /// through its flag, becomes ready; the flag is read here, so a request
    /// whose flag another holder set is refused as cancelled.
    pub fn ready(&mut self, id: &str, request: Option<Proposal<R>>, confirm_levels: bool) -> (r: Result<(), LaunchError>)
        ensures
            if request is None && confirm_levels {
                r == Err::<(), LaunchError>(LaunchError::LevelsWithoutRequest) && final(self)@ == old(self)@
            } else {
                match first_with(old(self)@.entries, id@) {
                    None => r == Err::<(), LaunchError>(LaunchError::Expired) && final(self)@ == old(self)@,
                    Some(k) => if old(self)@.entries[k].phase != Phase::Preparing {
                        r == Err::<(), LaunchError>(LaunchError::Cancelled) && final(self)@ == old(self)@
                    } else {
                        (r == Err::<(), LaunchError>(LaunchError::Cancelled) && final(self)@ == old(self)@) || (r is Ok
                            && final(self)@ == readied(old(self)@, k, proposed(request), confirm_levels))
                    },
                }
            },
    {
        proof {
            use_type_invariant(&*self);
        }
        if request.is_none() && confirm_levels {
            return Err(LaunchError::LevelsWithoutRequest);
        }
        let key = String::from_str(id);
        let k = match self.find(&key) {
            Some(k) => k,
            None => return Err(LaunchError::Expired),
        };
        let ghost before = self@;
        assert(before.entries[k as int] == self.entries@[k as int]@);
        if self.entries[k].phase != Phase::Preparing || flag_set(&self.entries[k].stop) {
            return Err(LaunchError::Cancelled);
        }
        let mut entries: Vec<Entry<R, O>> = Vec::new();
        std::mem::swap(&mut entries, &mut self.entries);
        let mut e = entries.remove(k);
        e.request = match request {
            Some(p) => Some(p.request),
            None => None,
        };
        e.confirm_levels = confirm_levels;
        e.phase = Phase::Ready;
        entries.insert(k, e);
        proof {
            assert(entries_view(entries@) =~= readied(before, k as int, proposed(request), confirm_levels).entries);
        }
        self.entries = entries;
        self.revision = if self.revision == u64::MAX {
            u64::MAX
        } else {
            self.revision + 1
        };
        Ok(())
    }

    /// Reports that request `id` failed to prepare. Only a request still
    /// preparing records the failure; any other report changes nothing.
    pub fn failed(&mut self, id: &str, failure: Failure)
        ensures
            match first_preparing(old(self)@.entries, id@) {
                Some(k) => final(self)@ == failed_at(old(self)@, k, failure),
                None => final(self)@ == old(self)@,
            },
    {
        proof {
            use_type_invariant(&*self);
        }
        let key = String::from_str(id);
        let ghost before = self@;
        let ghost e = self@.entries;
        let mut k: usize = 0;
        while k < self.entries.len()
            invariant
                k <= self.entries@.len(),
                e == entries_view(self.entries@),
                before == self@,
                before == old(self)@,
                launch_wf(before),
                key@ == id@,
                forall|j: int| 0 <= j < k ==> !((#[trigger] e[j]).id == id@ && e[j].phase == Phase::Preparing),
            decreases self.entries@.len() - k,
        {
            assert(e[k as int] == self.entries@[k as int]@);
            if same(&self.entries[k].id, &key) && self.entries[k].phase == Phase::Preparing {
                proof {
                    lemma_first_preparing_at(e, id@, k as int);
                    lemma_only_newest_pending(before, k as int);
                }
                let mut entries: Vec<Entry<R, O>> = Vec::new();
                std::mem::swap(&mut entries, &mut self.entries);
                let mut en = entries.remove(k);
                en.phase = Phase::Failed;
                en.error = Some(failure);
                entries.insert(k, en);
                proof {
                    assert(entries_view(entries@) =~= failed_at(before, k as int, failure).entries);
                }
                self.entries = entries;
                self.revision = if self.revision == u64::MAX {
                    u64::MAX
                } else {
                    self.revision + 1
                };
                return;
            }
            k = k + 1;
        }
        proof {
            lemma_first_preparing_none(e, id@);
        }
    }

    /// Shuts the launcher down for good: every request's flag is set, and
    /// every pending request is dismissed. A second shutdown changes
    /// nothing.
    pub fn stop(&mut self)
        ensures
            final(self)@ == stopped(old(self)@),
    {
        proof {
            use_type_invariant(&*self);
        }
        if self.closed {
            return;
        }
        let ghost before = self@;
        let mut rest: Vec<Entry<R, O>> = Vec::new();
        std::mem::swap(&mut rest, &mut self.entries);
        let mut entries: Vec<Entry<R, O>> = Vec::new();
        let ghost all = entries_view(rest@);
        let mut k: usize = 0;
        while rest.len() > 0
            invariant
                all == before.entries,
                all.len() <= HISTORY,
                k + rest@.len() == all.len(),
                entries_view(rest@) == all.subrange(k as int, all.len() as int),
                entries_view(entries@) == all.take(k as int).map_values(|e: EntryView<R, O>| dismissed(e)),
            decreases rest@.len(),
        {
            let ghost r0 = rest@;
            let ghost prev = entries_view(entries@);
            let mut e = rest.remove(0);
            proof {
                assert(e@ == entries_view(r0)[0]);
                assert(entries_view(r0)[0] == all[k as int]);
                assert(entries_view(rest@) =~= entries_view(r0).drop_first());
            }
            raise(&e.stop);
            if e.phase == Phase::Preparing || e.phase == Phase::Ready || e.phase == Phase::Failed {
                e.phase = Phase::Dismissed;
            }
            proof {
                assert(e@ == dismissed(all[k as int]));
            }
            entries.push(e);
            proof {
                let want = all.take(k + 1).map_values(|e: EntryView<R, O>| dismissed(e));
                assert(entries_view(entries@) =~= prev.push(e@));
                assert forall|j: int| 0 <= j < k + 1 implies #[trigger] entries_view(entries@)[j] == want[j] by {
                    if j < k {
                        assert(prev[j] == dismissed(all[j]));
                    }
                }
                assert(entries_view(entries@) =~= want);
                assert(entries_view(rest@) =~= all.subrange(k + 1, all.len() as int));
            }
            k = k + 1;
        }
        proof {
            assert(all.take(k as int) =~= all);
            let done = all.map_values(|e: EntryView<R, O>| dismissed(e));
            assert forall|i: int| 0 <= i < done.len() implies !is_pending(#[trigger] done[i].phase) by {
                assert(done[i] == dismissed(all[i]));
            }
        }
        self.entries = entries;
        self.closed = true;
        self.revision = if self.revision == u64::MAX {
            u64::MAX
        } else {
            self.revision + 1
        };
    }

    /// How an owner's answer with `signature` to request `id` stands: a
    /// recorded receipt answers the same answer again and refuses any other.
    pub fn lookup(&self, id: &str, signature: &str) -> (r: Result<Option<&LaunchReceipt<O>>, &'static str>)
        ensures
            match standing(self@, id@, signature@) {
                Standing::Closed => r == Err::<Option<&LaunchReceipt<O>>, &'static str>("closed"),
                Standing::Expired => r == Err::<Option<&LaunchReceipt<O>>, &'static str>("launch_expired"),
                Standing::Conflict => r == Err::<Option<&LaunchReceipt<O>>, &'static str>("launch_conflict"),
                Standing::Replay(rc) => r matches Ok(Some(x)) && *x == rc,
                Standing::Fresh(_) => r matches Ok(None),
            },
    {
        if self.closed {
            return Err("closed");
        }
        let key = String::from_str(id);
        let k = match self.find(&key) {
            Some(k) => k,
            None => return Err("launch_expired"),
        };
        assert(self@.entries[k as int] == self.entries@[k as int]@);
        match &self.entries[k].receipt {
            Some((s, rc)) => {
                let sig = String::from_str(signature);
                if same(s, &sig) {
                    Ok(Some(rc))
                } else {
                    Err("launch_conflict")
                }
            },
            None => Ok(None),
        }
    }

    /// Acts on a fresh request `id` with `action`. A dismissal sets the
    /// request's flag; a dismissal or a present is recorded under
    /// `signature` at once. An open is checked and returned for submission,
    /// and recorded by `submitted` once it has been submitted.
    pub fn act(&mut self, id: &str, signature: String, action: &Action) -> (r: Result<Option<OpenClaim>, &'static str>)
        requires
            standing(old(self)@, id@, signature@) is Fresh,
        ensures
            ({
                let k = standing(old(self)@, id@, signature@)->Fresh_0;
                match acted(old(self)@, k, *action) {
                    Acted::Dismissed => r == Ok::<Option<OpenClaim>, &'static str>(None) && final(self)@ == answered(
                        old(self)@,
                        k,
                        Phase::Dismissed,
                        signature@,
                        LaunchReceipt::Dismissed,
                    ),
                    Acted::Presented => r == Ok::<Option<OpenClaim>, &'static str>(None) && final(self)@ == answered(
                        old(self)@,
                        k,
                        Phase::Presented,
                        signature@,
                        LaunchReceipt::Presented,
                    ),
                    Acted::Open(seq, replace) => final(self)@ == old(self)@ && (r matches Ok(Some(c)) && c.seq == seq
                        && match (c.replace, replace) {
                        (Some((v, n)), Some((w, m))) => v@ == w && n == m,
                        (None, None) => true,
                        _ => false,
                    }),
                    Acted::Refused(e) => r == Err::<Option<OpenClaim>, &'static str>(e) && final(self)@ == old(self)@,
                }
            }),
    {
        proof {
            use_type_invariant(&*self);
        }
        let key = String::from_str(id);
        let k = match self.find(&key) {
            Some(k) => k,
            None => return Err("launch_expired"),
        };
        let ghost before = self@;
        assert(before.entries[k as int] == self.entries@[k as int]@);
        let phase = self.entries[k].phase;
        let pending = phase == Phase::Preparing || phase == Phase::Ready || phase == Phase::Failed;
        let (next, receipt) = match action {
            Action::Dismiss => {
                if !pending {
                    return Err("launch_unavailable");
                }
                raise(&self.entries[k].stop);
                (Phase::Dismissed, LaunchReceipt::Dismissed)
            },
            Action::Present => {
                if phase != Phase::Ready || self.entries[k].request.is_some() {
                    return Err("launch_unavailable");
                }
                (Phase::Presented, LaunchReceipt::Presented)
            },
            Action::Open { seq, view_id, state_rev, .. } => {
                if phase != Phase::Ready {
                    return Err("launch_unavailable");
                }
                let n = counter(seq.as_str())?;
                if view_id.is_some() != state_rev.is_some() {
                    return Err("invalid_request");
                }
                let replace = match (view_id, state_rev) {
                    (Some(v), Some(s)) => Some((v.clone(), counter(s.as_str())?)),
                    _ => None,
                };
                if self.entries[k].request.is_none() {
                    return Err("invalid_request");
                }
                return Ok(Some(OpenClaim { seq: n, replace }));
            },
        };
        let mut entries: Vec<Entry<R, O>> = Vec::new();
        std::mem::swap(&mut entries, &mut self.entries);
        let mut e = entries.remove(k);
        e.phase = next;
        e.receipt = Some((signature, receipt));
        entries.insert(k, e);
        proof {
            assert(entries_view(entries@) =~= answered(before, k as int, next, signature@, receipt).entries);
        }
        self.entries = entries;
        self.revision = if self.revision == u64::MAX {
            u64::MAX
        } else {
            self.revision + 1
        };
        Ok(None)
    }

    /// Records that the open accepted by `act` for request `id` was
    /// submitted, with the operation's first state.
    pub fn submitted(&mut self, id: &str, signature: String, operation: O)
        requires
            standing(old(self)@, id@, signature@) is Fresh,
            old(self)@.entries[standing(old(self)@, id@, signature@)->Fresh_0].phase == Phase::Ready,
        ensures
            final(self)@ == answered(
                old(self)@,
                standing(old(self)@, id@, signature@)->Fresh_0,
                Phase::Submitted,
                signature@,
                LaunchReceipt::Submitted(operation),
            ),
    {
        proof {
            use_type_invariant(&*self);
        }
        let key = String::from_str(id);
        let k = match self.find(&key) {
            Some(k) => k,
            None => return,
        };
        let ghost before = self@;
        let mut entries: Vec<Entry<R, O>> = Vec::new();
        std::mem::swap(&mut entries, &mut self.entries);
        let mut e = entries.remove(k);
        e.phase = Phase::Submitted;
        e.receipt = Some((signature, LaunchReceipt::Submitted(operation)));
        entries.insert(k, e);
        proof {
            assert(entries_view(entries@) =~= answered(
                before,
                k as int,
                Phase::Submitted,
                signature@,
                LaunchReceipt::Submitted(operation),
            ).entries);
        }
        self.entries = entries;
        self.revision = if self.revision == u64::MAX {
            u64::MAX
        } else {
            self.revision + 1
        };
    }
}

proof fn lemma_first_with_at<R, O>(e: Seq<EntryView<R, O>>, id: Seq<char>, k: int)
    requires
        0 <= k < e.len(),
        e[k].id == id,
        forall|j: int| 0 <= j < k ==> (#[trigger] e[j]).id != id,
    ensures
        first_with(e, id) == Some(k),
{
    reveal(first_with);
    assert(0 <= k < e.len() && e[k].id == id && forall|j: int| 0 <= j < k ==> e[j].id != id);
    let c = choose|c: int| 0 <= c < e.len() && (#[trigger] e[c]).id == id && forall|j: int| 0 <= j < c ==> e[j].id != id;
    if c < k {
        assert(e[c].id != id);
    } else if c > k {
        assert(e[k].id != id);
    }
}

proof fn lemma_first_with_none<R, O>(e: Seq<EntryView<R, O>>, id: Seq<char>)
    requires
        forall|j: int| 0 <= j < e.len() ==> (#[trigger] e[j]).id != id,
    ensures
        first_with(e, id) is None,
{
    reveal(first_with);
}

proof fn lemma_first_preparing_at<R, O>(e: Seq<EntryView<R, O>>, id: Seq<char>, k: int)
    requires
        0 <= k < e.len(),
        e[k].id == id && e[k].phase == Phase::Preparing,
        forall|j: int| 0 <= j < k ==> !((#[trigger] e[j]).id == id && e[j].phase == Phase::Preparing),
    ensures
        first_preparing(e, id) == Some(k),
{
    reveal(first_preparing);
    assert(0 <= k < e.len() && e[k].id == id && e[k].phase == Phase::Preparing && forall|j: int|
        0 <= j < k ==> !(e[j].id == id && e[j].phase == Phase::Preparing));
    let c = choose|c: int|
        0 <= c < e.len() && (#[trigger] e[c]).id == id && e[c].phase == Phase::Preparing && forall|j: int|
            0 <= j < c ==> !(e[j].id == id && e[j].phase == Phase::Preparing);
    if c < k {
        assert(!(e[c].id == id && e[c].phase == Phase::Preparing));
    } else if c > k {
        assert(!(e[k].id == id && e[k].phase == Phase::Preparing));
    }
}

proof fn lemma_first_preparing_none<R, O>(e: Seq<EntryView<R, O>>, id: Seq<char>)
    requires
        forall|j: int| 0 <= j < e.len() ==> !((#[trigger] e[j]).id == id && e[j].phase == Phase::Preparing),
    ensures
        first_preparing(e, id) is None,
{
    reveal(first_preparing);
}

proof fn lemma_first_pending_at<R, O>(e: Seq<EntryView<R, O>>, k: int)
    requires
        0 <= k < e.len(),
        is_pending(e[k].phase),
        forall|j: int| 0 <= j < k ==> !is_pending((#[trigger] e[j]).phase),
    ensures
        first_pending(e) == Some(k),
{
    reveal(first_pending);
    assert(0 <= k < e.len() && is_pending(e[k].phase) && forall|j: int| 0 <= j < k ==> !is_pending(e[j].phase));
    let c = choose|c: int| 0 <= c < e.len() && is_pending((#[trigger] e[c]).phase) && forall|j: int| 0 <= j < c ==> !is_pending(e[j].phase);
    if c < k {
        assert(!is_pending(e[c].phase));
    } else if c > k {
        assert(!is_pending(e[k].phase));
    }
}

proof fn lemma_first_pending_none<R, O>(e: Seq<EntryView<R, O>>)
    requires
        forall|j: int| 0 <= j < e.len() ==> !is_pending((#[trigger] e[j]).phase),
    ensures
        first_pending(e) is None,
{
    reveal(first_pending);
}

proof fn lemma_first_pending_some<R, O>(e: Seq<EntryView<R, O>>, n: int)
    requires
        0 <= n < e.len(),
        is_pending(e[n].phase),
    ensures
        first_pending(e) is Some,
    decreases n,
{
    if exists|j: int| 0 <= j < n && is_pending((#[trigger] e[j]).phase) {
        let j = choose|j: int| 0 <= j < n && is_pending((#[trigger] e[j]).phase);
        lemma_first_pending_some(e, j);
    } else {
        lemma_first_pending_at(e, n);
    }
}

/// In a well-formed launcher a pending request is the newest, and the
/// launcher is open.
proof fn lemma_only_newest_pending<R, O>(v: LaunchView<R, O>, k: int)
    requires
        launch_wf(v),
        0 <= k < v.entries.len(),
        is_pending(v.entries[k].phase),
    ensures
        k == v.entries.len() - 1,
        !v.closed,
{
}


/// Requests keep their identities when one of them changes phase or is
/// answered.
proof fn lemma_first_with_update<R, O>(v: Seq<EntryView<R, O>>, w: Seq<EntryView<R, O>>, k: int)
    requires
        first_with(v, v[k].id) == Some(k),
        0 <= k < v.len(),
        w.len() == v.len(),
        forall|j: int| 0 <= j < v.len() ==> (#[trigger] w[j]).id == v[j].id,
    ensures
        first_with(w, v[k].id) == Some(k),
{
    reveal(first_with);
    let id = v[k].id;
    let c = choose|c: int| 0 <= c < v.len() && (#[trigger] v[c]).id == id && forall|j: int| 0 <= j < c ==> v[j].id != id;
    assert(c == k);
    assert forall|j: int| 0 <= j < k implies (#[trigger] w[j]).id != id by {
        assert(v[j].id != id);
    }
    lemma_first_with_at(w, id, k);
}

/// At most one launcher request is outstanding, and it is the newest.
pub proof fn law_one_request_outstanding<R, O>(v: LaunchView<R, O>, i: int, j: int)
    requires
        launch_wf(v),
        0 <= i < v.entries.len(),
        0 <= j < v.entries.len(),
        is_pending(v.entries[i].phase),
        is_pending(v.entries[j].phase),
    ensures
        i == j,
        i == v.entries.len() - 1,
{
}

/// Once a request is reserved, another reservation is refused as busy
/// until the first is answered.
pub proof fn law_second_reservation_is_busy<R, O>(v: LaunchView<R, O>, id: Seq<char>)
    requires
        launch_wf(v),
        reserve_refusal(v) is None,
    ensures
        reserve_refusal(reserved(v, id)) == Some(LaunchError::Busy),
{
    let w = reserved(v, id);
    lemma_first_pending_some(w.entries, w.entries.len() - 1);
}

/// Shutdown is terminal: afterwards nothing is pending, a reservation is
/// refused as closed, no request can become ready or fail, every answer is
/// refused as closed, and a second shutdown changes nothing.
pub proof fn law_shutdown_is_terminal<R, O>(v: LaunchView<R, O>, id: Seq<char>, signature: Seq<char>)
    requires
        launch_wf(v),
    ensures
        ({
            let s = stopped(v);
            &&& s.closed
            &&& forall|i: int| 0 <= i < s.entries.len() ==> !is_pending(#[trigger] s.entries[i].phase)
            &&& reserve_refusal(s) == Some(LaunchError::Closed)
            &&& first_preparing(s.entries, id) is None
            &&& (first_with(s.entries, id) matches Some(k) ==> s.entries[k].phase != Phase::Preparing)
            &&& standing(s, id, signature) is Closed
            &&& stopped(s) == s
        }),
{
    let s = stopped(v);
    if !v.closed {
        assert forall|i: int| 0 <= i < s.entries.len() implies !is_pending(#[trigger] s.entries[i].phase) by {
            assert(s.entries[i] == dismissed(v.entries[i]));
        }
    }
    lemma_first_preparing_none(s.entries, id);
    if let Some(k) = first_with(s.entries, id) {
        reveal(first_with);
        let c = choose|c: int| 0 <= c < s.entries.len() && (#[trigger] s.entries[c]).id == id && forall|j: int| 0 <= j < c ==> s.entries[j].id != id;
        assert(!is_pending(s.entries[c].phase));
    }
}

/// A dismissed request never becomes ready: a later readiness report finds
/// it no longer preparing and is refused.
pub proof fn law_dismissed_request_never_becomes_ready<R, O>(v: LaunchView<R, O>, k: int, signature: Seq<char>)
    requires
        launch_wf(v),
        0 <= k < v.entries.len(),
        first_with(v.entries, v.entries[k].id) == Some(k),
    ensures
        ({
            let w = answered(v, k, Phase::Dismissed, signature, LaunchReceipt::Dismissed);
            &&& first_with(w.entries, v.entries[k].id) == Some(k)
            &&& w.entries[k].phase != Phase::Preparing
        }),
{
    let w = answered(v, k, Phase::Dismissed, signature, LaunchReceipt::Dismissed);
    lemma_first_with_update(v.entries, w.entries, k);
}

/// An answer is recorded once: afterwards the same answer is replayed with
/// the recorded receipt, and any other answer is refused as a conflict.
pub proof fn law_answer_is_recorded_once<R, O>(
    v: LaunchView<R, O>,
    k: int,
    p: Phase,
    signature: Seq<char>,
    receipt: LaunchReceipt<O>,
    other: Seq<char>,
)
    requires
        launch_wf(v),
        !v.closed,
        0 <= k < v.entries.len(),
        first_with(v.entries, v.entries[k].id) == Some(k),
        other != signature,
    ensures
        ({
            let w = answered(v, k, p, signature, receipt);
            &&& standing(w, v.entries[k].id, signature) == Standing::Replay(receipt)
            &&& standing(w, v.entries[k].id, other) is Conflict
        }),
{
    let w = answered(v, k, p, signature, receipt);
    lemma_first_with_update(v.entries, w.entries, k);
}

} // verus!
