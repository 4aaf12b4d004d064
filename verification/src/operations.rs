//! Bounded at-most-once acceptance of owner mutations. The high-water mark
//! survives history eviction: an old sequence number is never taken for a
//! new command.
//!
//! A record's state is whatever its owner reports; the ledger carries it and
//! keeps the record's scope, which progress reports can never rewrite.
use crate::drc::is_identity;
use crate::guest::{json_view, Json, JsonView};
use crate::wire::utf8;
use vstd::prelude::*;
use vstd::string::StringExecFns;

verus! {

/// Receipts kept for replay.
pub const HISTORY: usize = 32;

/// Largest request signature, in bytes.
pub const SIGNATURE_BYTES: usize = 128 * 1024;

pub struct Record<S> {
    seq: u64,
    signature: String,
    scope_id: Option<String>,
    state: S,
}

pub struct RecordView<S> {
    pub seq: u64,
    pub signature: Seq<char>,
    pub scope_id: Option<Seq<char>>,
    pub state: S,
}

pub open spec fn scope_view(s: Option<String>) -> Option<Seq<char>> {
    match s {
        Some(t) => Some(t@),
        None => None,
    }
}

impl<S> Record<S> {
    pub closed spec fn spec_view(&self) -> RecordView<S> {
        RecordView {
            seq: self.seq,
            signature: self.signature@,
            scope_id: scope_view(self.scope_id),
            state: self.state,
        }
    }

    /// The scope the record was admitted under.
    pub fn scope_id(&self) -> (r: Option<&String>)
        ensures
            self.spec_view().scope_id == match r {
                Some(t) => Some(t@),
                None => None::<Seq<char>>,
            },
    {
        match &self.scope_id {
            Some(t) => Some(t),
            None => None,
        }
    }
}

pub closed spec fn records_view<S>(h: Seq<Record<S>>) -> Seq<RecordView<S>> {
    h.map_values(|r: Record<S>| r.spec_view())
}

/// A ledger's state: the highest sequence ever admitted, the operation in
/// progress, and the receipts kept, oldest first.
pub struct LedgerView<S> {
    pub high_water: u64,
    pub active: Option<u64>,
    pub history: Seq<RecordView<S>>,
}

/// The receipts are few, in increasing sequence order, none above the mark,
/// and the operation in progress is the newest receipt.
pub open spec fn ledger_wf<S>(l: LedgerView<S>) -> bool {
    &&& l.history.len() <= HISTORY
    &&& forall|i: int, j: int|
        0 <= i < j < l.history.len() ==> (#[trigger] l.history[i]).seq < (#[trigger] l.history[j]).seq
    &&& forall|i: int| 0 <= i < l.history.len() ==> (#[trigger] l.history[i]).seq <= l.high_water
    &&& (l.active matches Some(a) ==> l.history.len() > 0 && l.history.last().seq == a && a
        == l.high_water)
}

/// The receipt of `seq`, if it is kept.
pub open spec fn find<S>(h: Seq<RecordView<S>>, seq: u64) -> Option<int> {
    if exists|k: int| 0 <= k < h.len() && (#[trigger] h[k]).seq == seq {
        Some(choose|k: int| 0 <= k < h.len() && (#[trigger] h[k]).seq == seq)
    } else {
        None
    }
}

/// What a retry of `seq` with `signature` is answered: the kept state of the
/// same request, a conflict, an expired sequence, or nothing yet.
pub enum ReplaySpec<S> {
    State(S),
    Conflict,
    Expired,
    Fresh,
}

pub open spec fn replay_of<S>(l: LedgerView<S>, seq: u64, signature: Seq<char>) -> ReplaySpec<S> {
    match find(l.history, seq) {
        Some(k) => if l.history[k].signature == signature {
            ReplaySpec::State(l.history[k].state)
        } else {
            ReplaySpec::Conflict
        },
        None => if seq <= l.high_water {
            ReplaySpec::Expired
        } else {
            ReplaySpec::Fresh
        },
    }
}

/// How an admission ends: a new operation, or the kept state of a retry.
pub enum Admission<S> {
    New,
    Replay(S),
}

pub struct Ledger<S> {
    high_water: u64,
    active: Option<u64>,
    history: Vec<Record<S>>,
}

impl<S> View for Ledger<S> {
    type V = LedgerView<S>;

    closed spec fn view(&self) -> LedgerView<S> {
        LedgerView {
            high_water: self.high_water,
            active: self.active,
            history: records_view(self.history@),
        }
    }
}

impl<S> Ledger<S> {
    /// Every ledger is well formed.
    #[verifier::type_invariant]
    pub(crate) open spec fn inv(self) -> bool {
        ledger_wf(self@)
    }

    pub fn new() -> (r: Ledger<S>)
        ensures
            r@.high_water == 0,
            r@.active is None,
            r@.history.len() == 0,
            ledger_wf(r@),
    {
        let r = Ledger { high_water: 0, active: None, history: Vec::new() };
        assert(records_view(r.history@) =~= Seq::<RecordView<S>>::empty());
        r
    }

    /// A ledger whose mark already stands at `high_water`, with no receipts.
    pub fn starting_at(high_water: u64) -> (r: Ledger<S>)
        ensures
            r@.high_water == high_water,
            r@.active is None,
            r@.history.len() == 0,
            ledger_wf(r@),
    {
        let r = Ledger { high_water, active: None, history: Vec::new() };
        assert(records_view(r.history@) =~= Seq::<RecordView<S>>::empty());
        r
    }

    fn position(&self, seq: u64) -> (r: Option<usize>)
        ensures
            match find(self@.history, seq) {
                Some(k) => r == Some(k as usize),
                None => r is None,
            },
            r matches Some(k) ==> k < self@.history.len() && self@.history[k as int].seq == seq,
    {
        proof {
            use_type_invariant(self);
        }
        let ghost h = self@.history;
        let mut k: usize = 0;
        while k < self.history.len()
            invariant
                k <= self.history@.len(),
                h == records_view(self.history@),
                h == self@.history,
                ledger_wf(self@),
                forall|q: int| 0 <= q < k ==> (#[trigger] h[q]).seq != seq,
            decreases self.history@.len() - k,
        {
            if self.history[k].seq == seq {
                proof {
                    assert(h[k as int].seq == seq);
                    lemma_find_unique(self@, seq);
                }
                return Some(k);
            }
            k = k + 1;
        }
        None
    }

    /// Checks a retry before a mutable registration is validated: a kept
    /// receipt of the same request replays, a different request on a kept
    /// sequence conflicts, an evicted sequence has expired.
    pub fn replay(&self, seq: u64, signature: &str) -> (r: Result<Option<&S>, &'static str>)
        ensures
            match replay_of(self@, seq, signature@) {
                ReplaySpec::State(s) => r matches Ok(Some(t)) && *t == s,
                ReplaySpec::Conflict => r == Err::<Option<&S>, &'static str>("operation_conflict"),
                ReplaySpec::Expired => r == Err::<Option<&S>, &'static str>("operation_expired"),
                ReplaySpec::Fresh => r matches Ok(None),
            },
    {
        proof {
            use_type_invariant(self);
        }
        proof {
            lemma_find_unique(self@, seq);
        }
        match self.position(seq) {
            Some(k) => {
                let rec = &self.history[k];
                assert(rec.spec_view() == self@.history[k as int]);
                if rec.signature == String::from_str(signature) {
                    Ok(Some(&rec.state))
                } else {
                    Err("operation_conflict")
                }
            },
            None => if seq <= self.high_water {
                Err("operation_expired")
            } else {
                Ok(None)
            },
        }
    }
}

proof fn lemma_find_unique<S>(l: LedgerView<S>, seq: u64)
    requires
        ledger_wf(l),
    ensures
        find(l.history, seq) matches Some(k) ==> forall|q: int|
            0 <= q < l.history.len() && (#[trigger] l.history[q]).seq == seq ==> q == k,
{
    if let Some(k) = find(l.history, seq) {
        assert forall|q: int| 0 <= q < l.history.len() implies (#[trigger] l.history[q]).seq == seq ==> q
            == k by {
            if q < k {
                assert(l.history[q].seq < l.history[k].seq);
            } else if q > k {
                assert(l.history[k].seq < l.history[q].seq);
            }
        }
    }
}

/// The ledger after admitting `seq` as a new operation.
pub open spec fn admitted<S>(
    l: LedgerView<S>,
    seq: u64,
    signature: Seq<char>,
    scope_id: Option<Seq<char>>,
    queued: S,
) -> LedgerView<S> {
    let kept = if l.history.len() == HISTORY {
        l.history.drop_first()
    } else {
        l.history
    };
    LedgerView {
        high_water: seq,
        active: Some(seq),
        history: kept.push(RecordView { seq, signature, scope_id, state: queued }),
    }
}

impl<S> Ledger<S> {
    /// Admits an unscoped operation (`admit_scoped` without a scope).
    pub fn accept(&mut self, seq: u64, signature: String, queued: S) -> (r: Result<Admission<S>, &'static str>)
        where S: Clone,
        ensures
            ledger_wf(final(self)@),
            admission(old(self)@, final(self)@, seq, signature@, None, queued, r),
    {
        self.admit_scoped(seq, signature, queued, None)
    }

    /// Admits an operation under an opaque registration scope that the
    /// coordinator supplies: 64 lower-case hex digits. The scope belongs to
    /// the receipt for good. `queued` is the operation's first state.
    pub fn admit_scoped(
        &mut self,
        seq: u64,
        signature: String,
        queued: S,
        scope_id: Option<&str>,
    ) -> (r: Result<Admission<S>, &'static str>)
        where S: Clone,
        ensures
            ledger_wf(final(self)@),
            admission(
                old(self)@,
                final(self)@,
                seq,
                signature@,
                match scope_id {
                    Some(v) => Some(v@),
                    None => None,
                },
                queued,
                r,
            ),
            scope_id matches Some(v) && !is_identity(utf8(v@)) ==> r == Err::<Admission<S>, &'static str>(
                "invalid_request",
            ) && final(self)@ == old(self)@,
    {
        proof {
            use_type_invariant(&*self);
        }
        match scope_id {
            Some(v) => if !crate::drc::identity_ok(v) {
                return Err("invalid_request");
            },
            None => {},
        }
        if signature.as_str().as_bytes().len() > SIGNATURE_BYTES {
            return Err("request_too_large");
        }
        match self.replay(seq, signature.as_str()) {
            Ok(Some(state)) => return Ok(Admission::Replay(state.clone())),
            Ok(None) => {},
            Err(e) => return Err(e),
        }
        if self.high_water == u64::MAX || seq != self.high_water + 1 {
            return Err("operation_sequence");
        }
        if self.active.is_some() {
            return Err("busy");
        }
        let ghost before = self@;
        let mut history: Vec<Record<S>> = Vec::new();
        std::mem::swap(&mut history, &mut self.history);
        proof {
            assert(records_view(history@) == before.history);
        }
        if history.len() == HISTORY {
            history.remove(0);
        }
        let scope = match scope_id {
            Some(v) => Some(String::from_str(v)),
            None => None,
        };
        history.push(Record { seq, signature, scope_id: scope, state: queued });
        proof {
            let kept = if before.history.len() == HISTORY {
                before.history.drop_first()
            } else {
                before.history
            };
            assert(records_view(history@) =~= kept.push(
                RecordView {
                    seq,
                    signature: signature@,
                    scope_id: match scope_id {
                        Some(v) => Some(v@),
                        None => None,
                    },
                    state: queued,
                },
            ));
            assert(ledger_wf(admitted(before, seq, signature@, match scope_id {
                Some(v) => Some(v@),
                None => None,
            }, queued)));
        }
        *self = Ledger { high_water: seq, active: Some(seq), history };
        Ok(Admission::New)
    }
}

/// What an admission of `seq` does: a malformed scope or an oversized
/// signature is refused; a kept receipt replays; a conflict or an expired
/// sequence is refused; otherwise the next sequence is admitted when no
/// operation is in progress. Only a new admission changes the ledger.
pub open spec fn admission<S: Clone>(
    before: LedgerView<S>,
    after: LedgerView<S>,
    seq: u64,
    signature: Seq<char>,
    scope_id: Option<Seq<char>>,
    queued: S,
    r: Result<Admission<S>, &'static str>,
) -> bool {
    if scope_id matches Some(v) && !is_identity(utf8(v)) {
        r == Err::<Admission<S>, &'static str>("invalid_request") && after == before
    } else if utf8(signature).len() > SIGNATURE_BYTES {
        r == Err::<Admission<S>, &'static str>("request_too_large") && after == before
    } else {
        match replay_of(before, seq, signature) {
            ReplaySpec::State(s) => (r matches Ok(Admission::Replay(t)) && cloned(s, t)) && after == before,
            ReplaySpec::Conflict => r == Err::<Admission<S>, &'static str>("operation_conflict") && after
                == before,
            ReplaySpec::Expired => r == Err::<Admission<S>, &'static str>("operation_expired") && after
                == before,
            ReplaySpec::Fresh => if seq != before.high_water + 1 {
                r == Err::<Admission<S>, &'static str>("operation_sequence") && after == before
            } else if before.active is Some {
                r == Err::<Admission<S>, &'static str>("busy") && after == before
            } else {
                r matches Ok(Admission::New) && after == admitted(
                    before,
                    seq,
                    signature,
                    scope_id,
                    queued,
                )
            },
        }
    }
}

/// The ledger after a progress report of `seq`: only the operation in
/// progress takes it, into its own receipt's state, and a terminal report
/// ends it. Sequence, signature and scope of every receipt stay.
pub open spec fn updated<S>(l: LedgerView<S>, seq: u64, state: S, terminal: bool) -> LedgerView<S> {
    if l.active == Some(seq) {
        let last = l.history.last();
        LedgerView {
            high_water: l.high_water,
            active: if terminal {
                None
            } else {
                l.active
            },
            history: l.history.update(l.history.len() - 1, RecordView { state, ..last }),
        }
    } else {
        l
    }
}

impl<S> Ledger<S> {
    /// Records `state` as the progress of the operation in progress. A
    /// report of any other sequence, such as a late report of a finished
    /// operation, changes nothing.
    fn set_progress(&mut self, seq: u64, state: S, terminal: bool)
        ensures
            ledger_wf(final(self)@),
            final(self)@ == updated(old(self)@, seq, state, terminal),
    {
        proof {
            use_type_invariant(&*self);
        }
        match self.active {
            Some(a) => if a != seq {
                return;
            },
            None => return,
        }
        let ghost before = self@;
        let high_water = self.high_water;
        let active = self.active;
        self.active = None;
        let mut history: Vec<Record<S>> = Vec::new();
        std::mem::swap(&mut history, &mut self.history);
        proof {
            assert(records_view(history@) == before.history);
        }
        let k = history.len() - 1;
        let rec = history.remove(k);
        let Record { seq: s, signature, scope_id, state: _ } = rec;
        history.push(Record { seq: s, signature, scope_id, state });
        proof {
            let last = before.history.last();
            assert(records_view(history@) =~= before.history.update(
                before.history.len() - 1,
                RecordView { state, ..last },
            ));
        }
        *self = Ledger { high_water, active: if terminal {
            None
        } else {
            active
        }, history };
    }

    /// The kept state of `seq`.
    pub fn get(&self, seq: u64) -> (r: Option<&S>)
        ensures
            match find(self@.history, seq) {
                Some(k) => r matches Some(t) && *t == self@.history[k].state,
                None => r is None,
            },
    {
        proof {
            use_type_invariant(self);
        }
        match self.position(seq) {
            Some(k) => {
                assert(self.history@[k as int].spec_view() == self@.history[k as int]);
                Some(&self.history[k].state)
            },
            None => None,
        }
    }

    /// The operation in progress.
    pub fn active(&self) -> (r: Option<u64>)
        ensures
            r == self@.active,
    {
        self.active
    }

    /// The highest sequence ever admitted.
    pub fn last_seq(&self) -> (r: u64)
        ensures
            r == self@.high_water,
    {
        self.high_water
    }

    /// How many receipts are kept.
    pub fn kept(&self) -> (r: usize)
        ensures
            r == self@.history.len(),
    {
        self.history.len()
    }

    /// The state of the `k`-th kept receipt, oldest first.
    pub fn kept_state(&self, k: usize) -> (r: &S)
        requires
            k < self@.history.len(),
        ensures
            *r == self@.history[k as int].state,
    {
        assert(self.history@[k as int].spec_view() == self@.history[k as int]);
        &self.history[k].state
    }

    /// The scope of the receipt of `seq`, if it is kept.
    pub fn scope_of(&self, seq: u64) -> (r: Option<Option<&String>>)
        ensures
            match find(self@.history, seq) {
                Some(k) => r matches Some(sc) && self@.history[k].scope_id == match sc {
                    Some(t) => Some(t@),
                    None => None::<Seq<char>>,
                },
                None => r is None,
            },
    {
        proof {
            use_type_invariant(self);
        }
        match self.position(seq) {
            Some(k) => {
                assert(self.history@[k as int].spec_view() == self@.history[k as int]);
                Some(self.history[k].scope_id())
            },
            None => None,
        }
    }
}

/// At most once: a sequence at or below the high-water mark is never admitted
/// as a new operation again, whatever the ledger kept.
pub proof fn law_never_admitted_twice<S: Clone>(
    before: LedgerView<S>,
    after: LedgerView<S>,
    seq: u64,
    signature: Seq<char>,
    scope_id: Option<Seq<char>>,
    queued: S,
    r: Result<Admission<S>, &'static str>,
)
    requires
        ledger_wf(before),
        seq <= before.high_water,
        admission(before, after, seq, signature, scope_id, queued, r),
    ensures
        !(r matches Ok(Admission::New)),
        after == before,
{
}

/// The high-water mark never falls: neither an admission nor a progress
/// report lowers it.
pub proof fn law_high_water_never_falls<S: Clone>(
    before: LedgerView<S>,
    seq: u64,
    signature: Seq<char>,
    scope_id: Option<Seq<char>>,
    queued: S,
    state: S,
    terminal: bool,
)
    requires
        ledger_wf(before),
        before.high_water < u64::MAX,
    ensures
        admitted(before, (before.high_water + 1) as u64, signature, scope_id, queued).high_water
            >= before.high_water,
        updated(before, seq, state, terminal).high_water == before.high_water,
{
}

/// A retry of the request just admitted replays its kept state, and another
/// request on the same sequence conflicts.
pub proof fn law_retry_replays<S>(
    before: LedgerView<S>,
    seq: u64,
    signature: Seq<char>,
    other: Seq<char>,
    scope_id: Option<Seq<char>>,
    queued: S,
)
    requires
        ledger_wf(before),
        seq == before.high_water + 1,
        before.active is None,
        other != signature,
    ensures
        ledger_wf(admitted(before, seq, signature, scope_id, queued)),
        replay_of(admitted(before, seq, signature, scope_id, queued), seq, signature) == ReplaySpec::<
            S,
        >::State(queued),
        replay_of(admitted(before, seq, signature, scope_id, queued), seq, other) == ReplaySpec::<
            S,
        >::Conflict,
{
    let after = admitted(before, seq, signature, scope_id, queued);
    let n = after.history.len();
    assert(after.history[n - 1].seq == seq);
    lemma_find_unique(after, seq);
}

/// Progress never rewrites a receipt's sequence, signature or scope, and it
/// never touches a receipt other than that of the operation in progress.
pub proof fn law_progress_keeps_receipt_identity<S>(
    before: LedgerView<S>,
    seq: u64,
    state: S,
    terminal: bool,
)
    requires
        ledger_wf(before),
    ensures
        ({
            let after = updated(before, seq, state, terminal);
            &&& after.history.len() == before.history.len()
            &&& forall|k: int|
                0 <= k < before.history.len() ==> (#[trigger] after.history[k]).seq == before.history[k].seq
                    && after.history[k].signature == before.history[k].signature
                    && after.history[k].scope_id == before.history[k].scope_id
            &&& forall|k: int|
                0 <= k < before.history.len() && before.history[k].seq != seq ==> #[trigger] after.history[k]
                    == before.history[k]
        }),
{
}

/// The fields of a reported object as the document model sees them.
pub open spec fn fields_view(fs: Seq<(String, Json)>) -> Seq<(Seq<char>, JsonView)> {
    Seq::new(fs.len(), |i: int| (fs[i].0@, json_view(fs[i].1)))
}

/// An object's fields without any named `scope_id`, in their order.
pub open spec fn without_scope(fs: Seq<(Seq<char>, JsonView)>) -> Seq<(Seq<char>, JsonView)> {
    fs.filter(|f: (Seq<char>, JsonView)| f.0 != "scope_id"@)
}

/// A progress report as the ledger keeps it: an object that carries the
/// scope of its receipt, if the receipt has one, and no other. Anything but
/// an object is not a report.
pub open spec fn scoped_report(state: JsonView, scope: Option<Seq<char>>) -> Option<JsonView> {
    match state {
        JsonView::Object(fs) => Some(
            JsonView::Object(
                match scope {
                    Some(id) => without_scope(fs).push(("scope_id"@, JsonView::Text(id))),
                    None => without_scope(fs),
                },
            ),
        ),
        _ => None,
    }
}

proof fn lemma_object_view(fs: Seq<(String, Json)>, v: Vec<(String, Json)>)
    requires
        v@ == fs,
    ensures
        json_view(Json::Object(v)) == JsonView::Object(fields_view(fs)),
{
    let j = json_view(Json::Object(v));
    assert(j is Object);
    assert(j->Object_0 =~= fields_view(fs));
}

/// The text of a receipt's scope, if it has one.
pub open spec fn scope_text(scope: Option<&String>) -> Option<Seq<char>> {
    match scope {
        Some(s) => Some(s@),
        None => None,
    }
}

/// Shapes a progress report for the record of a receipt whose scope is
/// `scope`: see `scoped_report`.
pub fn scope_report(state: Json, scope: Option<&String>) -> (r: Option<Json>)
    ensures
        match r {
            Some(j) => scoped_report(json_view(state), scope_text(scope)) == Some(json_view(j)),
            None => scoped_report(json_view(state), scope_text(scope)) is None,
        },
{
    let ghost whole = state;
    let mut rest = match state {
        Json::Object(fs) => fs,
        _ => return None,
    };
    let ghost fs = rest@;
    let n: usize = rest.len();
    proof {
        lemma_object_view(fs, rest);
    }
    let ghost pred = |f: (Seq<char>, JsonView)| f.0 != "scope_id"@;
    let mut out: Vec<(String, Json)> = Vec::new();
    let mut i: usize = 0;
    while rest.len() > 0
        invariant
            i <= fs.len(),
            fs.len() == n,
            rest@ == fs.skip(i as int),
            pred == (|f: (Seq<char>, JsonView)| f.0 != "scope_id"@),
            fields_view(out@) == fields_view(fs).take(i as int).filter(pred),
        decreases rest@.len(),
    {
        let ghost before = out@;
        let f = rest.remove(0);
        proof {
            assert(f == fs[i as int]);
            let s = fields_view(fs).take(i + 1);
            assert(s.drop_last() =~= fields_view(fs).take(i as int));
            assert(s.last() == (f.0@, json_view(f.1)));
            reveal(Seq::filter);
        }
        if f.0 != String::from_str("scope_id") {
            out.push(f);
            proof {
                assert(fields_view(out@) =~= fields_view(before).push((f.0@, json_view(f.1))));
            }
        }
        i = i + 1;
        proof {
            assert(rest@ =~= fs.skip(i as int));
        }
    }
    proof {
        assert(fields_view(fs).take(fs.len() as int) =~= fields_view(fs));
    }
    match scope {
        Some(id) => {
            let ghost kept = out@;
            out.push((String::from_str("scope_id"), Json::Text(id.clone())));
            proof {
                assert(fields_view(out@) =~= fields_view(kept).push(("scope_id"@, JsonView::Text(id@))));
            }
        },
        None => {},
    }
    proof {
        lemma_object_view(out@, out);
    }
    Some(Json::Object(out))
}

impl Ledger<Json> {
    /// Records a progress report of the operation in progress, as
    /// `scoped_report` shapes it: the report must be an object, and it
    /// carries the scope its receipt was admitted under and no other. A
    /// report that is not an object, or of any other sequence (such as a
    /// late report of a finished operation), changes nothing.
    pub fn update(&mut self, seq: u64, state: Json, terminal: bool)
        ensures
            ledger_wf(final(self)@),
            old(self)@.active != Some(seq) ==> final(self)@ == old(self)@,
            old(self)@.active == Some(seq) ==> match scoped_report(
                json_view(state),
                old(self)@.history.last().scope_id,
            ) {
                None => final(self)@ == old(self)@,
                Some(v) => json_view(final(self)@.history.last().state) == v && final(self)@ == updated(
                    old(self)@,
                    seq,
                    final(self)@.history.last().state,
                    terminal,
                ),
            },
    {
        proof {
            use_type_invariant(&*self);
        }
        match self.active {
            Some(a) => if a != seq {
                return;
            },
            None => return,
        }
        let k = self.history.len() - 1;
        proof {
            assert(self.history@[k as int].spec_view() == self@.history.last());
        }
        let shaped = scope_report(state, self.history[k].scope_id());
        match shaped {
            Some(j) => {
                self.set_progress(seq, j, terminal);
            },
            None => {},
        }
    }
}

/// The first field named `key` of `fs` from position `i` on.
pub open spec fn field_from(fs: Seq<(Seq<char>, JsonView)>, key: Seq<char>, i: int) -> Option<JsonView>
    decreases fs.len() - i,
{
    if i < 0 || i >= fs.len() {
        None
    } else if fs[i].0 == key {
        Some(fs[i].1)
    } else {
        field_from(fs, key, i + 1)
    }
}

/// Whether the document is an object whose field `key` is the text `text`.
pub open spec fn text_is(v: JsonView, key: Seq<char>, text: Seq<char>) -> bool {
    v matches JsonView::Object(fs) && field_from(fs, key, 0) == Some(JsonView::Text(text))
}

fn str_eq(a: &str, b: &str) -> (r: bool)
    ensures
        r == (a@ == b@),
{
    String::from_str(a) == String::from_str(b)
}

fn has_text(j: &Json, key: &str, text: &str) -> (r: bool)
    ensures
        r == text_is(json_view(*j), key@, text@),
{
    match j {
        Json::Object(fs) => {
            proof {
                lemma_object_view(fs@, *fs);
            }
            let ghost v = fields_view(fs@);
            let mut i: usize = 0;
            while i < fs.len()
                invariant
                    i <= fs@.len(),
                    v == fields_view(fs@),
                    json_view(*j) == JsonView::Object(v),
                    field_from(v, key@, 0) == field_from(v, key@, i as int),
                decreases fs@.len() - i,
            {
                if str_eq(fs[i].0.as_str(), key) {
                    assert(v[i as int] == (fs@[i as int].0@, json_view(fs@[i as int].1)));
                    return match &fs[i].1 {
                        Json::Text(t) => str_eq(t.as_str(), text),
                        _ => false,
                    };
                }
                i = i + 1;
            }
            false
        },
        _ => false,
    }
}

/// What the ledger says of the open that an index-then-open retries: its
/// receipt must still be kept, and be of a failed open whose index was
/// unavailable.
pub open spec fn retry_record_result(l: LedgerView<Json>, open_seq: u64) -> Result<(), &'static str> {
    match find(l.history, open_seq) {
        None => Err("operation_expired"),
        Some(k) => {
            let v = json_view(l.history[k].state);
            if text_is(v, "kind"@, "open"@) && text_is(v, "phase"@, "failed"@) && text_is(
                v,
                "error"@,
                "index_unavailable"@,
            ) {
                Ok(())
            } else {
                Err("invalid_request")
            }
        },
    }
}

impl Ledger<Json> {
    /// Checks the receipt of the open that an index-then-open retries.
    pub fn retry_record(&self, open_seq: u64) -> (r: Result<(), &'static str>)
        ensures
            r == retry_record_result(self@, open_seq),
    {
        let state = match self.get(open_seq) {
            Some(s) => s,
            None => return Err("operation_expired"),
        };
        if has_text(state, "kind", "open") && has_text(state, "phase", "failed") && has_text(
            state,
            "error",
            "index_unavailable",
        ) {
            Ok(())
        } else {
            Err("invalid_request")
        }
    }
}

} // verus!
