//! Per-view DRC panel state: filters, cursors and display switches of one open
//! view. A write names the panel revision it was based on; an uncertain retry
//! of the same state is harmless, and an older different state never
//! overwrites a newer one.
//!
//! Coordinates and scales are floating-point readings of text; the caller
//! reads them and hands this module the outcome.
use crate::drc::CursorDto;
use crate::drc_request::{bytes, num};
use crate::service::{counter, counter_value};
use crate::wire::number;
use vstd::prelude::*;
use vstd::string::StringExecFns;

verus! {

pub const INVALID: &'static str = "invalid_drc_request";

pub const CONFLICT: &'static str = "drc_panel_conflict";

pub const LIMIT: &'static str = "drc_panel_limit";

pub const FORBIDDEN: &'static str = "forbidden";

#[derive(Clone, Debug)]
pub struct Query {
    pub bbox_um: [String; 4],
    pub state_rev: String,
    pub cursor: CursorDto,
}

#[derive(Clone, Debug)]
pub struct CdState {
    pub target: CursorDto,
    pub remaining: u8,
}

#[derive(Clone, Debug)]
pub struct Data {
    pub search: String,
    pub metric: Option<String>,
    pub rule_start: String,
    pub check: Option<String>,
    pub error_start: String,
    pub query: Option<Query>,
    pub in_view: bool,
    pub selected_only: bool,
    pub waived: Option<bool>,
    pub selected: Option<CursorDto>,
    pub markers: bool,
    pub shown: bool,
    pub jump_scale: Option<String>,
    pub zoom_lock: bool,
    pub jump_active: bool,
    pub focus_visible: bool,
    pub cd: Option<CdState>,
    pub note_target: Option<CursorDto>,
}

pub open spec fn cursor_eq(a: CursorDto, b: CursorDto) -> bool {
    a.check@ == b.check@ && a.error@ == b.error@
}

pub open spec fn opt_text_eq(a: Option<String>, b: Option<String>) -> bool {
    match (a, b) {
        (Some(x), Some(y)) => x@ == y@,
        (None, None) => true,
        _ => false,
    }
}

pub open spec fn opt_cursor_eq(a: Option<CursorDto>, b: Option<CursorDto>) -> bool {
    match (a, b) {
        (Some(x), Some(y)) => cursor_eq(x, y),
        (None, None) => true,
        _ => false,
    }
}

pub open spec fn query_eq(a: Query, b: Query) -> bool {
    &&& forall|k: int| 0 <= k < 4 ==> (#[trigger] a.bbox_um[k])@ == b.bbox_um[k]@
    &&& a.state_rev@ == b.state_rev@
    &&& cursor_eq(a.cursor, b.cursor)
}

pub open spec fn opt_query_eq(a: Option<Query>, b: Option<Query>) -> bool {
    match (a, b) {
        (Some(x), Some(y)) => query_eq(x, y),
        (None, None) => true,
        _ => false,
    }
}

pub open spec fn opt_cd_eq(a: Option<CdState>, b: Option<CdState>) -> bool {
    match (a, b) {
        (Some(x), Some(y)) => cursor_eq(x.target, y.target) && x.remaining == y.remaining,
        (None, None) => true,
        _ => false,
    }
}

/// Two panel states are the same state: every text reads the same and every
/// switch is set alike.
pub open spec fn same_data(a: Data, b: Data) -> bool {
    &&& a.search@ == b.search@
    &&& opt_text_eq(a.metric, b.metric)
    &&& a.rule_start@ == b.rule_start@
    &&& opt_text_eq(a.check, b.check)
    &&& a.error_start@ == b.error_start@
    &&& opt_query_eq(a.query, b.query)
    &&& a.in_view == b.in_view
    &&& a.selected_only == b.selected_only
    &&& a.waived == b.waived
    &&& opt_cursor_eq(a.selected, b.selected)
    &&& a.markers == b.markers
    &&& a.shown == b.shown
    &&& opt_text_eq(a.jump_scale, b.jump_scale)
    &&& a.zoom_lock == b.zoom_lock
    &&& a.jump_active == b.jump_active
    &&& a.focus_visible == b.focus_visible
    &&& opt_cd_eq(a.cd, b.cd)
    &&& opt_cursor_eq(a.note_target, b.note_target)
}

fn text_eq(a: &String, b: &String) -> (r: bool)
    ensures
        r == (a@ == b@),
{
    *a == *b
}

fn opt_text_same(a: &Option<String>, b: &Option<String>) -> (r: bool)
    ensures
        r == opt_text_eq(*a, *b),
{
    match (a, b) {
        (Some(x), Some(y)) => text_eq(x, y),
        (None, None) => true,
        _ => false,
    }
}

fn cursor_same(a: &CursorDto, b: &CursorDto) -> (r: bool)
    ensures
        r == cursor_eq(*a, *b),
{
    text_eq(&a.check, &b.check) && text_eq(&a.error, &b.error)
}

fn opt_cursor_same(a: &Option<CursorDto>, b: &Option<CursorDto>) -> (r: bool)
    ensures
        r == opt_cursor_eq(*a, *b),
{
    match (a, b) {
        (Some(x), Some(y)) => cursor_same(x, y),
        (None, None) => true,
        _ => false,
    }
}

fn query_same(a: &Query, b: &Query) -> (r: bool)
    ensures
        r == query_eq(*a, *b),
{
    let mut i: usize = 0;
    while i < 4
        invariant
            i <= 4,
            forall|k: int| 0 <= k < i ==> (#[trigger] a.bbox_um[k])@ == b.bbox_um[k]@,
        decreases 4 - i,
    {
        if !text_eq(&a.bbox_um[i], &b.bbox_um[i]) {
            assert(a.bbox_um[i as int]@ != b.bbox_um[i as int]@);
            return false;
        }
        i = i + 1;
    }
    text_eq(&a.state_rev, &b.state_rev) && cursor_same(&a.cursor, &b.cursor)
}

fn opt_query_same(a: &Option<Query>, b: &Option<Query>) -> (r: bool)
    ensures
        r == opt_query_eq(*a, *b),
{
    match (a, b) {
        (Some(x), Some(y)) => query_same(x, y),
        (None, None) => true,
        _ => false,
    }
}

fn opt_cd_same(a: &Option<CdState>, b: &Option<CdState>) -> (r: bool)
    ensures
        r == opt_cd_eq(*a, *b),
{
    match (a, b) {
        (Some(x), Some(y)) => cursor_same(&x.target, &y.target) && x.remaining == y.remaining,
        (None, None) => true,
        _ => false,
    }
}

pub open spec fn cursor_ok(c: CursorDto) -> bool {
    num(c.check) is Some && num(c.error) is Some
}

pub open spec fn query_text_ok(q: Query) -> bool {
    &&& counter_value(bytes(q.state_rev)) is Some
    &&& cursor_ok(q.cursor)
    &&& forall|k: int| 0 <= k < 4 ==> #[trigger] bytes(q.bbox_um[k]).len() <= 80
}

/// Everything `Data::validate` checks of the text itself.
pub open spec fn text_ok(d: Data) -> bool {
    &&& !(d.query is Some && (d.in_view || d.selected_only))
    &&& !(d.jump_active && !d.focus_visible)
    &&& !((d.jump_active || d.focus_visible) && d.selected is None)
    &&& bytes(d.search).len() <= 256
    &&& (d.metric matches Some(m) ==> 0 < bytes(m).len() <= 64)
    &&& num(d.rule_start) is Some
    &&& num(d.error_start) is Some
    &&& (d.check matches Some(c) ==> num(c) is Some)
    &&& (d.selected matches Some(c) ==> cursor_ok(c))
    &&& (d.cd matches Some(cd) ==> d.jump_active && cd.remaining <= 3 && cursor_ok(cd.target))
    &&& (d.note_target matches Some(c) ==> d.jump_active && cursor_ok(c))
    &&& (d.query matches Some(q) ==> query_text_ok(q))
    &&& (d.jump_scale matches Some(s) ==> bytes(s).len() <= 80)
}

fn cursor_check(c: &CursorDto) -> (r: bool)
    ensures
        r == cursor_ok(*c),
{
    number(c.check.as_str()).is_ok() && number(c.error.as_str()).is_ok()
}

fn query_check(q: &Query) -> (r: bool)
    ensures
        r == query_text_ok(*q),
{
    if counter(q.state_rev.as_str()).is_err() || !cursor_check(&q.cursor) {
        return false;
    }
    let mut i: usize = 0;
    while i < 4
        invariant
            i <= 4,
            forall|k: int| 0 <= k < i ==> #[trigger] bytes(q.bbox_um[k]).len() <= 80,
        decreases 4 - i,
    {
        let text: &str = q.bbox_um[i].as_str();
        if text.as_bytes().len() > 80 {
            assert(bytes(q.bbox_um[i as int]).len() > 80);
            return false;
        }
        i = i + 1;
    }
    true
}

impl Data {
    pub fn same(&self, other: &Data) -> (r: bool)
        ensures
            r == same_data(*self, *other),
    {
        text_eq(&self.search, &other.search) && opt_text_same(&self.metric, &other.metric)
            && text_eq(&self.rule_start, &other.rule_start) && opt_text_same(
            &self.check,
            &other.check,
        ) && text_eq(&self.error_start, &other.error_start) && opt_query_same(
            &self.query,
            &other.query,
        ) && self.in_view == other.in_view && self.selected_only == other.selected_only
            && self.waived == other.waived && opt_cursor_same(&self.selected, &other.selected)
            && self.markers == other.markers && self.shown == other.shown && opt_text_same(
            &self.jump_scale,
            &other.jump_scale,
        ) && self.zoom_lock == other.zoom_lock && self.jump_active == other.jump_active
            && self.focus_visible == other.focus_visible && opt_cd_same(&self.cd, &other.cd)
            && opt_cursor_same(&self.note_target, &other.note_target)
    }

    /// Checks a panel state. `readings_ok` says whether the query box reads
    /// as four finite coordinates with its lower corner first and whether the
    /// jump scale reads as a finite positive number (`true` where absent).
    pub fn validate(&self, readings_ok: bool) -> (r: Result<(), &'static str>)
        ensures
            r is Ok <==> text_ok(*self) && readings_ok,
            r is Err ==> r->Err_0 == INVALID,
    {
        if self.query.is_some() && (self.in_view || self.selected_only) {
            return Err(INVALID);
        }
        if self.jump_active && !self.focus_visible || (self.jump_active || self.focus_visible)
            && self.selected.is_none() {
            return Err(INVALID);
        }
        if self.search.as_str().as_bytes().len() > 256 {
            return Err(INVALID);
        }
        match &self.metric {
            Some(m) => {
                let n = m.as_str().as_bytes().len();
                if n == 0 || n > 64 {
                    return Err(INVALID);
                }
            },
            None => {},
        }
        if number(self.rule_start.as_str()).is_err() || number(self.error_start.as_str()).is_err() {
            return Err(INVALID);
        }
        match &self.check {
            Some(c) => if number(c.as_str()).is_err() {
                return Err(INVALID);
            },
            None => {},
        }
        match &self.selected {
            Some(c) => if !cursor_check(c) {
                return Err(INVALID);
            },
            None => {},
        }
        match &self.cd {
            Some(cd) => if !self.jump_active || cd.remaining > 3 || !cursor_check(&cd.target) {
                return Err(INVALID);
            },
            None => {},
        }
        match &self.note_target {
            Some(c) => if !self.jump_active || !cursor_check(c) {
                return Err(INVALID);
            },
            None => {},
        }
        match &self.query {
            Some(q) => if !query_check(q) {
                return Err(INVALID);
            },
            None => {},
        }
        match &self.jump_scale {
            Some(s) => if s.as_str().as_bytes().len() > 80 {
                return Err(INVALID);
            },
            None => {},
        }
        if !readings_ok {
            return Err(INVALID);
        }
        Ok(())
    }
}

/// The selection revision of a panel's review groups.
#[derive(Debug)]
pub struct Groups {
    pub revision: u64,
}

impl Groups {
    pub fn new() -> (r: Groups)
        ensures
            r.revision == 1,
    {
        Groups { revision: 1 }
    }

    /// A selection command must name the current selection revision.
    pub fn check(&self, base: u64) -> (r: Result<(), &'static str>)
        ensures
            r is Ok <==> base == self.revision,
            r is Err ==> r->Err_0 == "drc_selection_conflict",
    {
        if base == self.revision {
            Ok(())
        } else {
            Err("drc_selection_conflict")
        }
    }

    /// The revision a command on `base` will take, checked before the
    /// command touches the selection: the current revision is named, and it
    /// is not the last one.
    pub fn next(&self, base: u64) -> (r: Result<u64, &'static str>)
        ensures
            base != self.revision ==> r == Err::<u64, &'static str>("drc_selection_conflict"),
            base == self.revision && self.revision == u64::MAX ==> r == Err::<u64, &'static str>(
                "drc_selection_limit",
            ),
            base == self.revision && self.revision < u64::MAX ==> r == Ok::<u64, &'static str>(
                (self.revision + 1) as u64,
            ),
    {
        match self.check(base) {
            Ok(()) => {},
            Err(e) => return Err(e),
        }
        if self.revision == u64::MAX {
            return Err("drc_selection_limit");
        }
        Ok(self.revision + 1)
    }

    /// Consumes the selection revision for a command on `base`, once `next`
    /// has let the command touch the selection. `applied`
    /// is the outcome of applying the command to the selected errors. Even a
    /// command that changes nothing consumes the revision, so an uncertain
    /// retry of an add or a toggle conflicts instead of applying twice.
    pub fn apply(&mut self, base: u64, applied: Result<(), ()>) -> (r: Result<(), &'static str>)
        ensures
            r is Ok <==> base == old(self).revision && old(self).revision < u64::MAX
                && applied is Ok,
            r is Ok ==> final(self).revision == old(self).revision + 1,
            r is Err ==> final(self).revision == old(self).revision,
            base != old(self).revision ==> r == Err::<(), &'static str>("drc_selection_conflict"),
            base == old(self).revision && r is Err ==> r == Err::<(), &'static str>(
                "drc_selection_limit",
            ),
    {
        match self.check(base) {
            Ok(()) => {},
            Err(e) => return Err(e),
        }
        if self.revision == u64::MAX {
            return Err("drc_selection_limit");
        }
        match applied {
            Ok(()) => {},
            Err(()) => return Err("drc_selection_limit"),
        }
        self.revision = self.revision + 1;
        Ok(())
    }
}

/// The DRC panel of one open view.
#[derive(Debug)]
pub struct Panel {
    pub revision: u64,
    pub data: Option<Data>,
    pub read_revision: Option<String>,
    pub groups: Groups,
}

/// Whether a write based on `base` may replace the panel's state with `data`.
pub open spec fn accepts_write(revision: u64, stored: Option<Data>, base: u64, data: Data) -> bool {
    base == revision || (base < revision && (stored matches Some(s) && same_data(s, data)))
}

/// What a panel state says, as plain values: each text by its characters,
/// each optional text, cursor, query and step count by what it holds, and
/// each switch.
pub struct DataView {
    pub search: Seq<char>,
    pub metric: Option<Seq<char>>,
    pub rule_start: Seq<char>,
    pub check: Option<Seq<char>>,
    pub error_start: Seq<char>,
    pub query: Option<(Seq<Seq<char>>, Seq<char>, (Seq<char>, Seq<char>))>,
    pub in_view: bool,
    pub selected_only: bool,
    pub waived: Option<bool>,
    pub selected: Option<(Seq<char>, Seq<char>)>,
    pub markers: bool,
    pub shown: bool,
    pub jump_scale: Option<Seq<char>>,
    pub zoom_lock: bool,
    pub jump_active: bool,
    pub focus_visible: bool,
    pub cd: Option<((Seq<char>, Seq<char>), u8)>,
    pub note_target: Option<(Seq<char>, Seq<char>)>,
}

pub open spec fn text_view(o: Option<String>) -> Option<Seq<char>> {
    match o {
        Some(t) => Some(t@),
        None => None,
    }
}

pub open spec fn cursor_view(c: CursorDto) -> (Seq<char>, Seq<char>) {
    (c.check@, c.error@)
}

pub open spec fn opt_cursor_view(o: Option<CursorDto>) -> Option<(Seq<char>, Seq<char>)> {
    match o {
        Some(c) => Some(cursor_view(c)),
        None => None,
    }
}

pub open spec fn data_view(d: Data) -> DataView {
    DataView {
        search: d.search@,
        metric: text_view(d.metric),
        rule_start: d.rule_start@,
        check: text_view(d.check),
        error_start: d.error_start@,
        query: match d.query {
            Some(q) => Some((Seq::new(4, |k: int| q.bbox_um[k]@), q.state_rev@, cursor_view(q.cursor))),
            None => None,
        },
        in_view: d.in_view,
        selected_only: d.selected_only,
        waived: d.waived,
        selected: opt_cursor_view(d.selected),
        markers: d.markers,
        shown: d.shown,
        jump_scale: text_view(d.jump_scale),
        zoom_lock: d.zoom_lock,
        jump_active: d.jump_active,
        focus_visible: d.focus_visible,
        cd: match d.cd {
            Some(c) => Some((cursor_view(c.target), c.remaining)),
            None => None,
        },
        note_target: opt_cursor_view(d.note_target),
    }
}

/// Two panel states are the same state exactly when they say the same in
/// every field, the search text included.
pub proof fn law_same_state_is_every_field_alike(a: Data, b: Data)
    ensures
        same_data(a, b) <==> data_view(a) == data_view(b),
{
    if data_view(a) == data_view(b) {
        assert(data_view(a).search == data_view(b).search);
        if let (Some(x), Some(y)) = (a.query, b.query) {
            assert(Seq::new(4, |k: int| x.bbox_um[k]@) == Seq::new(4, |k: int| y.bbox_um[k]@));
            assert forall|k: int| 0 <= k < 4 implies (#[trigger] x.bbox_um[k])@ == y.bbox_um[k]@ by {
                assert(Seq::new(4, |k: int| x.bbox_um[k]@)[k] == Seq::new(4, |k: int| y.bbox_um[k]@)[k]);
            }
        }
    }
    if same_data(a, b) {
        if let (Some(x), Some(y)) = (a.query, b.query) {
            assert(Seq::new(4, |k: int| x.bbox_um[k]@) =~= Seq::new(4, |k: int| y.bbox_um[k]@));
        }
    }
}

/// A write of a state that differs from the stored one in any field, on a
/// revision older than the panel's, conflicts: a stale tab never overwrites
/// a newer state, whatever field it changed.
pub proof fn law_stale_different_state_conflicts(revision: u64, stored: Data, base: u64, data: Data)
    requires
        base < revision,
        data_view(stored) != data_view(data),
    ensures
        !accepts_write(revision, Some(stored), base, data),
{
    law_same_state_is_every_field_alike(stored, data);
}

impl Panel {
    pub fn new() -> (r: Panel)
        ensures
            r.revision == 1,
            r.data is None,
            r.read_revision is None,
            r.groups.revision == 1,
    {
        Panel { revision: 1, data: None, read_revision: None, groups: Groups::new() }
    }

    /// Binds the panel to the reader revision it is read under. A new reader
    /// revision discards the saved state, whose cursors were derived from
    /// older statuses; the same revision keeps it.
    pub fn bind_revision(&mut self, revision: &str)
        ensures
            (old(self).read_revision matches Some(r) && r@ == revision@) ==> final(self).revision
                == old(self).revision && final(self).data == old(self).data
                && final(self).read_revision == old(self).read_revision
                && final(self).groups.revision == old(self).groups.revision,
            !(old(self).read_revision matches Some(r) && r@ == revision@) ==> final(self).revision
                == 1 && final(self).data is None && (final(self).read_revision matches Some(r)
                && r@ == revision@) && final(self).groups.revision == 1,
    {
        let same = match &self.read_revision {
            Some(r) => text_eq(r, &String::from_str(revision)),
            None => false,
        };
        if !same {
            self.revision = 1;
            self.data = None;
            self.read_revision = Some(String::from_str(revision));
            self.groups = Groups::new();
        }
    }

    /// An uncertain retry of the stored state passes; an older different
    /// state conflicts.
    pub fn check(&self, base: u64, data: &Data) -> (r: Result<(), &'static str>)
        ensures
            r is Ok <==> accepts_write(self.revision, self.data, base, *data),
            r is Err ==> r->Err_0 == CONFLICT,
    {
        if base == self.revision {
            return Ok(());
        }
        if base < self.revision {
            match &self.data {
                Some(s) => if s.same(data) {
                    return Ok(());
                },
                None => {},
            }
        }
        Err(CONFLICT)
    }

    /// Stores `data` on `base`. A different state takes the next panel
    /// revision; the same state leaves the panel as it is.
    pub fn set(&mut self, base: u64, data: Data) -> (r: Result<u64, &'static str>)
        ensures
            !accepts_write(old(self).revision, old(self).data, base, data) ==> r == Err::<
                u64,
                &'static str,
            >(CONFLICT) && final(self).revision == old(self).revision && final(self).data == old(
                self,
            ).data,
            accepts_write(old(self).revision, old(self).data, base, data) && (old(self).data matches Some(
                s,
            ) && same_data(s, data)) ==> r == Ok::<u64, &'static str>(old(self).revision)
                && final(self).revision == old(self).revision && final(self).data == old(self).data,
            accepts_write(old(self).revision, old(self).data, base, data) && !(old(self).data matches Some(
                s,
            ) && same_data(s, data)) ==> if old(self).revision < u64::MAX {
                r == Ok::<u64, &'static str>((old(self).revision + 1) as u64) && final(self).revision
                    == old(self).revision + 1 && final(self).data == Some(data)
            } else {
                r == Err::<u64, &'static str>(LIMIT) && final(self).revision == old(self).revision
                    && final(self).data == old(self).data
            },
            final(self).read_revision == old(self).read_revision,
            final(self).groups.revision == old(self).groups.revision,
    {
        match self.check(base, &data) {
            Ok(()) => {},
            Err(e) => return Err(e),
        }
        let unchanged = match &self.data {
            Some(s) => s.same(&data),
            None => false,
        };
        if !unchanged {
            if self.revision == u64::MAX {
                return Err(LIMIT);
            }
            self.revision = self.revision + 1;
            self.data = Some(data);
        }
        Ok(self.revision)
    }
}

/// A guest's panel write: a valid state without a note target or a metric
/// filter, whose query is not newer than the view, on a current base.
/// `state_rev` is the revision of the view the guest sees.
pub fn guest_check(
    panel: &Panel,
    data: &Data,
    base: u64,
    state_rev: u64,
    readings_ok: bool,
) -> (r: Result<(), &'static str>)
    ensures
        !(text_ok(*data) && readings_ok) ==> r == Err::<(), &'static str>(INVALID),
        text_ok(*data) && readings_ok && (data.note_target is Some || data.metric is Some) ==> r
            == Err::<(), &'static str>(FORBIDDEN),
        text_ok(*data) && readings_ok && data.note_target is None && data.metric is None ==> (
        if data.query matches Some(q) && counter_value(bytes(q.state_rev))->0 > state_rev {
            r == Err::<(), &'static str>(INVALID)
        } else if accepts_write(panel.revision, panel.data, base, *data) {
            r is Ok
        } else {
            r == Err::<(), &'static str>(CONFLICT)
        }),
{
    match data.validate(readings_ok) {
        Ok(()) => {},
        Err(e) => return Err(e),
    }
    if data.note_target.is_some() || data.metric.is_some() {
        return Err(FORBIDDEN);
    }
    match &data.query {
        Some(q) => match counter(q.state_rev.as_str()) {
            Ok(v) => if v > state_rev {
                return Err(INVALID);
            },
            Err(_) => {},
        },
        None => {},
    }
    panel.check(base, data)
}

/// A guest read that filters by selection must name the current selection
/// revision.
pub fn check_selection(panel: &Panel, revision: Option<(u64, usize)>) -> (r: Result<(), &'static str>)
    ensures
        match revision {
            Some((rev, _)) => (r is Ok <==> rev == panel.groups.revision) && (r is Err ==> r->Err_0
                == "drc_selection_conflict"),
            None => r is Ok,
        },
{
    match revision {
        Some((rev, _)) => panel.groups.check(rev),
        None => Ok(()),
    }
}

/// A selection command must be based on the current selection revision.
pub fn selection_base(panel: &Panel, base: u64) -> (r: Result<(), &'static str>)
    ensures
        r is Ok <==> base == panel.groups.revision,
        r is Err ==> r->Err_0 == "drc_selection_conflict",
{
    panel.groups.check(base)
}

/// Binds a panel to the reader revision it is read under.
pub fn bind(panel: &mut Panel, revision: &str)
    ensures
        (old(panel).read_revision matches Some(r) && r@ == revision@) ==> final(panel).revision
            == old(panel).revision && final(panel).data == old(panel).data
            && final(panel).groups.revision == old(panel).groups.revision,
        !(old(panel).read_revision matches Some(r) && r@ == revision@) ==> final(panel).revision
            == 1 && final(panel).data is None && final(panel).groups.revision == 1,
        final(panel).read_revision matches Some(r) && r@ == revision@,
{
    panel.bind_revision(revision);
}

/// A stale write of a different state never overwrites a newer panel, and an
/// uncertain retry of the stored state is accepted without a new revision.
pub proof fn law_not_last_writer_wins(revision: u64, stored: Option<Data>, base: u64, data: Data)
    ensures
        base < revision && !(stored matches Some(s) && same_data(s, data)) ==> !accepts_write(
            revision,
            stored,
            base,
            data,
        ),
        (stored matches Some(s) && same_data(s, data)) && base <= revision ==> accepts_write(
            revision,
            stored,
            base,
            data,
        ),
        base > revision ==> !accepts_write(revision, stored, base, data),
{
}

} // verus!
