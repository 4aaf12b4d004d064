//! Owner socket queries: which displayed frame a query may name, and the
//! canonical decoding of query anchors, pick cycles and measurement boxes.
use crate::layer_catalog::Pair;
use crate::scoped::Layers;
use crate::service::{counter, counter_value};
use crate::wire::{canonical_i64, parse_i64, utf8};
use vstd::prelude::*;
use vstd::string::StringExecFns;

verus! {

/// Most boxes in one measurement selection.
pub const MEASURE_BOXES: usize = 64;

#[derive(Clone, Copy, Debug, PartialEq, Eq)]
pub enum Kind {
    Snap,
    Pick,
}

fn same_text(a: &str, b: &str) -> (r: bool)
    ensures
        r == (a@ == b@),
{
    String::from_str(a) == String::from_str(b)
}

impl Kind {
    /// The kind that a wire name gives.
    pub fn parse(s: &str) -> (r: Result<Kind, &'static str>)
        ensures
            s@ == "snap"@ ==> r == Ok::<Kind, &'static str>(Kind::Snap),
            s@ == "pick"@ ==> r == Ok::<Kind, &'static str>(Kind::Pick),
            s@ != "snap"@ && s@ != "pick"@ ==> r == Err::<Kind, &'static str>("invalid query kind"),
    {
        proof {
            reveal_strlit("snap");
            reveal_strlit("pick");
            assert("snap"@[0] != "pick"@[0]);
        }
        if same_text(s, "snap") {
            Ok(Kind::Snap)
        } else if same_text(s, "pick") {
            Ok(Kind::Pick)
        } else {
            Err("invalid query kind")
        }
    }

    pub fn name(self) -> (r: &'static str)
        ensures
            self == Kind::Snap ==> r@ == "snap"@,
            self == Kind::Pick ==> r@ == "pick"@,
    {
        match self {
            Kind::Snap => "snap",
            Kind::Pick => "pick",
        }
    }

    /// The slot of this kind's outstanding query.
    pub fn index(self) -> (r: usize)
        ensures
            r == (if self == Kind::Snap { 0usize } else { 1usize }),
    {
        match self {
            Kind::Snap => 0,
            Kind::Pick => 1,
        }
    }
}

/// The revisions a query is taken against.
#[derive(Clone, Copy, Debug, PartialEq, Eq)]
pub struct QueryAnchor {
    pub dataset_revision: u64,
    pub worker_epoch: u64,
    pub frame_id: u64,
    pub state_rev: u64,
    pub render_rev: u64,
    pub render_key: u64,
}

/// An anchor as the wire sends it: six counters.
#[derive(Debug)]
pub struct Anchor {
    pub dataset_revision: String,
    pub worker_epoch: String,
    pub frame_id: String,
    pub state_rev: String,
    pub render_rev: String,
    pub render_key: String,
}

pub open spec fn counter_of(s: String) -> Option<u64> {
    counter_value(utf8(s@))
}

impl Anchor {
    pub open spec fn spec_ok(&self) -> bool {
        &&& counter_of(self.dataset_revision) is Some
        &&& counter_of(self.worker_epoch) is Some
        &&& counter_of(self.frame_id) is Some
        &&& counter_of(self.state_rev) is Some
        &&& counter_of(self.render_rev) is Some
        &&& counter_of(self.render_key) is Some
    }

    pub fn decode(&self) -> (r: Result<QueryAnchor, &'static str>)
        ensures
            r is Ok <==> self.spec_ok(),
            r is Err ==> r->Err_0 == "invalid_request",
            r matches Ok(a) ==> {
                &&& Some(a.dataset_revision) == counter_of(self.dataset_revision)
                &&& Some(a.worker_epoch) == counter_of(self.worker_epoch)
                &&& Some(a.frame_id) == counter_of(self.frame_id)
                &&& Some(a.state_rev) == counter_of(self.state_rev)
                &&& Some(a.render_rev) == counter_of(self.render_rev)
                &&& Some(a.render_key) == counter_of(self.render_key)
            },
    {
        let dataset_revision = match counter(self.dataset_revision.as_str()) {
            Ok(v) => v,
            Err(e) => return Err(e),
        };
        let worker_epoch = match counter(self.worker_epoch.as_str()) {
            Ok(v) => v,
            Err(e) => return Err(e),
        };
        let frame_id = match counter(self.frame_id.as_str()) {
            Ok(v) => v,
            Err(e) => return Err(e),
        };
        let state_rev = match counter(self.state_rev.as_str()) {
            Ok(v) => v,
            Err(e) => return Err(e),
        };
        let render_rev = match counter(self.render_rev.as_str()) {
            Ok(v) => v,
            Err(e) => return Err(e),
        };
        let render_key = match counter(self.render_key.as_str()) {
            Ok(v) => v,
            Err(e) => return Err(e),
        };
        Ok(QueryAnchor {
            dataset_revision,
            worker_epoch,
            frame_id,
            state_rev,
            render_rev,
            render_key,
        })
    }
}

/// The pick cycle of a pick query: a canonical `i64`.
pub fn pick_cycle(nth: &str) -> (r: Result<i64, &'static str>)
    ensures
        match canonical_i64(utf8(nth@)) {
            Some(n) => r == Ok::<i64, &'static str>(n),
            None => r == Err::<i64, &'static str>("invalid query cycle"),
        },
{
    match parse_i64(nth.as_bytes()) {
        Some(n) => Ok(n),
        None => Err("invalid query cycle"),
    }
}

/// The identity of a frame that was displayed on this connection. A margin
/// receipt stays useful across state and render revisions for crop pans.
#[derive(Clone, Copy, Debug, PartialEq, Eq)]
pub struct Receipt {
    pub frame_id: u64,
    pub dataset_revision: u64,
    pub worker_epoch: u64,
    pub render_key: u64,
    pub margin: bool,
}

pub open spec fn receipt_matches(r: Receipt, a: QueryAnchor) -> bool {
    &&& r.frame_id == a.frame_id
    &&& r.dataset_revision == a.dataset_revision
    &&& r.worker_epoch == a.worker_epoch
    &&& r.render_key == a.render_key
}

impl Receipt {
    pub fn matches(self, a: QueryAnchor) -> (r: bool)
        ensures
            r == receipt_matches(self, a),
    {
        self.frame_id == a.frame_id && self.dataset_revision == a.dataset_revision
            && self.worker_epoch == a.worker_epoch && self.render_key == a.render_key
    }
}

/// The newest displayed receipt of each purpose: the main frame and the
/// margin frame. A new connection holds none.
#[derive(Debug)]
pub struct Receipts {
    main: Option<Receipt>,
    margin: Option<Receipt>,
}

pub open spec fn slot_accepts(s: Option<Receipt>, a: QueryAnchor) -> bool {
    s matches Some(r) && receipt_matches(r, a)
}

impl Receipts {
    pub closed spec fn main_slot(&self) -> Option<Receipt> {
        self.main
    }

    pub closed spec fn margin_slot(&self) -> Option<Receipt> {
        self.margin
    }

    pub open spec fn spec_accepts(&self, a: QueryAnchor) -> bool {
        slot_accepts(self.main_slot(), a) || slot_accepts(self.margin_slot(), a)
    }

    pub fn new() -> (r: Receipts)
        ensures
            r.main_slot() is None,
            r.margin_slot() is None,
    {
        Receipts { main: None, margin: None }
    }

    /// Records a displayed frame; it replaces only the receipt of its own
    /// purpose.
    pub fn displayed(&mut self, r: Receipt)
        ensures
            !r.margin ==> final(self).main_slot() == Some(r) && final(self).margin_slot() == old(
                self,
            ).margin_slot(),
            r.margin ==> final(self).margin_slot() == Some(r) && final(self).main_slot() == old(
                self,
            ).main_slot(),
    {
        if r.margin {
            self.margin = Some(r);
        } else {
            self.main = Some(r);
        }
    }

    /// Whether a query anchor names a displayed frame.
    pub fn accepts(&self, a: QueryAnchor) -> (r: bool)
        ensures
            r == self.spec_accepts(a),
    {
        let main = match self.main {
            Some(m) => m.matches(a),
            None => false,
        };
        let margin = match self.margin {
            Some(m) => m.matches(a),
            None => false,
        };
        main || margin
    }

    /// How many receipts are held: at most one per purpose.
    pub fn held(&self) -> (r: usize)
        ensures
            r == (if self.main_slot() is Some { 1usize } else { 0usize }) + (if self.margin_slot() is Some {
                1usize
            } else {
                0usize
            }),
    {
        let mut n: usize = 0;
        if self.main.is_some() {
            n = n + 1;
        }
        if self.margin.is_some() {
            n = n + 1;
        }
        n
    }
}

/// The newest receipt of a purpose replaces the older one and leaves the other
/// purpose's receipt in place: a query is accepted exactly when it names the
/// newest displayed frame of either purpose.
pub proof fn law_receipts_keep_newest_of_each_purpose(
    before: Receipts,
    after: Receipts,
    r: Receipt,
    a: QueryAnchor,
)
    requires
        !r.margin ==> after.main_slot() == Some(r) && after.margin_slot() == before.margin_slot(),
        r.margin ==> after.margin_slot() == Some(r) && after.main_slot() == before.main_slot(),
    ensures
        after.spec_accepts(a) <==> receipt_matches(r, a) || (if r.margin {
            slot_accepts(before.main_slot(), a)
        } else {
            slot_accepts(before.margin_slot(), a)
        }),
{
}

/// Measurement boxes as the wire sends them.
#[derive(Debug)]
pub struct MeasureSelectionRequest {
    pub anchor: Anchor,
    pub boxes_dbu: Vec<[String; 4]>,
}

pub open spec fn box_of(b: [String; 4]) -> Option<[i64; 4]> {
    let v0 = canonical_i64(utf8(b[0]@));
    let v1 = canonical_i64(utf8(b[1]@));
    let v2 = canonical_i64(utf8(b[2]@));
    let v3 = canonical_i64(utf8(b[3]@));
    if v0 is Some && v1 is Some && v2 is Some && v3 is Some && v0->0 <= v2->0 && v1->0 <= v3->0 {
        Some([v0->0, v1->0, v2->0, v3->0])
    } else {
        None
    }
}

fn decode_box(b: &[String; 4]) -> (r: Option<[i64; 4]>)
    ensures
        r == box_of(*b),
{
    let x0 = match parse_i64(b[0].as_str().as_bytes()) {
        Some(v) => v,
        None => return None,
    };
    let y0 = match parse_i64(b[1].as_str().as_bytes()) {
        Some(v) => v,
        None => return None,
    };
    let x1 = match parse_i64(b[2].as_str().as_bytes()) {
        Some(v) => v,
        None => return None,
    };
    let y1 = match parse_i64(b[3].as_str().as_bytes()) {
        Some(v) => v,
        None => return None,
    };
    if x0 > x1 || y0 > y1 {
        return None;
    }
    Some([x0, y0, x1, y1])
}

impl MeasureSelectionRequest {
    pub open spec fn spec_ok(&self) -> bool {
        &&& self.boxes_dbu@.len() <= MEASURE_BOXES
        &&& forall|k: int| 0 <= k < self.boxes_dbu@.len() ==> (#[trigger] box_of(self.boxes_dbu@[k])) is Some
        &&& self.anchor.spec_ok()
    }

    /// Up to `MEASURE_BOXES` ordered boxes of canonical `i64` bounds, and the
    /// anchor.
    pub fn decode(self) -> (r: Result<(QueryAnchor, Vec<[i64; 4]>), &'static str>)
        ensures
            r is Ok <==> self.spec_ok(),
            r is Err ==> r->Err_0 == "invalid_request",
            r matches Ok((a, boxes)) ==> {
                &&& self.anchor.decode_spec(a)
                &&& boxes@.len() == self.boxes_dbu@.len()
                &&& forall|k: int| 0 <= k < boxes@.len() ==> Some(#[trigger] boxes@[k]) == box_of(self.boxes_dbu@[k])
            },
    {
        if self.boxes_dbu.len() > MEASURE_BOXES {
            return Err("invalid_request");
        }
        let mut boxes: Vec<[i64; 4]> = Vec::new();
        let mut i: usize = 0;
        while i < self.boxes_dbu.len()
            invariant
                i <= self.boxes_dbu@.len(),
                boxes@.len() == i,
                forall|k: int| 0 <= k < i ==> Some(#[trigger] boxes@[k]) == box_of(self.boxes_dbu@[k]),
            decreases self.boxes_dbu@.len() - i,
        {
            match decode_box(&self.boxes_dbu[i]) {
                Some(b) => boxes.push(b),
                None => return Err("invalid_request"),
            }
            i = i + 1;
        }
        assert forall|k: int| 0 <= k < self.boxes_dbu@.len() implies (#[trigger] box_of(
            self.boxes_dbu@[k],
        )) is Some by {
            assert(Some(boxes@[k]) == box_of(self.boxes_dbu@[k]));
        }
        match self.anchor.decode() {
            Ok(a) => Ok((a, boxes)),
            Err(_) => Err("invalid_request"),
        }
    }
}

/// A measurement box is accepted only with its lower corner first on both
/// axes: every decoded box has `x0 <= x1` and `y0 <= y1` and holds the four
/// numbers sent, and a box whose numbers are inverted on either axis makes
/// the whole request invalid.
pub proof fn law_measure_boxes_are_ordered(req: MeasureSelectionRequest, k: int)
    requires
        0 <= k < req.boxes_dbu@.len(),
    ensures
        box_of(req.boxes_dbu@[k]) matches Some(v) ==> v[0] <= v[2] && v[1] <= v[3] && Some(v[0])
            == canonical_i64(utf8(req.boxes_dbu@[k][0]@)) && Some(v[1]) == canonical_i64(
            utf8(req.boxes_dbu@[k][1]@),
        ) && Some(v[2]) == canonical_i64(utf8(req.boxes_dbu@[k][2]@)) && Some(v[3]) == canonical_i64(
            utf8(req.boxes_dbu@[k][3]@),
        ),
        (match (canonical_i64(utf8(req.boxes_dbu@[k][0]@)), canonical_i64(utf8(req.boxes_dbu@[k][2]@))) {
            (Some(x0), Some(x1)) => x0 > x1,
            _ => false,
        }) || (match (canonical_i64(utf8(req.boxes_dbu@[k][1]@)), canonical_i64(utf8(req.boxes_dbu@[k][3]@))) {
            (Some(y0), Some(y1)) => y0 > y1,
            _ => false,
        }) ==> !req.spec_ok(),
{
    if !(box_of(req.boxes_dbu@[k]) is Some) {
        assert(!req.spec_ok());
    }
}

/// Whether box text `b` is four canonical numbers with the lower corner
/// first on both axes.
pub open spec fn ordered_box_text(b: [String; 4]) -> bool {
    &&& canonical_i64(utf8(b[0]@)) is Some
    &&& canonical_i64(utf8(b[1]@)) is Some
    &&& canonical_i64(utf8(b[2]@)) is Some
    &&& canonical_i64(utf8(b[3]@)) is Some
    &&& canonical_i64(utf8(b[0]@))->0 <= canonical_i64(utf8(b[2]@))->0
    &&& canonical_i64(utf8(b[1]@))->0 <= canonical_i64(utf8(b[3]@))->0
}

/// A measurement request is accepted exactly when it names at most
/// `MEASURE_BOXES` boxes, every one of them ordered canonical numbers, and
/// a valid anchor.
pub proof fn law_measure_request_accepted(req: MeasureSelectionRequest)
    ensures
        req.spec_ok() <==> req.boxes_dbu@.len() <= MEASURE_BOXES && req.anchor.spec_ok() && forall|k: int|
            0 <= k < req.boxes_dbu@.len() ==> ordered_box_text(#[trigger] req.boxes_dbu@[k]),
{
    if req.spec_ok() {
        assert forall|k: int| 0 <= k < req.boxes_dbu@.len() implies ordered_box_text(
            #[trigger] req.boxes_dbu@[k],
        ) by {
            assert(box_of(req.boxes_dbu@[k]) is Some);
        }
    }
    if forall|k: int| 0 <= k < req.boxes_dbu@.len() ==> ordered_box_text(#[trigger] req.boxes_dbu@[k]) {
        assert forall|k: int| 0 <= k < req.boxes_dbu@.len() implies (#[trigger] box_of(
            req.boxes_dbu@[k],
        )) is Some by {
            assert(ordered_box_text(req.boxes_dbu@[k]));
        }
    }
}

impl Anchor {
    pub open spec fn decode_spec(&self, a: QueryAnchor) -> bool {
        &&& Some(a.dataset_revision) == counter_of(self.dataset_revision)
        &&& Some(a.worker_epoch) == counter_of(self.worker_epoch)
        &&& Some(a.frame_id) == counter_of(self.frame_id)
        &&& Some(a.state_rev) == counter_of(self.state_rev)
        &&& Some(a.render_rev) == counter_of(self.render_rev)
        &&& Some(a.render_key) == counter_of(self.render_key)
    }
}


/// Most planes a query may name.
pub const QUERY_PAIRS: usize = 4096;

/// What a view query does: snap to geometry, or pick the `nth` candidate.
#[derive(Debug)]
pub enum Operation {
    Snap,
    Pick { nth: String },
}

/// A decoded query operation.
#[derive(Clone, Copy, Debug, PartialEq, Eq)]
pub enum QueryOperation {
    Snap,
    Pick { nth: i64 },
}

/// A view query as the owner sends it, but for its screen position and pick
/// radius, which are read as numbers by the caller.
#[derive(Debug)]
pub struct Request {
    pub anchor: Anchor,
    pub operation: Operation,
    pub layers: Layers,
}

/// A decoded view query.
#[derive(Debug)]
pub struct ViewQuery {
    pub anchor: QueryAnchor,
    pub operation: QueryOperation,
    pub layers: Layers,
}

pub open spec fn layers_ok(l: Layers) -> bool {
    match l {
        Layers::Only(pairs) => 0 < pairs@.len() <= QUERY_PAIRS,
        _ => true,
    }
}

impl Request {
    /// Decodes a view query; `position_ok` says whether its position lies in
    /// the unit square and its pick radius in 0..=64 pixels. The refusals
    /// come in this order: the pick cycle, the position, the planes (between
    /// 1 and `QUERY_PAIRS` when listed), the anchor.
    pub fn decode(self, position_ok: bool) -> (r: Result<ViewQuery, &'static str>)
        ensures
            match self.operation {
                Operation::Pick { nth } => canonical_i64(utf8(nth@)) is None,
                Operation::Snap => false,
            } ==> r == Err::<ViewQuery, &'static str>("invalid query cycle"),
            !(match self.operation {
                Operation::Pick { nth } => canonical_i64(utf8(nth@)) is None,
                Operation::Snap => false,
            }) ==> if !position_ok {
                r == Err::<ViewQuery, &'static str>("invalid query position or radius")
            } else if !layers_ok(self.layers) {
                r == Err::<ViewQuery, &'static str>("invalid query layers")
            } else if !self.anchor.spec_ok() {
                r == Err::<ViewQuery, &'static str>("invalid_request")
            } else {
                r matches Ok(q) && self.anchor.decode_spec(q.anchor) && q.layers == self.layers
                    && q.operation == match self.operation {
                    Operation::Snap => QueryOperation::Snap,
                    Operation::Pick { nth } => QueryOperation::Pick { nth: canonical_i64(utf8(nth@))->0 },
                }
            },
    {
        let operation = match &self.operation {
            Operation::Snap => QueryOperation::Snap,
            Operation::Pick { nth } => QueryOperation::Pick { nth: pick_cycle(nth.as_str())? },
        };
        if !position_ok {
            return Err("invalid query position or radius");
        }
        let bad_layers = match &self.layers {
            Layers::Only(pairs) => pairs.len() == 0 || pairs.len() > QUERY_PAIRS,
            _ => false,
        };
        if bad_layers {
            return Err("invalid query layers");
        }
        let anchor = match self.anchor.decode() {
            Ok(a) => a,
            Err(e) => return Err(e),
        };
        Ok(ViewQuery { anchor, operation, layers: self.layers })
    }
}

} // verus!
