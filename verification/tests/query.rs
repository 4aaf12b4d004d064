use floe_web::query::{
    pick_cycle, Anchor, Kind, MeasureSelectionRequest, Operation, QueryAnchor, QueryOperation, Receipt,
    Receipts, Request,
};
use floe_web::scoped::Layers;

fn stamp() -> QueryAnchor {
    QueryAnchor {
        dataset_revision: u64::MAX,
        worker_epoch: u64::MAX - 1,
        frame_id: u64::MAX - 2,
        state_rev: 5,
        render_rev: 3,
        render_key: 2,
    }
}

fn anchor(a: QueryAnchor) -> Anchor {
    Anchor {
        dataset_revision: a.dataset_revision.to_string(),
        worker_epoch: a.worker_epoch.to_string(),
        frame_id: a.frame_id.to_string(),
        state_rev: a.state_rev.to_string(),
        render_rev: a.render_rev.to_string(),
        render_key: a.render_key.to_string(),
    }
}

#[test]
fn displayed_receipts_are_bounded_scoped_and_allow_crop_revisions() {
    let a = stamp();
    let receipt = Receipt {
        frame_id: a.frame_id,
        dataset_revision: a.dataset_revision,
        worker_epoch: a.worker_epoch,
        render_key: a.render_key,
        margin: false,
    };
    let mut seen = Receipts::new();
    assert!(!seen.accepts(a));
    seen.displayed(receipt);
    assert!(seen.accepts(a));
    for i in 0..4 {
        let mut bad = a;
        match i {
            0 => bad.frame_id -= 1,
            1 => bad.dataset_revision -= 1,
            2 => bad.worker_epoch -= 1,
            _ => bad.render_key += 1,
        }
        assert!(!seen.accepts(bad));
    }
    let mut margin = a;
    margin.frame_id -= 1;
    seen.displayed(Receipt {
        frame_id: margin.frame_id,
        margin: true,
        ..receipt
    });
    margin.render_rev += 1;
    margin.state_rev += 1;
    assert!(seen.accepts(margin));
    seen.displayed(Receipt {
        frame_id: 1,
        ..receipt
    });
    assert!(!seen.accepts(a));
    assert!(seen.accepts(margin));
    assert!(!Receipts::new().accepts(margin));
    assert_eq!(seen.held(), 2);
}

#[test]
fn kinds_have_names_and_slots() {
    assert_eq!(Kind::parse("snap"), Ok(Kind::Snap));
    assert_eq!(Kind::parse("pick"), Ok(Kind::Pick));
    assert_eq!(Kind::parse("Snap"), Err("invalid query kind"));
    assert_eq!(Kind::Snap.name(), "snap");
    assert_eq!(Kind::Pick.name(), "pick");
    assert_eq!(Kind::Snap.index(), 0);
    assert_eq!(Kind::Pick.index(), 1);
}

#[test]
fn anchors_and_cycles_are_canonical() {
    assert_eq!(anchor(stamp()).decode(), Ok(stamp()));
    let mut a = anchor(stamp());
    a.state_rev = "0".into();
    assert_eq!(a.decode(), Err("invalid_request"));
    let mut a = anchor(stamp());
    a.render_key = "02".into();
    assert_eq!(a.decode(), Err("invalid_request"));
    let mut a = anchor(stamp());
    a.frame_id = "18446744073709551616".into();
    assert_eq!(a.decode(), Err("invalid_request"));
    assert_eq!(pick_cycle("-1"), Ok(-1));
    assert_eq!(pick_cycle("9223372036854775807"), Ok(i64::MAX));
    assert_eq!(pick_cycle("-9223372036854775808"), Ok(i64::MIN));
    for bad in ["9223372036854775808", "-9223372036854775809", "+1", "-0", "01", "1.0", ""] {
        assert_eq!(pick_cycle(bad), Err("invalid query cycle"));
    }
}

#[test]
fn measurement_boxes_are_bounded_ordered_and_canonical() {
    let b = |v: [&str; 4]| v.map(|s| s.to_string());
    let r = MeasureSelectionRequest {
        anchor: anchor(stamp()),
        boxes_dbu: vec![b(["-9223372036854775808", "0", "9223372036854775807", "0"])],
    };
    let (a, boxes) = r.decode().unwrap();
    assert_eq!(a, stamp());
    assert_eq!(boxes, vec![[i64::MIN, 0, i64::MAX, 0]]);
    let r = MeasureSelectionRequest {
        anchor: anchor(stamp()),
        boxes_dbu: vec![b(["1", "0", "0", "0"])],
    };
    assert_eq!(r.decode().unwrap_err(), "invalid_request");
    let r = MeasureSelectionRequest {
        anchor: anchor(stamp()),
        boxes_dbu: vec![b(["0", "0", "0", "0"]); 65],
    };
    assert_eq!(r.decode().unwrap_err(), "invalid_request");
    let r = MeasureSelectionRequest {
        anchor: anchor(stamp()),
        boxes_dbu: vec![b(["0", "0", "0", "0"]); 64],
    };
    assert_eq!(r.decode().unwrap().1.len(), 64);
    let mut bad = anchor(stamp());
    bad.worker_epoch = "x".into();
    let r = MeasureSelectionRequest {
        anchor: bad,
        boxes_dbu: vec![],
    };
    assert_eq!(r.decode().unwrap_err(), "invalid_request");
}

fn query(operation: Operation, layers: Layers) -> Request {
    Request { anchor: anchor(stamp()), operation, layers }
}

#[test]
fn view_queries_decode_cycle_planes_and_anchor_in_order() {
    let q = query(Operation::Pick { nth: "-1".into() }, Layers::All).decode(true).unwrap();
    assert_eq!((q.anchor, q.operation), (stamp(), QueryOperation::Pick { nth: -1 }));
    let q = query(Operation::Snap, Layers::Only(vec![(1, 2)])).decode(true).unwrap();
    assert_eq!(q.operation, QueryOperation::Snap);
    assert!(matches!(q.layers, Layers::Only(ref p) if p == &vec![(1, 2)]));
    for cycle in ["-0", "01", "+1", "9223372036854775808"] {
        let r = query(Operation::Pick { nth: cycle.into() }, Layers::All).decode(false);
        assert_eq!(r.err(), Some("invalid query cycle"), "{cycle}");
    }
    assert_eq!(query(Operation::Snap, Layers::All).decode(false).err(), Some("invalid query position or radius"));
    assert_eq!(query(Operation::Snap, Layers::Only(vec![])).decode(true).err(), Some("invalid query layers"));
    assert_eq!(
        query(Operation::Snap, Layers::Only(vec![(0, 0); 4097])).decode(true).err(),
        Some("invalid query layers")
    );
    assert!(query(Operation::Snap, Layers::Only(vec![(0, 0); 4096])).decode(true).is_ok());
    let mut bad = query(Operation::Snap, Layers::Empty);
    bad.anchor.frame_id = "01".into();
    assert_eq!(bad.decode(true).err(), Some("invalid_request"));
}
