use floe_web::exports::{Bounds, Drafts, PrepareDto, DRAFT_NANOS};
use floe_web::query::Anchor;
use floe_web::scoped::Layers;

fn anchor() -> Anchor {
    Anchor {
        dataset_revision: "1".into(),
        worker_epoch: "2".into(),
        frame_id: "3".into(),
        state_rev: "4".into(),
        render_rev: "5".into(),
        render_key: "6".into(),
    }
}

fn dto(bbox: [&str; 4], layers: &str, jobs: u16) -> PrepareDto {
    PrepareDto {
        anchor: anchor(),
        bounds: Bounds::Dbu {
            bbox: bbox.map(|s| s.to_string()),
        },
        layers: layers.into(),
        jobs,
        cell_name: "字".into(),
    }
}

#[test]
fn drafts_are_single_use_expiring_and_connection_scoped() {
    let now = 1_000u64;
    let mut d: Drafts<u8> = Drafts::new();
    let a = d.prepare(1, "a", now).unwrap();
    let b = d.prepare(2, "b", now).unwrap();
    assert!(d.check(&a, now).is_err());
    d.revoke("a");
    assert_eq!(d.check(&b, now).unwrap().clip, 2);
    assert!(Drafts::<u8>::new().check(&b, now).is_err());
    assert!(d.check(&b, now + DRAFT_NANOS).is_err());
    assert!(d.check(&b, now + DRAFT_NANOS - 1).is_ok());
    let c = d.prepare(3, "c", now).unwrap();
    d.consume();
    assert!(d.check(&c, now).is_err());
    let c = d.prepare(3, "c", now).unwrap();
    d.revoke("c");
    assert_eq!(d.check(&c, now).err(), Some("export_draft_expired"));
}

#[test]
fn input_is_canonical_and_never_accepts_paths_or_display_cut_options() {
    let parsed = dto(["-9223372036854775808", "0", "9223372036854775807", "1"], "none", 4)
        .decode()
        .unwrap();
    assert_eq!(parsed.bbox, Some([i64::MIN, 0, i64::MAX, 1]));
    assert!(matches!(parsed.layers, Layers::Empty));
    assert!(!parsed.visible);
    assert_eq!(parsed.anchor.render_key, 6);
    assert_eq!(parsed.cell_name, "字");
    assert!(dto(["0", "0", "1", "1"], "unknown", 4).decode().is_err());
    assert!(dto(["0", "0", "1", "1"], "all", 0).decode().is_err());
    assert!(dto(["0", "0", "1", "1"], "all", 17).decode().is_err());
    for bad in ["01", "1.0", "9223372036854775808"] {
        assert_eq!(
            dto([bad, "0", "1", "1"], "visible", 1).decode().unwrap_err(),
            "invalid_request"
        );
    }
    let v = dto(["0", "0", "1", "1"], "visible", 16).decode().unwrap();
    assert!(v.visible && matches!(v.layers, Layers::All));
    let view = PrepareDto {
        bounds: Bounds::Viewport {},
        ..dto(["0", "0", "0", "0"], "all", 1)
    };
    assert_eq!(view.decode().unwrap().bbox, None);
}
