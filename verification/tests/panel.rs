use floe_web::drc::CursorDto;
use floe_web::panel::{
    bind, check_selection, guest_check, selection_base, CdState, Data, Groups, Panel, Query,
};

fn data() -> Data {
    Data {
        search: String::new(),
        metric: None,
        rule_start: "0".into(),
        check: None,
        error_start: "0".into(),
        query: None,
        in_view: false,
        selected_only: false,
        waived: None,
        selected: None,
        markers: true,
        shown: true,
        jump_scale: None,
        zoom_lock: false,
        jump_active: false,
        focus_visible: false,
        cd: None,
        note_target: None,
    }
}

fn cursor(check: &str, error: &str) -> CursorDto {
    CursorDto {
        check: check.into(),
        error: error.into(),
    }
}

#[test]
fn new_read_revision_discards_saved_filter_cursors_but_idle_poll_keeps_them() {
    let mut p = Panel::new();
    p.bind_revision("old");
    p.set(1, data()).unwrap();
    let before = p.revision;
    p.bind_revision("old");
    assert_eq!(p.revision, before);
    assert!(p.data.is_some());
    p.bind_revision("new");
    assert!(p.data.is_none());
    assert_eq!(p.revision, 1);
}

#[test]
fn saved_note_target_is_independent_but_requires_a_live_jump() {
    let mut d = data();
    assert!(d.note_target.is_none());
    d.note_target = Some(cursor("1", "9007199254740994"));
    assert!(d.validate(true).is_err());
    d.jump_active = true;
    d.focus_visible = true;
    d.selected = Some(cursor("0", "0"));
    d.validate(true).unwrap();
    d.note_target.as_mut().unwrap().error = "01".into();
    assert!(d.validate(true).is_err());
}

#[test]
fn revision_retries_and_conflicting_old_tab_are_not_last_writer_wins() {
    let mut p = Panel::new();
    let a = data();
    assert_eq!(p.set(1, a.clone()).unwrap(), 2);
    assert_eq!(p.set(1, a.clone()).unwrap(), 2);
    let mut b = a.clone();
    b.markers = false;
    assert_eq!(p.set(1, b.clone()).unwrap_err(), "drc_panel_conflict");
    assert_eq!(p.set(2, b).unwrap(), 3);
    assert_eq!(p.set(1, a).unwrap_err(), "drc_panel_conflict");
    p.revision = u64::MAX;
    assert_eq!(p.set(u64::MAX, data()).unwrap_err(), "drc_panel_limit");
    assert!(!p.data.as_ref().unwrap().markers);
}

#[test]
fn bounded_typed_state_keeps_u64_and_rejects_nonfinite_coordinates() {
    let mut d = data();
    assert!(!d.in_view && !d.selected_only);
    assert!(d.metric.is_none());
    for bad in [String::new(), "x".repeat(65), "한".repeat(22)] {
        d.metric = Some(bad);
        assert!(d.validate(true).is_err());
    }
    d.metric = Some("width".into());
    d.validate(true).unwrap();
    d.metric = None;
    d.in_view = true;
    d.selected_only = true;
    d.validate(true).unwrap();
    d.query = Some(Query {
        bbox_um: ["0".into(), "0".into(), "1".into(), "1".into()],
        state_rev: "1".into(),
        cursor: cursor("0", "0"),
    });
    assert!(d.validate(true).is_err());
    d.query = None;
    d.jump_active = true;
    assert!(d.validate(true).is_err());
    d.focus_visible = true;
    assert!(d.validate(true).is_err());
    d.selected = Some(cursor("0", "9007199254740993"));
    d.validate(true).unwrap();
    d.cd = Some(CdState {
        target: cursor("1", "9007199254740994"),
        remaining: 2,
    });
    d.validate(true).unwrap();
    d.cd.as_mut().unwrap().remaining = 4;
    assert!(d.validate(true).is_err());
    d.cd.as_mut().unwrap().remaining = 0;
    d.validate(true).unwrap();
    d.jump_active = false;
    assert!(d.validate(true).is_err());
    d.jump_active = true;
    d.cd.as_mut().unwrap().target.error = "01".into();
    assert!(d.validate(true).is_err());
    d.cd = None;
    d.rule_start = "00".into();
    assert!(d.validate(true).is_err());
    d.rule_start = "0".into();
    // A jump scale of "NaN" does not read as a finite number.
    d.jump_scale = Some("NaN".into());
    assert!(d.validate(false).is_err());
    d.jump_scale = None;
    d.search = "한".repeat(86);
    assert!(d.validate(true).is_err());
}

#[test]
fn guests_never_write_note_targets_metrics_or_future_queries() {
    let p = Panel::new();
    let mut d = data();
    assert_eq!(guest_check(&p, &d, 1, 5, true), Ok(()));
    assert_eq!(guest_check(&p, &d, 2, 5, true), Err("drc_panel_conflict"));
    d.metric = Some("width".into());
    assert_eq!(guest_check(&p, &d, 1, 5, true), Err("forbidden"));
    d.metric = None;
    d.query = Some(Query {
        bbox_um: ["0".into(), "0".into(), "1".into(), "1".into()],
        state_rev: "6".into(),
        cursor: cursor("0", "0"),
    });
    assert_eq!(guest_check(&p, &d, 1, 5, true), Err("invalid_drc_request"));
    d.query.as_mut().unwrap().state_rev = "5".into();
    assert_eq!(guest_check(&p, &d, 1, 5, true), Ok(()));
    assert_eq!(guest_check(&p, &d, 1, 5, false), Err("invalid_drc_request"));
}

#[test]
fn a_selection_command_consumes_its_revision_once() {
    let mut g = Groups::new();
    assert_eq!(g.apply(1, Ok(())), Ok(()));
    assert_eq!(g.revision, 2);
    assert_eq!(g.apply(1, Ok(())), Err("drc_selection_conflict"));
    assert_eq!(g.apply(2, Err(())), Err("drc_selection_limit"));
    assert_eq!(g.revision, 2);
    assert_eq!(g.check(2), Ok(()));
    assert_eq!(g.next(2), Ok(3));
    assert_eq!(g.next(1), Err("drc_selection_conflict"));
    g.revision = u64::MAX;
    assert_eq!(g.next(u64::MAX), Err("drc_selection_limit"));
    assert_eq!(g.apply(u64::MAX, Ok(())), Err("drc_selection_limit"));
}

#[test]
fn guest_selection_filters_and_bases_need_the_current_revision() {
    let mut p = Panel::new();
    assert_eq!(check_selection(&p, None), Ok(()));
    assert_eq!(check_selection(&p, Some((1, 4))), Ok(()));
    assert_eq!(check_selection(&p, Some((2, 4))), Err("drc_selection_conflict"));
    assert_eq!(selection_base(&p, 1), Ok(()));
    p.groups.apply(1, Ok(())).unwrap();
    assert_eq!(selection_base(&p, 1), Err("drc_selection_conflict"));
    bind(&mut p, "r1");
    assert_eq!(p.groups.revision, 1);
    assert_eq!(p.read_revision.as_deref(), Some("r1"));
}

#[test]
fn guest_panel_keeps_filters_but_never_a_note_target_or_svrf_filter() {
    let base = Data { search: "x".into(), waived: Some(false), ..data() };
    let p = Panel::new();
    guest_check(&p, &base, 1, 1, true).unwrap();
    let metric = Data { metric: Some("WIDTH".into()), ..base.clone() };
    assert_eq!(guest_check(&p, &metric, 1, 1, true), Err("forbidden"));
    let note = Data {
        jump_active: true,
        focus_visible: true,
        selected: Some(cursor("0", "0")),
        note_target: Some(cursor("0", "0")),
        ..base
    };
    assert_eq!(guest_check(&p, &note, 1, 1, true), Err("forbidden"));
}
