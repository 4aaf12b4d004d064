use floe_web::guest::Json;
use floe_web::operations::{Admission, Ledger};
use floe_web::service::{
    counter, identity, submission, IndexArgs, IndexTarget, LevelSelection, OpenDisplay, OperationDto,
};

fn index_open(approved: bool, request_id: String, open_seq: &str) -> OperationDto<()> {
    OperationDto::IndexOpen {
        seq: "2".into(),
        request_id,
        open_seq: open_seq.into(),
        approved,
        target: IndexTarget::Empty {},
        pixels: [137, 103],
        options: IndexArgs { jobs: 2, ..IndexArgs::default() },
    }
}

#[test]
fn consent_and_target_are_strict_and_not_implicit_defaults() {
    assert!(identity(&"a".repeat(64)).is_ok());
    for value in [
        "".to_owned(),
        "a".repeat(63),
        "a".repeat(65),
        "A".repeat(64),
        "x".repeat(64),
        "한".repeat(64),
    ] {
        assert!(identity(&value).is_err());
    }
    assert_eq!(index_open(true, "a".repeat(64), "1").retried_open(), Ok(1));
    assert_eq!(index_open(false, "a".repeat(64), "1").retried_open(), Err("approval_required"));
    assert_eq!(index_open(true, "a".repeat(63), "1").retried_open(), Err("invalid_request"));
    assert_eq!(index_open(true, "a".repeat(64), "01").retried_open(), Err("invalid_request"));
    assert!(IndexTarget::Replace {
        view_id: "x".into(),
        state_rev: "1".into()
    }
    .resolve()
    .is_err());
    assert!(IndexTarget::Replace {
        view_id: "a".repeat(64),
        state_rev: "01".into()
    }
    .resolve()
    .is_err());
}

#[test]
fn index_targets_resolve_to_a_view_and_revision() {
    assert_eq!(IndexTarget::Empty {}.resolve(), Ok(None));
    assert_eq!(
        IndexTarget::Replace { view_id: "b".repeat(64), state_rev: "18446744073709551615".into() }.resolve(),
        Ok(Some(("b".repeat(64), u64::MAX)))
    );
    assert_eq!(
        IndexTarget::Replace { view_id: "b".repeat(64), state_rev: "0".into() }.resolve(),
        Err("invalid_request")
    );
}

#[test]
fn counters_are_canonical_and_positive() {
    assert_eq!(counter("1"), Ok(1));
    assert_eq!(counter("18446744073709551615"), Ok(u64::MAX));
    for bad in ["", "0", "01", "+1", "-1", "18446744073709551616", "1.0", " 1"] {
        assert_eq!(counter(bad), Err("invalid_request"), "{bad}");
    }
}

#[test]
fn level_selections_are_bounded_canonical_sets() {
    assert_eq!(LevelSelection::default().resolve(), Ok(None));
    assert_eq!(
        LevelSelection::Only { ids: vec!["3".into(), "-2".into(), "3".into()] }.resolve(),
        Ok(Some(vec![-2, 3]))
    );
    assert_eq!(LevelSelection::Only { ids: vec![] }.resolve(), Err("level selection limit"));
    assert_eq!(
        LevelSelection::Only { ids: vec!["1".into(); 4097] }.resolve(),
        Err("level selection limit")
    );
    assert_eq!(LevelSelection::Only { ids: vec!["1".into(); 4096] }.resolve(), Ok(Some(vec![1])));
    for bad in ["01", "+1", "-0", "x", "9223372036854775808"] {
        assert_eq!(
            LevelSelection::Only { ids: vec![bad.into()] }.resolve(),
            Err("invalid level ID"),
            "{bad}"
        );
    }
}

#[test]
fn index_arguments_default_to_twelve_jobs_with_summary_on() {
    let d = IndexArgs::default();
    assert_eq!((d.jobs, d.force, d.lod, d.occupancy, d.occupancy_only), (12, false, false, true, false));
    assert_eq!(d.occupancy_um, None);
    assert_eq!(d.jobs(), Ok(12));
    for (jobs, ok) in [(0, false), (1, true), (16, true), (17, false)] {
        let r = IndexArgs { jobs, ..IndexArgs::default() }.jobs();
        assert_eq!(r.is_ok(), ok, "{jobs}");
    }
}

#[test]
fn every_operation_carries_a_counter_sequence() {
    let open: OperationDto<()> = OperationDto::Open {
        seq: "7".into(),
        source_id: "s".into(),
        mode: "level".into(),
        levels: LevelSelection::All {},
        body: Box::new(()),
        display_policy: OpenDisplay::Window,
        label_preference: None,
    };
    assert_eq!(open.sequence(), Ok(7));
    assert_eq!(open.retried_open(), Err("invalid_request"));
    let mode: OperationDto<()> = OperationDto::Mode {
        seq: "0".into(),
        view_id: "v".into(),
        base_state_rev: "1".into(),
        mode: "level".into(),
    };
    assert_eq!(mode.sequence(), Err("invalid_request"));
    let index: OperationDto<()> = OperationDto::Index {
        seq: "18446744073709551615".into(),
        source_id: "s".into(),
        levels: LevelSelection::All {},
        options: IndexArgs::default(),
    };
    assert_eq!(index.sequence(), Ok(u64::MAX));
    assert_eq!(index_open(true, "a".repeat(64), "1").sequence(), Ok(2));
}

fn open_at(seq: &str) -> OperationDto<()> {
    OperationDto::Open {
        seq: seq.into(),
        source_id: "s".into(),
        mode: "level".into(),
        levels: LevelSelection::All {},
        body: Box::new(()),
        display_policy: OpenDisplay::Window,
        label_preference: None,
    }
}

#[test]
fn submissions_replay_before_their_own_checks_and_admit_in_order() {
    let mut l: Ledger<Json> = Ledger::new();
    let q = || Json::Text("queued".into());
    let r = submission(true, false, &mut l, &open_at("1"), "a".into(), Ok(()), q());
    assert!(matches!(r, Err("closed")));
    let r = submission(false, false, &mut l, &open_at("01"), "a".into(), Ok(()), q());
    assert!(matches!(r, Err("invalid_request")));
    let r = submission(false, false, &mut l, &open_at("1"), "a".into(), Err("source_unavailable"), q());
    assert!(matches!(r, Err("source_unavailable")));
    let r = submission(false, true, &mut l, &open_at("1"), "a".into(), Ok(()), q());
    assert!(matches!(r, Err("busy")));
    let r = submission(false, false, &mut l, &open_at("1"), "a".into(), Ok(()), q());
    assert!(matches!(r, Ok(Admission::New)));
    assert_eq!(l.active(), Some(1));
    let r = submission(false, true, &mut l, &open_at("1"), "a".into(), Err("invalid_request"), q());
    assert!(matches!(r, Ok(Admission::Replay(Json::Text(ref t))) if t == "queued"));
    let r = submission(false, false, &mut l, &open_at("1"), "b".into(), Ok(()), q());
    assert!(matches!(r, Err("operation_conflict")));
    let r = submission(false, false, &mut l, &open_at("2"), "c".into(), Ok(()), q());
    assert!(matches!(r, Err("busy")));
    let r = submission(false, false, &mut l, &open_at("0"), "c".into(), Ok(()), q());
    assert!(matches!(r, Err("invalid_request")));
    let mut l: Ledger<Json> = Ledger::starting_at(5);
    let r = submission(false, false, &mut l, &open_at("3"), "c".into(), Err("invalid_request"), q());
    assert!(matches!(r, Err("operation_expired")));
}

#[test]
fn an_unapproved_index_then_open_is_refused_and_admits_nothing() {
    let mut l: Ledger<Json> = Ledger::new();
    let q = || Json::Text("queued".into());
    let r = submission(false, false, &mut l, &index_open(false, "a".repeat(64), "1"), "s".into(), Ok(()), q());
    assert!(matches!(r, Err("approval_required")));
    assert_eq!((l.last_seq(), l.active(), l.kept()), (0, None, 0));
    let r = submission(false, false, &mut l, &index_open(true, "A".repeat(64), "1"), "s".into(), Ok(()), q());
    assert!(matches!(r, Err("invalid_request")));
    let r = submission(false, false, &mut l, &index_open(true, "a".repeat(64), "1"), "s".into(), Ok(()), q());
    assert!(matches!(r, Err("operation_sequence")));
}

fn obj(fields: &[(&str, &str)]) -> Json {
    Json::Object(fields.iter().map(|(k, v)| (k.to_string(), Json::Text(v.to_string()))).collect())
}

#[test]
fn a_retried_open_must_be_a_kept_failed_open_without_an_index() {
    let mut l: Ledger<Json> = Ledger::new();
    assert!(matches!(l.accept(1, "open".into(), obj(&[("kind", "open"), ("phase", "queued")])), Ok(Admission::New)));
    assert_eq!(l.retry_record(1), Err("invalid_request"));
    l.update(1, obj(&[("kind", "open"), ("phase", "failed"), ("error", "index_unavailable")]), true);
    assert_eq!(l.retry_record(1), Ok(()));
    assert_eq!(l.retry_record(2), Err("operation_expired"));
    assert!(matches!(l.accept(2, "open".into(), obj(&[("kind", "index")])), Ok(Admission::New)));
    l.update(2, obj(&[("kind", "index"), ("phase", "failed"), ("error", "index_unavailable")]), true);
    assert_eq!(l.retry_record(2), Err("invalid_request"));
}
