use floe_web::launch::{Action, Failure, LaunchError, LaunchReceipt, Launches, OpenClaim, Phase, Proposal};
use floe_web::service::{IndexArgs, LevelSelection, OpenDisplay, OperationDto};
use std::sync::atomic::Ordering;

type L = Launches<String, String>;

fn phase(l: &L) -> Option<Phase> {
    l.pending().map(|e| e.phase)
}

fn open(seq: &str, view_id: Option<&str>, state_rev: Option<&str>) -> Action {
    Action::Open {
        seq: seq.into(),
        pixels: [100, 100],
        levels: LevelSelection::All {},
        view_id: view_id.map(Into::into),
        state_rev: state_rev.map(Into::into),
    }
}

fn open_dto(seq: &str) -> OperationDto<()> {
    OperationDto::Open {
        seq: seq.into(),
        source_id: "opaque".into(),
        mode: "level".into(),
        levels: LevelSelection::All {},
        body: Box::new(()),
        display_policy: OpenDisplay::Window,
        label_preference: None,
    }
}

fn proposal(text: &str) -> Proposal<String> {
    Proposal::check(text.to_string(), text.len(), &open_dto("1")).unwrap()
}

#[test]
fn proposal_schema_never_grants_index_or_path_authority() {
    let mut l = L::new();
    let (id, _) = l.reserve().unwrap();
    let valid = r#"{"kind":"open","seq":"1","source_id":"opaque","mode":"level","body":{}}"#;
    let index_text = r#"{"kind":"index","seq":"1","source_id":"opaque","options":{}}"#;
    let index: OperationDto<()> = OperationDto::Index {
        seq: "1".into(),
        source_id: "opaque".into(),
        levels: LevelSelection::All {},
        options: IndexArgs::default(),
    };
    let later_text = r#"{"kind":"open","seq":"2","source_id":"opaque","mode":"level","body":{}}"#;
    let long_text = format!(
        r#"{{"kind":"open","seq":"1","source_id":"{}","mode":"level","body":{{}}}}"#,
        "x".repeat(16384)
    );
    let cases: Vec<(String, OperationDto<()>)> = vec![
        (index_text.to_string(), index),
        (later_text.to_string(), open_dto("2")),
        (long_text, open_dto("1")),
    ];
    for (text, parsed) in cases {
        assert!(Proposal::check(text.clone(), text.len(), &parsed).is_err(), "{text}");
        assert_eq!(phase(&l), Some(Phase::Preparing));
    }
    assert!(l.ready(&id, None, true).is_err());
    assert_eq!(phase(&l), Some(Phase::Preparing));
    l.ready(&id, Some(proposal(valid)), true).unwrap();
    assert_eq!(l.pending().unwrap().request.as_deref(), Some(valid));
    assert!(l.pending().unwrap().confirm_levels);
}

#[test]
fn launcher_proposals_refuse_by_size_then_kind() {
    let long = "y".repeat(16385);
    assert_eq!(
        Proposal::check(long.clone(), long.len(), &open_dto("1")).err(),
        Some("launcher proposal limit")
    );
    let edge = "y".repeat(16384);
    assert!(Proposal::check(edge.clone(), edge.len(), &open_dto("1")).is_ok());
    assert_eq!(
        Proposal::check(edge.clone(), edge.len(), &open_dto("01")).err(),
        Some("launcher proposal must open, never index")
    );
    assert_eq!(open_dto("1").launcher_proposal(), Ok(()));
    assert_eq!(open_dto("2").launcher_proposal(), Err("launcher proposal must open, never index"));
}

#[test]
fn one_pending_reservation_and_terminal_shutdown() {
    let mut l = L::new();
    assert_eq!((l.revision(), phase(&l)), (0, None));
    let (id, stop) = l.reserve().unwrap();
    assert_eq!(l.reserve().unwrap_err(), LaunchError::Busy);
    assert_eq!(phase(&l), Some(Phase::Preparing));
    l.ready(&id, None, false).unwrap();
    assert_eq!(phase(&l), Some(Phase::Ready));
    assert!(l.ready(&id, None, false).is_err());
    l.failed(&id, Failure::Io);
    assert_eq!(phase(&l), Some(Phase::Ready));
    l.stop();
    let revision = l.revision();
    assert_eq!(stop.load(Ordering::Relaxed), 1);
    assert!(l.pending().is_none());
    assert_eq!(l.reserve().unwrap_err(), LaunchError::Closed);
    assert!(l.ready(&id, None, false).is_err());
    l.stop();
    assert_eq!(l.revision(), revision);
}

#[test]
fn cancelled_preparation_cannot_become_ready() {
    let mut l = L::new();
    let (id, flag) = l.reserve().unwrap();
    flag.store(1, Ordering::Relaxed);
    assert_eq!(l.ready(&id, None, false).unwrap_err(), LaunchError::Cancelled);
    l.failed(&id, Failure::Cancelled);
    assert_eq!(l.pending().unwrap().error.map(|f| f.code()), Some("cancelled"));
    l.failed(&id, Failure::Io);
    assert_eq!(l.pending().unwrap().error.map(|f| f.code()), Some("cancelled"));
}

#[test]
fn history_keeps_the_sixteen_newest() {
    let mut l = L::new();
    let first = l.reserve().unwrap().0;
    let mut last = first.clone();
    for n in 0..32 {
        assert!(l.lookup(&last, "dismiss").unwrap().is_none());
        assert_eq!(l.act(&last, "dismiss".into(), &Action::Dismiss), Ok(None));
        last = l.reserve().unwrap().0;
        assert_eq!(l.revision(), 2 * (n + 1) + 1);
    }
    assert_eq!(l.entries().len(), 16);
    assert!(!l.entries().iter().any(|e| e.id == first));
    assert_eq!(l.lookup(&first, "dismiss").err(), Some("launch_expired"));
}

#[test]
fn readiness_needs_a_preparing_request_and_a_proposal_to_confirm_levels() {
    let mut l = L::new();
    assert_eq!(l.ready("nobody", None, false).unwrap_err(), LaunchError::Expired);
    let (id, _) = l.reserve().unwrap();
    assert_eq!(l.ready(&id, None, true).unwrap_err(), LaunchError::LevelsWithoutRequest);
    assert_eq!(phase(&l), Some(Phase::Preparing));
    l.ready(&id, Some(proposal("proposal")), true).unwrap();
    let e = l.pending().unwrap();
    assert_eq!((e.phase, e.request.as_deref(), e.confirm_levels), (Phase::Ready, Some("proposal"), true));
    assert_eq!(LaunchError::LevelsWithoutRequest.message(), "present request cannot select levels");
}

#[test]
fn answers_are_recorded_once_and_replayed() {
    let mut l = L::new();
    let (id, _) = l.reserve().unwrap();
    assert_eq!(l.act(&id, "present".into(), &Action::Present), Err("launch_unavailable"));
    l.ready(&id, Some(proposal("proposal")), false).unwrap();
    assert_eq!(l.act(&id, "present".into(), &Action::Present), Err("launch_unavailable"));
    assert_eq!(l.act(&id, "a".into(), &open("0", None, None)), Err("invalid_request"));
    assert_eq!(l.act(&id, "a".into(), &open("1", Some("v"), None)), Err("invalid_request"));
    assert_eq!(l.act(&id, "a".into(), &open("1", Some("v"), Some("01"))), Err("invalid_request"));
    assert_eq!(
        l.act(&id, "a".into(), &open("1", Some("v"), Some("7"))),
        Ok(Some(OpenClaim { seq: 1, replace: Some(("v".into(), 7)) }))
    );
    assert_eq!(phase(&l), Some(Phase::Ready));
    let before = l.revision();
    l.submitted(&id, "a".into(), "queued".into());
    assert_eq!(l.revision(), before + 1);
    assert!(l.pending().is_none());
    assert!(matches!(l.lookup(&id, "a"), Ok(Some(LaunchReceipt::Submitted(s))) if s == "queued"));
    assert_eq!(l.lookup(&id, "b").err(), Some("launch_conflict"));
    assert_eq!(l.entries()[0].phase.name(), "submitted");
    l.stop();
    assert_eq!(l.lookup(&id, "a").err(), Some("closed"));
}

#[test]
fn a_present_request_is_presented_and_a_dismissal_raises_the_flag() {
    let mut l = L::new();
    let (id, flag) = l.reserve().unwrap();
    l.ready(&id, None, false).unwrap();
    assert_eq!(l.act(&id, "p".into(), &open("1", None, None)), Err("invalid_request"));
    assert_eq!(l.act(&id, "p".into(), &Action::Present), Ok(None));
    assert!(matches!(l.lookup(&id, "p"), Ok(Some(LaunchReceipt::Presented))));
    let (next, next_flag) = l.reserve().unwrap();
    assert_eq!(flag.load(Ordering::Relaxed), 0);
    assert_eq!(l.act(&next, "d".into(), &Action::Dismiss), Ok(None));
    assert_eq!(next_flag.load(Ordering::Relaxed), 1);
    assert_eq!(l.ready(&next, None, false).unwrap_err(), LaunchError::Cancelled);
}
