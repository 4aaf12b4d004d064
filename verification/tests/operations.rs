use floe_web::guest::Json;
use floe_web::operations::{scope_report, Admission, Ledger, HISTORY};

fn is_new<S>(r: Result<Admission<S>, &'static str>) -> bool {
    matches!(r, Ok(Admission::New))
}

fn is_replay<S>(r: Result<Admission<S>, &'static str>) -> bool {
    matches!(r, Ok(Admission::Replay(_)))
}

fn error<S>(r: Result<Admission<S>, &'static str>) -> Option<&'static str> {
    match r {
        Err(e) => Some(e),
        Ok(_) => None,
    }
}

fn obj(fields: &[(&str, Json)]) -> Json {
    Json::Object(fields.iter().map(|(k, v)| (k.to_string(), v.clone())).collect())
}

fn t(s: &str) -> Json {
    Json::Text(s.to_string())
}

fn field<'a>(j: &'a Json, key: &str) -> Option<&'a Json> {
    match j {
        Json::Object(fs) => fs.iter().find(|(k, _)| k == key).map(|(_, v)| v),
        _ => None,
    }
}

fn queued(seq: &str, scope: Option<&str>) -> Json {
    let mut fields = vec![("seq", t(seq)), ("kind", t("review")), ("phase", t("queued"))];
    if let Some(id) = scope {
        fields.push(("scope_id", t(id)));
    }
    obj(&fields)
}

fn states(l: &Ledger<Json>) -> Vec<Json> {
    (0..l.kept()).map(|k| l.kept_state(k).clone()).collect()
}

#[test]
fn receipt_scope_cannot_be_rewritten_by_progress_or_a_new_registration() {
    let mut ledger: Ledger<Json> = Ledger::new();
    let old = "a".repeat(64);
    let new = "b".repeat(64);
    assert!(is_new(ledger.admit_scoped(1, "approved".into(), queued("1", Some(&old)), Some(&old))));
    assert_eq!(field(ledger.get(1).unwrap(), "scope_id"), Some(&t(&old)));
    ledger.update(1, obj(&[("seq", t("1")), ("phase", t("succeeded")), ("scope_id", t(&new))]), true);
    let saved = ledger.get(1).unwrap().clone();
    assert_eq!(field(&saved, "scope_id"), Some(&t(&old)));
    assert_eq!(field(&saved, "phase"), Some(&t("succeeded")));
    match ledger.admit_scoped(1, "approved".into(), queued("1", Some(&new)), Some(&new)) {
        Ok(Admission::Replay(value)) => assert_eq!(value, saved),
        Ok(Admission::New) => panic!("repeated approval became a new operation"),
        Err(e) => panic!("{e}"),
    }
    assert!(is_new(ledger.admit_scoped(2, "new approval".into(), queued("2", Some(&new)), Some(&new))));
    ledger.update(1, obj(&[("phase", t("failed"))]), true);
    assert_eq!(ledger.get(1), Some(&saved));
    assert_eq!(field(ledger.get(2).unwrap(), "scope_id"), Some(&t(&new)));
}

#[test]
fn duplicates_conflicts_busy_and_eviction_never_reexecute() {
    let mut l: Ledger<Json> = Ledger::new();
    assert!(is_new(l.accept(1, "index force".into(), queued("1", None))));
    assert!(is_replay(l.accept(1, "index force".into(), queued("1", None))));
    assert_eq!(
        error(l.accept(1, "index keep".into(), queued("1", None))),
        Some("operation_conflict")
    );
    assert_eq!(error(l.accept(2, "open".into(), queued("2", None))), Some("busy"));
    l.update(1, obj(&[("seq", t("1")), ("phase", t("succeeded"))]), true);
    assert_eq!(l.active(), None);
    assert_eq!(
        error(l.accept(3, "open".into(), queued("3", None))),
        Some("operation_sequence")
    );
    for n in 2..=40u64 {
        let seq = n.to_string();
        assert!(is_new(l.accept(n, "open".into(), queued(&seq, None))));
        l.update(n, obj(&[("seq", t(&seq)), ("phase", t("succeeded"))]), true);
    }
    assert!(l.get(1).is_none());
    assert_eq!(l.kept(), HISTORY);
    assert_eq!(
        error(l.accept(1, "index force".into(), queued("1", None))),
        Some("operation_expired")
    );
    let before = states(&l);
    l.update(1, t("late failure"), true);
    assert_eq!(before, states(&l));
    let mut l: Ledger<Json> = Ledger::starting_at(u64::MAX);
    assert_eq!(
        error(l.accept(u64::MAX, "open".into(), queued("x", None))),
        Some("operation_expired")
    );
    assert_eq!(
        error(l.accept(0, "open".into(), queued("0", None))),
        Some("operation_expired")
    );
}

#[test]
fn scopes_and_signatures_are_bounded() {
    let mut l: Ledger<Json> = Ledger::new();
    assert_eq!(
        error(l.admit_scoped(1, "s".into(), Json::Null, Some(&"A".repeat(64)))),
        Some("invalid_request")
    );
    assert_eq!(
        error(l.admit_scoped(1, "s".into(), Json::Null, Some(&"a".repeat(63)))),
        Some("invalid_request")
    );
    assert_eq!(
        error(l.accept(1, "x".repeat(128 * 1024 + 1), Json::Null)),
        Some("request_too_large")
    );
    assert!(is_new(l.accept(1, "x".repeat(128 * 1024), Json::Null)));
    assert_eq!(l.last_seq(), 1);
    assert_eq!(l.active(), Some(1));
    l.update(1, obj(&[("n", Json::Number("7".into()))]), false);
    assert_eq!(l.get(1), Some(&obj(&[("n", Json::Number("7".into()))])));
    assert_eq!(l.active(), Some(1));
    l.update(1, obj(&[("n", Json::Number("8".into()))]), true);
    assert_eq!(l.active(), None);
}

#[test]
fn a_report_that_is_not_an_object_changes_nothing() {
    let mut l: Ledger<Json> = Ledger::new();
    let scope = "c".repeat(64);
    assert!(is_new(l.admit_scoped(1, "s".into(), queued("1", Some(&scope)), Some(&scope))));
    let before = states(&l);
    l.update(1, t("done"), true);
    l.update(1, Json::Array(vec![t("phase")]), true);
    l.update(1, Json::Null, true);
    assert_eq!(states(&l), before);
    assert_eq!(l.active(), Some(1));
    l.update(1, obj(&[("phase", t("running"))]), false);
    assert_eq!(
        l.get(1),
        Some(&obj(&[("phase", t("running")), ("scope_id", t(&scope))]))
    );
    assert_eq!(l.active(), Some(1));
}

fn text(j: &Json) -> Option<&str> {
    match j {
        Json::Text(t) => Some(t.as_str()),
        _ => None,
    }
}

#[test]
fn progress_reports_carry_their_receipt_scope_and_no_other() {
    let state = Json::Object(vec![
        ("phase".to_string(), Json::Text("running".into())),
        ("scope_id".to_string(), Json::Text("forged".into())),
        ("seq".to_string(), Json::Text("1".into())),
    ]);
    let scope = "a".repeat(64);
    let Some(Json::Object(fields)) = scope_report(state, Some(&scope)) else {
        panic!("an object is a report");
    };
    let keys: Vec<&str> = fields.iter().map(|(k, _)| k.as_str()).collect();
    assert_eq!(keys, vec!["phase", "seq", "scope_id"]);
    assert_eq!(text(&fields[2].1), Some(scope.as_str()));
    assert_eq!(text(&fields[0].1), Some("running"));
    let state = Json::Object(vec![("scope_id".to_string(), Json::Text("forged".into()))]);
    let Some(Json::Object(fields)) = scope_report(state, None) else {
        panic!("an object is a report");
    };
    assert!(fields.is_empty());
    assert!(scope_report(Json::Text("x".into()), Some(&scope)).is_none());
    assert!(scope_report(Json::Array(vec![]), None).is_none());
}
