use floe_web::revision::Revision;

#[test]
fn changing_cancelled_and_closed_revisions_never_revive() {
    let mut r = Revision::new("a".repeat(64));
    let old = r.capture(&r.snapshot().0).unwrap();
    old.check(&r).unwrap();
    r.begin_at(None).unwrap();
    let next = r.snapshot().0;
    assert_ne!(next, "a".repeat(64));
    assert_eq!(old.check(&r), Err("drc_context_changed"));
    assert!(r.capture(&next).is_err());
    assert_eq!(r.begin_at(None), Err("drc_busy"));
    r.finish();
    let fresh = r.capture(&next).unwrap();
    fresh.check(&r).unwrap();
    assert!(old.check(&r).is_err());
    r.begin_at(None).unwrap();
    r.close();
    r.finish();
    assert!(r.capture(&r.snapshot().0).is_err());
    assert_eq!(r.begin_at(None), Err("drc_closed"));
}

#[test]
fn a_change_needs_the_expected_token() {
    let mut r = Revision::new("b".repeat(64));
    assert_eq!(r.advance(Some("c"), "d".to_string()), Err("drc_context_changed"));
    assert_eq!(r.snapshot(), ("b".repeat(64), false));
    assert_eq!(r.advance(Some(&"b".repeat(64)), "d".to_string()), Ok(()));
    assert_eq!(r.snapshot(), ("d".to_string(), true));
}
