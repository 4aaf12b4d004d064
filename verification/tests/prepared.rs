use floe_web::prepared::PreparedEdits;
use floe_web::revision::Revision;

#[test]
fn revocation_cancels_ready_and_inflight_preparations_even_at_exhaustion() {
    let mut p: PreparedEdits<u8> = PreparedEdits::new();
    let pending = p.begin(1).unwrap();
    p.invalidate();
    assert!(p.finish(pending, 0, None).is_err());
    let stamp = p.begin(1).unwrap();
    let token = p.finish(stamp, 0, None).unwrap();
    p.invalidate();
    assert!(p.take(&token, 1).is_err());
    let mut p: PreparedEdits<u8> = PreparedEdits::starting_at(u64::MAX - 1);
    let pending = p.begin(1).unwrap();
    p.invalidate();
    assert!(p.finish(pending, 0, None).is_err());
    assert!(p.begin(1).is_err());
}

#[test]
fn newest_preparation_wins_and_tokens_are_scoped_single_use() {
    let mut plans: PreparedEdits<u8> = PreparedEdits::new();
    let first = plans.begin(1).unwrap();
    let second = plans.begin(1).unwrap();
    let token = plans.finish(second, 7, None).unwrap();
    assert!(plans.finish(first, 8, None).is_err());
    assert!(PreparedEdits::<u8>::new().take(&token, 1).is_err());
    assert!(plans.take("wrong", 1).is_err());
    assert_eq!(plans.take(&token, 1), Ok(7));
    assert!(plans.take(&token, 1).is_err());
    let stamp = plans.begin(2).unwrap();
    let token = plans.finish(stamp, 0, None).unwrap();
    assert_eq!(plans.take(&token, 3).unwrap_err(), "stale_state");
    assert!(plans.take(&token, 2).is_err());
    let stamp = plans.begin(4).unwrap();
    let token = plans.finish(stamp, 0, None).unwrap();
    let _cancelled = plans.begin(4).unwrap();
    assert!(plans.take(&token, 4).is_err());
    let mut plans: PreparedEdits<u8> = PreparedEdits::starting_at(u64::MAX);
    assert_eq!(plans.begin(5).unwrap_err(), "prepared_edit_limit");
}

#[test]
fn the_fence_of_a_ready_edit_is_found_only_by_its_token() {
    let r = Revision::new("a".repeat(64));
    let mut p: PreparedEdits<u8> = PreparedEdits::new();
    let stamp = p.begin(1).unwrap();
    let token = p.finish(stamp, 7, Some(r.capture(&r.snapshot().0).unwrap())).unwrap();
    assert!(p.fence_for(&"0".repeat(64)).is_none());
    assert_eq!(p.fence_for(&token).map(|f| f.check(&r)), Some(Ok(())));
    let stamp = p.begin(1).unwrap();
    assert!(p.fence_for(&token).is_none());
    let token = p.finish(stamp, 7, None).unwrap();
    assert!(p.fence_for(&token).is_none());
}
