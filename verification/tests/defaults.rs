use floe_web::auth::{Auth, SessionId};
use floe_web::defaults::{check_approval, Defaults, DEFAULT_DRAFT_NANOS};

fn secs(n: u64) -> u64 {
    n * 1_000_000_000
}

fn owner() -> SessionId {
    let (mut auth, secret) = Auth::new(0, secs(30), secs(60)).unwrap();
    auth.exchange(&secret.expose(), 0).unwrap().id
}

fn view() -> String {
    "a".repeat(64)
}

fn finish(d: &mut Defaults<&'static str>, serial: u64, who: &SessionId, now: u64) -> Result<String, &'static str> {
    d.finish(serial, who.clone(), view(), "1", Some("mask.jb.layerprops".into()), "draft", now)
}

#[test]
fn drafts_are_owner_scoped_expiring_and_newest_only() {
    let mut d: Defaults<&'static str> = Defaults::new();
    let a = owner();
    let b = owner();
    let first = d.begin(false).unwrap();
    let second = d.begin(false).unwrap();
    assert_eq!(finish(&mut d, first, &a, 0).unwrap_err(), "default_draft_expired");
    let token = finish(&mut d, second, &a, 0).unwrap();
    d.revoke(&b, &token);
    assert!(d.ready().is_some());
    d.revoke(&a, &token);
    assert!(d.ready().is_none());
    let serial = d.begin(false).unwrap();
    finish(&mut d, serial, &a, 5).unwrap();
    d.maintain(5 + DEFAULT_DRAFT_NANOS - 1);
    assert!(d.ready().is_some());
    d.maintain(5 + DEFAULT_DRAFT_NANOS);
    assert!(d.ready().is_none());
    assert_eq!(d.begin(true).unwrap_err(), "busy");
    let pending = d.begin(false).unwrap();
    d.close();
    assert_eq!(finish(&mut d, pending, &a, 0).unwrap_err(), "default_draft_expired");
    assert_eq!(d.begin(false).unwrap_err(), "closed");
}

#[test]
fn a_claim_names_the_owner_token_view_and_revision() {
    let mut d: Defaults<&'static str> = Defaults::new();
    let a = owner();
    let b = owner();
    let s = d.begin(false).unwrap();
    let token = finish(&mut d, s, &a, 10).unwrap();
    assert_eq!(d.claim(&b, &token, &view(), 1, 10), Err("default_draft_expired"));
    assert_eq!(d.claim(&a, &"c".repeat(64), &view(), 1, 10), Err("default_draft_expired"));
    assert!(d.ready().is_some());
    assert_eq!(d.claim(&a, &token, &view(), 1, 10), Ok(()));
    let ready = d.take().unwrap();
    assert_eq!((ready.view_id(), ready.rev(), ready.name(), ready.draft), (view().as_str(), 1, "mask.jb.layerprops", "draft"));
    assert!(d.ready().is_none());
    let s = d.begin(false).unwrap();
    let token = finish(&mut d, s, &a, 10).unwrap();
    assert_eq!(d.claim(&a, &token, &view(), 2, 10), Err("stale_state"));
    assert!(d.ready().is_none());
    let s = d.begin(false).unwrap();
    let token = finish(&mut d, s, &a, 10).unwrap();
    assert_eq!(d.claim(&a, &token, &view(), 1, 10 + DEFAULT_DRAFT_NANOS), Err("default_draft_expired"));
    assert!(d.ready().is_none());
    d.close();
    assert_eq!(d.claim(&a, &token, &view(), 1, 10), Err("closed"));
}

#[test]
fn finishing_needs_a_name_and_a_counter_revision() {
    let mut d: Defaults<&'static str> = Defaults::new();
    let a = owner();
    let s = d.begin(false).unwrap();
    assert_eq!(d.finish(s, a.clone(), view(), "1", None, "draft", 0), Err("default_unavailable"));
    assert_eq!(d.finish(s, a.clone(), view(), "01", Some("n".into()), "draft", 0), Err("invalid_request"));
    assert!(d.ready().is_none());
    assert!(d.finish(s, a, view(), "1", Some("n".into()), "draft", 0).is_ok());
}

#[test]
fn approvals_are_explicit_and_canonical() {
    let t = "b".repeat(64);
    assert_eq!(check_approval("1", "2", &t, &view(), true), Ok((1, 2)));
    assert_eq!(check_approval("1", "2", &t, &view(), false), Err("default_approval_required"));
    assert_eq!(check_approval("1", "2", "b", &view(), true), Err("default_approval_required"));
    assert_eq!(check_approval("1", "2", &t, "a", true), Err("default_approval_required"));
    assert_eq!(check_approval("0", "2", &t, &view(), true), Err("invalid_request"));
    assert_eq!(check_approval("1", "02", &t, &view(), false), Err("invalid_request"));
}

#[test]
fn a_new_preparation_replaces_the_held_draft() {
    let mut d: Defaults<&'static str> = Defaults::new();
    let a = owner();
    let s = d.begin(false).unwrap();
    d.finish(s, a.clone(), view(), "1", Some("n".into()), "one", 0).unwrap();
    let s = d.begin(false).unwrap();
    assert!(d.ready().is_none());
    let token = d.finish(s, a.clone(), view(), "2", Some("n".into()), "two", 0).unwrap();
    assert_eq!(d.ready().unwrap().draft, "two");
    assert_eq!(d.claim(&a, &token, &view(), 2, 1), Ok(()));
    assert_eq!(d.take().unwrap().draft, "two");
}
