use floe_web::auth::{public_id, Auth, AuthError, Secret};

fn secs(n: u64) -> u64 {
    std::time::Duration::from_secs(n).as_nanos() as u64
}

fn start() -> u64 {
    secs(1_000)
}

#[test]
fn bootstrap_is_one_use_and_has_a_deadline() {
    let now = start();
    let (mut a, b) = Auth::new(now, secs(2), secs(5)).unwrap();
    assert!(!a.expired(now));
    assert!(a.expired(now + secs(2)));
    assert!(a.exchange(&"0".repeat(64), now).is_err());
    let c = a.exchange(&b.expose(), now).unwrap();
    assert!(!a.expired(now + secs(2)));
    assert!(a.expired(now + secs(5)));
    assert!(a.exchange(&b.expose(), now).is_err());
    assert_eq!(
        a.authenticate(&c.cookie.expose(), &c.csrf.expose(), now)
            .unwrap(),
        c.id
    );
    let (mut a, b) = Auth::new(now, secs(2), secs(5)).unwrap();
    assert!(a.exchange(&b.expose(), now + secs(2)).is_err());
}

#[test]
fn cookie_alone_wrong_csrf_expiry_and_revocation_fail_closed() {
    let now = start();
    let (mut a, b) = Auth::new(now, secs(2), secs(5)).unwrap();
    let c = a.exchange(&b.expose(), now).unwrap();
    for (cookie, csrf) in [
        (c.cookie.expose(), String::new()),
        (String::new(), c.csrf.expose()),
        (c.csrf.expose(), c.cookie.expose()),
        (c.cookie.expose(), "0".repeat(64)),
    ] {
        assert!(a.authenticate(&cookie, &csrf, now).is_err());
    }
    assert!(a.alive(&c.id, now));
    assert!(!a.alive(&c.id, now + secs(5)));
    assert!(a
        .authenticate(&c.cookie.expose(), &c.csrf.expose(), now + secs(5))
        .is_err());
    a.revoke(&c.id);
    assert!(a.expired(now));
    assert!(!a.alive(&c.id, now));
    assert!(a
        .authenticate(&c.cookie.expose(), &c.csrf.expose(), now)
        .is_err());
    assert!(a.exchange(&b.expose(), now).is_err());
}

#[test]
fn secret_parser_and_debug_never_expose_secrets() {
    for bad in [
        "한글".repeat(32),
        "g".repeat(64),
        "a".repeat(63),
        "A".repeat(64),
        "1".repeat(65),
    ] {
        assert!(Secret::parse(&bad).is_none());
    }
    let s = Secret::generate().unwrap();
    assert!(s.matches(&Secret::parse(&s.expose()).unwrap()));
    assert!(!format!("{:?}", AuthError::Unauthorized).contains(&s.expose()));
    assert!(!AuthError::Unauthorized.message().contains(&s.expose()));
}

#[test]
fn lifetime_bounds_are_checked() {
    let now = start();
    for (boot, session) in [(0, 10), (10, 0), (601, 10), (10, 86401)] {
        assert!(matches!(
            Auth::new(now, secs(boot), secs(session)),
            Err(AuthError::InvalidLifetime)
        ));
    }
}

#[test]
fn lifetimes_at_the_bounds_are_accepted() {
    let now = start();
    assert!(Auth::new(now, secs(600), secs(86400)).is_ok());
    assert!(Auth::new(now, 1, 1).is_ok());
}

#[test]
fn exposed_text_is_lower_hex_and_parses_back() {
    let s = Secret::generate().unwrap();
    let text = s.expose();
    assert_eq!(text.len(), 64);
    assert!(text.bytes().all(|b| b.is_ascii_digit() || (b'a'..=b'f').contains(&b)));
    let again = Secret::parse(&text).unwrap();
    assert_eq!(again.expose(), text);
    let fixed = Secret::parse(&"0f".repeat(32)).unwrap();
    assert_eq!(fixed.expose(), "0f".repeat(32));
    assert!(!fixed.matches(&Secret::parse(&"f0".repeat(32)).unwrap()));
}

#[test]
fn public_ids_are_independent_hex_text() {
    let a = public_id().unwrap();
    let b = public_id().unwrap();
    assert_eq!(a.len(), 64);
    assert_ne!(a, b);
}

#[test]
fn wrong_bootstrap_token_leaves_the_bootstrap_usable() {
    let now = start();
    let (mut a, b) = Auth::new(now, secs(2), secs(5)).unwrap();
    assert_eq!(a.exchange(&"1".repeat(64), now).err(), Some(AuthError::Unauthorized));
    assert!(a.exchange(&b.expose(), now + secs(1)).is_ok());
}

#[test]
fn revoking_another_session_keeps_the_current_one() {
    let now = start();
    let (mut a, b) = Auth::new(now, secs(2), secs(5)).unwrap();
    let c = a.exchange(&b.expose(), now).unwrap();
    let (mut other, ob) = Auth::new(now, secs(2), secs(5)).unwrap();
    let d = other.exchange(&ob.expose(), now).unwrap();
    a.revoke(&d.id);
    assert!(a.alive(&c.id, now));
    assert_eq!(c.id.as_str().len(), 64);
}

#[test]
fn a_parsed_secret_exposes_its_own_text() {
    let text = "0123456789abcdef".repeat(4);
    assert_eq!(Secret::parse(&text).unwrap().expose(), text);
    assert!(Secret::parse(&text.to_uppercase()).is_none());
}
