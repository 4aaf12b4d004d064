use floe_web::origin::{cookie, single, Origin};

fn values(v: &[&str]) -> Vec<Option<String>> {
    v.iter().map(|s| Some(s.to_string())).collect()
}

#[test]
fn literal_authority_and_origin_cannot_be_rebound_or_forwarded() {
    // (loopback, port) of 0.0.0.0:9000, 192.0.2.1:9000 and 127.0.0.1:0.
    for (loopback, port, text) in [
        (false, 9000u16, "0.0.0.0:9000"),
        (false, 9000, "192.0.2.1:9000"),
        (true, 0, "127.0.0.1:0"),
    ] {
        assert!(Origin::for_listener(loopback, port, text).is_err());
    }
    for addr in ["127.0.0.1:9000", "[::1]:9000"] {
        let o = Origin::for_listener(true, 9000, addr).unwrap();
        let mut host = values(&[addr]);
        let mut origin = values(&[o.url()]);
        assert!(o.host_matches(&host) && o.origin_matches(&origin, true));
        for bad in [
            "http://evil.example",
            "null",
            "http://127.0.0.1:9001",
            "http://localhost:9000",
        ] {
            origin = values(&[bad]);
            assert!(!o.origin_matches(&origin, true));
        }
        origin.clear();
        assert!(!o.origin_matches(&origin, true) && o.origin_matches(&origin, false));
        host = values(&["evil.example"]);
        assert!(!o.host_matches(&host));
        host = values(&[addr, addr]);
        assert!(!o.host_matches(&host));
    }
}

#[test]
fn url_is_the_http_authority() {
    let o = Origin::for_listener(true, 9000, "127.0.0.1:9000").unwrap();
    assert_eq!(o.url(), "http://127.0.0.1:9000");
    assert_eq!(o.authority(), "127.0.0.1:9000");
    assert_eq!(
        Origin::for_listener(true, 0, "127.0.0.1:0").unwrap_err(),
        "gateway requires a bound loopback listener"
    );
}

#[test]
fn a_header_without_text_or_repeated_has_no_single_value() {
    assert_eq!(single(&vec![]), None);
    assert_eq!(single(&vec![None]), None);
    assert_eq!(single(&values(&["a", "b"])).map(|s| s.as_str()), None);
    assert_eq!(single(&values(&["a"])).map(|s| s.as_str()), Some("a"));
    let o = Origin::for_listener(true, 9000, "127.0.0.1:9000").unwrap();
    assert!(!o.host_matches(&vec![None]));
    assert!(!o.origin_matches(&vec![None], false));
}

#[test]
fn cookies_are_exact_and_duplicates_fail() {
    let mut h = values(&["other=abc; floe=def"]);
    assert_eq!(cookie(&h, "floe").as_deref(), Some("def"));
    assert_eq!(cookie(&h, "flo"), None);
    h.push(Some("floe=ghi".to_string()));
    assert_eq!(cookie(&h, "floe"), None);
}

#[test]
fn cookie_items_need_a_value_and_a_text_form() {
    assert_eq!(cookie(&values(&[" floe = def ;x=1"]), "floe "), Some(" def".to_string()));
    assert_eq!(cookie(&values(&["floe=a=b"]), "floe").as_deref(), Some("a=b"));
    assert_eq!(cookie(&values(&["floe=def; junk"]), "floe"), None);
    assert_eq!(cookie(&values(&["floe=def;"]), "floe"), None);
    assert_eq!(cookie(&values(&["floe="]), "floe").as_deref(), Some(""));
    assert_eq!(cookie(&vec![Some("floe=1".into()), None], "floe"), None);
    assert_eq!(cookie(&vec![], "floe"), None);
    assert_eq!(cookie(&values(&["\u{a0}floe=v\u{3000}"]), "floe").as_deref(), Some("v"));
}
