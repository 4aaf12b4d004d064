use floe_web::drc::ReviewContext;
use floe_web::transfer::{Action, Request, CHUNK, MAX_BYTES};

fn request(action: Action) -> Request {
    Request {
        seq: "1".into(),
        context: ReviewContext { drc_id: "a".repeat(64), revision: "b".repeat(64), view_id: "c".repeat(64) },
        action,
        bytes: None,
        token: None,
    }
}

fn valid(r: &Request, payload: Option<(u64, usize)>) -> bool {
    r.validate(payload).is_ok()
}

#[test]
fn transfers_announce_sizes_and_limit_each_upload_chunk() {
    assert!(valid(&request(Action::Export), None));
    for (bytes, expected) in [
        ("0".to_string(), false),
        ("01".to_string(), false),
        ("1".to_string(), true),
        (MAX_BYTES.to_string(), true),
        ((MAX_BYTES + 1).to_string(), false),
        ("한글".to_string(), false),
    ] {
        let mut r = request(Action::Import);
        r.bytes = Some(bytes);
        assert_eq!(valid(&r, None), expected);
    }
    let mut r = request(Action::Chunk);
    r.token = Some("d".repeat(64));
    assert!(!valid(&r, None));
    for (len, expected) in [(0, false), (1, true), (CHUNK, true), (CHUNK + 1, false)] {
        assert_eq!(valid(&r, Some((0, len))), expected);
    }
    r.action = Action::Prepare;
    assert!(valid(&r, None));
    r.token = Some("한".repeat(64));
    assert!(!valid(&r, None));
}

#[test]
fn transfer_refusals_name_their_reason() {
    let mut r = request(Action::Import);
    r.bytes = Some((MAX_BYTES + 1).to_string());
    assert_eq!(r.validate(None), Err("drc_read_limit"));
    r.bytes = Some("0".into());
    assert_eq!(r.validate(None), Err("drc_read_limit"));
    r.seq = "0".into();
    assert_eq!(r.validate(None), Err("invalid_request"));
    r.context.view_id = "C".repeat(64);
    assert_eq!(r.validate(None), Err("invalid_drc_request"));
    let mut e = request(Action::Export);
    e.token = Some("d".repeat(64));
    assert_eq!(e.validate(None), Err("invalid_drc_request"));
    assert_eq!(request(Action::Export).validate(Some((0, 1))), Err("invalid_drc_request"));
}
