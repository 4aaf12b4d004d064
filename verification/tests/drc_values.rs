use floe_web::drc::{
    cap, cursor, index, refs, registered_source, review_title, short, token, CursorDto, OpenContext,
    ReviewContext,
};
use floe_web::wire::number;

#[test]
fn numbers_are_canonical_and_bounded() {
    assert_eq!(number("0"), Ok(0));
    assert_eq!(number("18446744073709551615"), Ok(u64::MAX));
    for bad in ["", "00", "01", "-1", "+1", "18446744073709551616", "1 ", "１"] {
        assert_eq!(number(bad), Err("invalid_drc_request"), "{bad}");
    }
    assert_eq!(number(&"0".repeat(21)), Err("invalid_drc_request"));
    assert_eq!(index("7"), Ok(7));
    assert_eq!(cap(64, 64), Ok(64));
    assert_eq!(cap(0, 64), Err("invalid_drc_request"));
    assert_eq!(cap(65, 64), Err("invalid_drc_request"));
    let c = CursorDto {
        check: "3".into(),
        error: "9007199254740993".into(),
    };
    assert_eq!(cursor(&c), Ok((3, 9007199254740993)));
}

#[test]
fn names_are_shortened_to_256_characters() {
    let (s, cut) = short(&"한".repeat(300));
    assert_eq!(s.chars().count(), 256);
    assert!(cut);
    let (s, cut) = short("width rule");
    assert_eq!(s, "width rule");
    assert!(!cut);
    let (s, cut) = short(&"x".repeat(256));
    assert_eq!(s.len(), 256);
    assert!(!cut);
}

#[test]
fn review_identities_are_lower_hex() {
    let id = "0123456789abcdef".repeat(4);
    assert!(token(&id));
    assert!(!token(&id.to_uppercase()));
    assert!(!token(&id[..63]));
    let c = ReviewContext {
        drc_id: id.clone(),
        revision: id.clone(),
        view_id: id.clone(),
    };
    assert_eq!(c.validate(), Ok(()));
    let bad = ReviewContext {
        view_id: "g".repeat(64),
        ..c.clone()
    };
    assert_eq!(bad.validate(), Err("invalid_drc_request"));
    let open = OpenContext {
        view_id: id.clone(),
        drc_id: Some(id.clone()),
        revision: None,
    };
    assert_eq!(open.validate(), Err("invalid_drc_request"));
    let open = OpenContext {
        view_id: id.clone(),
        drc_id: Some(id.clone()),
        revision: Some(id),
    };
    assert_eq!(open.validate(), Ok(()));
}

fn c(check: &str, error: &str) -> CursorDto {
    CursorDto { check: check.into(), error: error.into() }
}

#[test]
fn review_edits_name_a_bounded_list_of_positions() {
    assert_eq!(cursor(&c("2", "18446744073709551615")), Ok((2, u64::MAX)));
    assert_eq!(cursor(&c("02", "1")), Err("invalid_drc_request"));
    assert_eq!(refs(&vec![c("0", "5"), c("3", "0")], 2), Ok(vec![(0, 5), (3, 0)]));
    assert_eq!(refs(&vec![], 2), Err("drc_read_limit"));
    assert_eq!(refs(&vec![c("0", "5"); 3], 2), Err("drc_read_limit"));
    assert_eq!(refs(&vec![c("0", "5"), c("x", "0")], 2), Err("invalid_drc_request"));
}

#[test]
fn registered_sources_and_titles_are_bounded() {
    assert_eq!(registered_source(""), Err("invalid registered DRC source"));
    assert_eq!(registered_source("s"), Ok(()));
    assert_eq!(registered_source(&"s".repeat(128)), Ok(()));
    assert_eq!(registered_source(&"s".repeat(129)), Err("invalid registered DRC source"));
    assert_eq!(registered_source(&"é".repeat(65)), Err("invalid registered DRC source"));
    assert_eq!(review_title(None), "DRC");
    assert_eq!(review_title(Some("chip.lyrdb")), "chip.lyrdb");
    assert_eq!(review_title(Some(&"ü".repeat(300))), "ü".repeat(256));
}
