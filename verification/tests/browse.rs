use floe_web::browse::{query_acceptable, Request};
use floe_web::drc::OpenContext;

const ROWS: usize = 64;

fn id(c: char) -> String {
    c.to_string().repeat(64)
}

fn list(directory: String, query: &str) -> Request<()> {
    Request::List { seq: "1".into(), directory, filter: (), query: query.into() }
}

fn context(drc: bool) -> OpenContext {
    OpenContext {
        view_id: id('a'),
        drc_id: drc.then(|| id('b')),
        revision: drc.then(|| id('c')),
    }
}

#[test]
fn listings_take_handles_and_bounded_name_fragments() {
    assert_eq!(list(id('d'), "").validate(ROWS), Ok(()));
    assert_eq!(list(id('d'), "mask 字").validate(ROWS), Ok(()));
    for bad in ["../", "a/b", "nul\0", "tab\t", "\u{85}", &"x".repeat(129)] {
        assert_eq!(list(id('d'), bad).validate(ROWS), Err("invalid_request"), "{bad:?}");
    }
    assert!(query_acceptable(&"x".repeat(128)));
    assert!(!query_acceptable(&"字".repeat(43)));
    assert_eq!(list("/etc".into(), "").validate(ROWS), Err("invalid_request"));
    assert_eq!(list(id('D'), "").validate(ROWS), Err("invalid_request"));
}

#[test]
fn pages_start_on_a_boundary_below_the_limit() {
    let page = |start| Request::<()>::Page { seq: "2".into(), snapshot: id('e'), start };
    assert_eq!(page(0).validate(ROWS), Ok(()));
    assert_eq!(page(ROWS * 3).validate(ROWS), Ok(()));
    assert_eq!(page(1).validate(ROWS), Err("invalid_request"));
    assert_eq!(page(100_032).validate(ROWS), Err("invalid_request"));
    assert_eq!(page(99_968).validate(ROWS), Ok(()));
}

#[test]
fn drc_requests_need_valid_contexts_and_reconnection_needs_approval() {
    let open = |drc| Request::<()>::OpenDrc { seq: "3".into(), handle: id('f'), context: context(drc) };
    assert_eq!(open(false).validate(ROWS), Ok(()));
    assert_eq!(open(true).validate(ROWS), Ok(()));
    let mut half = context(true);
    half.revision = None;
    assert_eq!(
        Request::<()>::OpenDrc { seq: "3".into(), handle: id('f'), context: half }.validate(ROWS),
        Err("invalid_drc_request")
    );
    let rules = |drc| Request::<()>::LoadDrcRules { seq: "4".into(), handle: id('f'), context: context(drc) };
    assert_eq!(rules(true).validate(ROWS), Ok(()));
    assert_eq!(rules(false).validate(ROWS), Err("invalid_request"));
    let reconnect = |approve, drc| Request::<()>::ReconnectDrcReview { seq: "5".into(), context: context(drc), approve };
    assert_eq!(reconnect(true, true).validate(ROWS), Ok(()));
    assert_eq!(reconnect(false, true).validate(ROWS), Err("invalid_request"));
    assert_eq!(reconnect(true, false).validate(ROWS), Err("invalid_request"));
    let select = Request::<()>::Select { seq: "6".into(), handle: "short".into() };
    assert_eq!(select.validate(ROWS), Err("invalid_request"));
    assert_eq!(select.identity(), ("6", "select"));
    assert_eq!(reconnect(true, true).identity().1, "reconnect_drc_review");
}
