use floe_web::drc::{CursorDto, StepCursorDto};
use floe_web::drc_request::{Command, Edit, Request, SelectMode};

const SELECTION_INPUT: usize = 4096;

fn s(v: &str) -> String {
    v.to_string()
}

fn cursor(check: &str, error: &str) -> CursorDto {
    CursorDto {
        check: s(check),
        error: s(error),
    }
}

fn rules() -> Request {
    Request::Rules {
        start: s("0"),
        search: s("WIDTH Rule"),
        limit: 64,
        metric: None,
        waived: None,
    }
}

#[test]
fn rules_listing_lowercases_search_and_bounds_page() {
    match rules().decode(SELECTION_INPUT).unwrap() {
        Command::Rules {
            start,
            search,
            limit,
            metric,
            waived,
        } => {
            assert_eq!((start, limit), (0, 64));
            assert_eq!(search, "width rule");
            assert_eq!(metric, None);
            assert_eq!(waived, None);
        }
        _ => panic!("rules decode to a rules command"),
    }
    for limit in [0usize, 65] {
        let r = Request::Rules {
            start: s("0"),
            search: s(""),
            limit,
            metric: None,
            waived: None,
        };
        assert_eq!(r.decode(SELECTION_INPUT).unwrap_err(), "invalid_drc_request");
    }
    let r = Request::Rules {
        start: s("0"),
        search: "x".repeat(257),
        limit: 1,
        metric: None,
        waived: None,
    };
    assert!(r.decode(SELECTION_INPUT).is_err());
    for metric in [String::new(), "m".repeat(65)] {
        let r = Request::Rules {
            start: s("0"),
            search: s(""),
            limit: 1,
            metric: Some(metric),
            waived: None,
        };
        assert!(r.decode(SELECTION_INPUT).is_err());
    }
}

#[test]
fn counters_and_numbers_are_canonical() {
    for bad in ["01", "-1", "+1", "18446744073709551616", "", " 1"] {
        let r = Request::Errors {
            check: s("0"),
            start: s(bad),
            waived: None,
            limit: 1,
        };
        assert!(r.decode(SELECTION_INPUT).is_err(), "{bad}");
    }
    let r = Request::Errors {
        check: s("3"),
        start: s("18446744073709551615"),
        waived: Some(true),
        limit: 64,
    };
    match r.decode(SELECTION_INPUT).unwrap() {
        Command::Errors {
            check,
            start,
            waived,
            limit,
        } => assert_eq!((check, start, waived, limit), (3, u64::MAX, Some(true), 64)),
        _ => panic!("errors decode to an errors command"),
    }
    let r = Request::Geometry {
        check: s("1"),
        error: s("2"),
        start: s("3"),
        limit: 2048,
    };
    assert!(r.decode(SELECTION_INPUT).is_ok());
    let r = Request::Geometry {
        check: s("1"),
        error: s("2"),
        start: s("3"),
        limit: 2049,
    };
    assert!(r.decode(SELECTION_INPUT).is_err());
}

#[test]
fn steps_take_a_cursor_or_an_anchor_not_both() {
    let both = Request::Step {
        check: s("0"),
        backwards: false,
        after: Some(s("1")),
        cursor: Some(StepCursorDto {
            next: s("1"),
            remaining: s("2"),
        }),
        waived: None,
        bbox_um: None,
    };
    assert!(both.decode(SELECTION_INPUT).is_err());
    let cursor_and_revision = Request::FilteredStep {
        check: s("0"),
        backwards: true,
        after: None,
        cursor: Some(StepCursorDto {
            next: s("1"),
            remaining: s("2"),
        }),
        waived: None,
        in_view: false,
        selection_rev: Some(s("1")),
    };
    assert!(cursor_and_revision.decode(SELECTION_INPUT).is_err());
    let ok = Request::FilteredStep {
        check: s("4"),
        backwards: true,
        after: None,
        cursor: Some(StepCursorDto {
            next: s("1"),
            remaining: s("2"),
        }),
        waived: None,
        in_view: true,
        selection_rev: None,
    };
    match ok.decode(SELECTION_INPUT).unwrap() {
        Command::FilteredStep { request, filters } => {
            assert_eq!(request.check, 4);
            assert!(request.backwards);
            let c = request.cursor.unwrap();
            assert_eq!((c.next, c.remaining), (1, 2));
            assert!(filters.in_view);
            assert_eq!(filters.selection_rev, None);
        }
        _ => panic!("filtered step decodes to a filtered step"),
    }
}

#[test]
fn selection_filters_need_a_positive_revision() {
    let list = |rev: Option<&str>| Request::List {
        check: s("7"),
        start: s("0"),
        waived: None,
        limit: 10,
        in_view: false,
        selection_rev: rev.map(s),
    };
    assert_eq!(list(Some("3")).selection_filter(), Ok(Some((3, 7))));
    assert_eq!(list(None).selection_filter(), Ok(None));
    assert!(list(Some("0")).selection_filter().is_err());
    assert!(list(Some("0")).decode(SELECTION_INPUT).is_err());
    assert_eq!(rules().selection_filter(), Ok(None));
}

#[test]
fn records_and_queries_are_bounded() {
    let records = |n: usize| Request::Records {
        check: s("0"),
        errors: vec![s("1"); n],
    };
    assert!(records(SELECTION_INPUT).decode(SELECTION_INPUT).is_ok());
    assert!(records(SELECTION_INPUT + 1).decode(SELECTION_INPUT).is_err());
    let query = |checks: Vec<String>, coordinate: String| Request::Query {
        bbox_um: [s("0"), s("0"), coordinate, s("1")],
        checks: Some(checks),
        waived: None,
        cursor: cursor("0", "0"),
        limit: 1,
    };
    match query(vec![s("5"), s("2"), s("5")], s("1")).decode(SELECTION_INPUT).unwrap() {
        Command::Query { checks, .. } => assert_eq!(checks, Some(vec![2, 5])),
        _ => panic!("query decodes to a query"),
    }
    assert!(query(vec![s("0"); 129], s("1")).decode(SELECTION_INPUT).is_err());
    assert!(query(vec![s("0"); 128], s("1")).decode(SELECTION_INPUT).is_ok());
    assert!(query(vec![], "1".repeat(81)).decode(SELECTION_INPUT).is_err());
}

#[test]
fn guests_may_not_read_metrics_types_comparisons_or_isolate() {
    let metric = Request::Rules {
        start: s("0"),
        search: s(""),
        limit: 1,
        metric: Some(s("width")),
        waived: None,
    };
    assert!(metric.guest_forbidden());
    assert!(!rules().guest_forbidden());
    assert!(Request::Types {
        start: s("0"),
        limit: 1
    }
    .guest_forbidden());
    let focus = |isolate| Request::Focus {
        check: s("0"),
        error: s("0"),
        fit: true,
        isolate,
    };
    assert!(focus(true).guest_forbidden() && !focus(false).guest_forbidden());
    assert!(focus(false).needs_view());
    assert!(!rules().needs_view());
}

fn apply(check: &str, errors: Vec<&str>, bbox: Option<[&str; 4]>) -> Edit {
    Edit::Apply {
        check: check.into(),
        errors: errors.into_iter().map(Into::into).collect(),
        mode: SelectMode::Toggle,
        bbox_um: bbox.map(|b| b.map(Into::into)),
        waived: Some(true),
    }
}

#[test]
fn selection_edits_decode_rule_errors_and_box_text() {
    let p = apply("3", vec!["7", "18446744073709551615"], Some(["0", "0", "1", "1"])).prepare(64).unwrap();
    assert_eq!(p.check, Some(3));
    assert!(p.needs_view());
    assert_eq!(p.mode, SelectMode::Toggle);
    assert_eq!(p.errors, vec![7, u64::MAX]);
    assert_eq!(p.bbox_um.map(|b| b[2].clone()), Some("1".to_string()));
    assert_eq!(p.waived, Some(true));
    let clear = Edit::ClearAll {}.prepare(0).unwrap();
    assert_eq!((clear.check, clear.mode, clear.errors.len()), (None, SelectMode::Replace, 0));
    assert!(!clear.needs_view());
    for bad in [
        apply("00", vec![], None),
        apply("0", vec!["-1"], None),
        apply("0", vec!["0"; 65], None),
        apply("0", vec![], Some(["0", &"1".repeat(81), "1", "1"])),
    ] {
        assert_eq!(bad.prepare(64).err(), Some("invalid_drc_request"));
    }
    assert!(apply("0", vec!["0"; 64], None).prepare(64).is_ok());
}

fn step(after: Option<&str>, cursor: Option<(&str, &str)>) -> Request {
    Request::Step {
        check: s("0"),
        backwards: false,
        after: after.map(s),
        cursor: cursor.map(|(n, r)| StepCursorDto { next: s(n), remaining: s(r) }),
        waived: None,
        bbox_um: None,
    }
}

#[test]
fn wire_rejects_paths_noncanonical_counters_and_unbounded_reads() {
    let bad = vec![
        Request::Rules { start: s("00"), search: s(""), limit: 1, metric: None, waived: None },
        Request::Rules { start: s("0"), search: s(""), limit: 65, metric: None, waived: None },
        Request::Rules { start: s("0"), search: "x".repeat(257), limit: 1, metric: None, waived: None },
        Request::Geometry { check: s("0"), error: s("0"), start: s("0"), limit: 2049 },
        Request::Errors { check: s("0"), start: s("-1"), waived: None, limit: 1 },
        step(Some("00"), None),
        step(Some("0"), Some(("1", "2"))),
        step(None, Some(("0", "-1"))),
        Request::Measurements { check: s("00"), error: s("0") },
        Request::Measurements { check: s("0"), error: s("-1") },
    ];
    for r in bad {
        assert!(r.decode(SELECTION_INPUT).is_err());
    }
    assert!(rules().decode(SELECTION_INPUT).is_ok());
    let r = Request::Errors {
        check: s("0"),
        start: s("18446744073709551615"),
        waived: Some(true),
        limit: 1,
    };
    assert!(r.decode(SELECTION_INPUT).is_ok());
}

#[test]
fn every_printed_counter_reads_back() {
    for n in [0u64, 1, 9, 10, 99, 100, 12345, u64::MAX - 1, u64::MAX] {
        assert_eq!(floe_web::wire::number(&n.to_string()), Ok(n));
    }
    for bad in ["00", "01", "-1", " 1", "1 ", "", "18446744073709551616"] {
        assert_eq!(floe_web::wire::number(bad), Err("invalid_drc_request"));
    }
}
