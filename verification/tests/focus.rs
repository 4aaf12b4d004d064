use floe_web::focus::{isolate, select, FocusError};
use floe_web::layer_catalog::Pair;
use floe_web::scoped::Layers;
use std::sync::atomic::{AtomicUsize, Ordering};

fn styles(count: u32) -> Vec<Pair> {
    (0..count).map(|d| (7, d)).collect()
}

fn only(l: &Option<Layers>) -> Option<Vec<Pair>> {
    match l {
        Some(Layers::Only(p)) => Some(p.clone()),
        _ => None,
    }
}

#[test]
fn matching_uses_full_catalog_and_never_conflates_deck_ids_with_gds() {
    let stop = AtomicUsize::new(0);
    let styles = styles(300);
    let r = vec![(7, Some(299)), (9, None), (7, Some(299))];
    let (layers, status, count) = select(Some(&r), &styles, false, &stop).unwrap();
    assert_eq!((only(&layers), status, count), (Some(vec![(7, 299)]), "ready", 1));
    let (layers, status, count) = select(Some(&r), &styles, true, &stop).unwrap();
    assert_eq!((layers.is_none(), status, count), (true, "unsupported_deck", 0));
    assert_eq!(select(None, &styles, false, &stop).unwrap().1, "no_rule");
    assert_eq!(select(Some(&vec![]), &styles, false, &stop).unwrap().1, "no_source_layers");
    assert_eq!(select(Some(&vec![(8, None)]), &styles, false, &stop).unwrap().1, "no_match");
    let (layers, status, count) = select(Some(&vec![(7, None)]), &styles, false, &stop).unwrap();
    assert!(matches!(layers, Some(Layers::All)));
    assert_eq!((status, count), ("ready", 300));
    stop.store(1, Ordering::Relaxed);
    assert_eq!(select(Some(&r), &styles, false, &stop).unwrap_err(), FocusError::Cancelled);
}

#[test]
fn large_selection_is_bounded_and_errors_never_become_a_partial_isolate() {
    let stop = AtomicUsize::new(0);
    let mut styles = styles(5000);
    let r = vec![(7, None)];
    assert!(matches!(select(Some(&r), &styles, false, &stop).unwrap().0, Some(Layers::All)));
    styles.push((8, 0));
    assert_eq!(select(Some(&r), &styles, false, &stop).unwrap_err(), FocusError::Incomplete);
    let r: Vec<(u32, Option<u32>)> = (0..4096).map(|d| (7, Some(d))).collect();
    let (layers, _, count) = select(Some(&r), &styles, false, &stop).unwrap();
    let pairs = only(&layers).expect("expected explicit visibility");
    assert_eq!(count, 4096);
    assert_eq!(pairs.len(), count);
}

#[test]
fn isolation_without_a_flag_answers_the_isolation_itself() {
    let styles = styles(10);
    let r = vec![(7, Some(3)), (7, Some(1))];
    let (layers, status, count) = isolate(Some(&r), &styles, false).unwrap();
    assert_eq!((only(&layers), status, count), (Some(vec![(7, 1), (7, 3)]), "ready", 2));
    let (layers, status, count) = isolate(Some(&r), &styles, true).unwrap();
    assert_eq!((layers.is_none(), status, count), (true, "unsupported_deck", 0));
    assert_eq!(isolate(None, &styles, false).unwrap().1, "no_rule");
    assert!(matches!(isolate(Some(&vec![(7, None)]), &styles, false).unwrap().0, Some(Layers::All)));
    let mut many = self::styles(5000);
    many.push((8, 0));
    assert_eq!(isolate(Some(&vec![(7, None)]), &many, false).unwrap_err(), FocusError::Incomplete);
}
