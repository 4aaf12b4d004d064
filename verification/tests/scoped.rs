use floe_web::layer_catalog::{Fold, LayerCatalog, Pair, Row};
use floe_web::scoped::{Layers, Projection, ScopedPage, ScopedRow, Visibility};

fn catalog(pairs: &[Pair], physical: bool) -> LayerCatalog {
    LayerCatalog::new(
        pairs
            .iter()
            .map(|&pair| Row {
                pair,
                name: format!("{}/{}", pair.0, pair.1),
                aliases: vec![],
                head: !physical && pair.1 == 0,
                parent: None,
                style: None,
                fallback: "#ffffff".into(),
            })
            .collect(),
        physical,
    )
}

fn only(v: &Layers) -> Vec<Pair> {
    match v {
        Layers::Only(p) => p.clone(),
        _ => panic!("expected an explicit selection"),
    }
}

#[test]
fn physical_filter_precedes_grouping_pagination_and_guessed_changes() {
    let c = catalog(&[(3, 0), (3, 1), (3, 2), (8, 0)], true);
    let scope = Layers::Only(vec![(3, 1), (3, 2)]);
    let p = Projection::new(&c, &scope, &vec![(3, 0), (3, 1), (3, 2), (8, 0)], &vec![]);
    assert_eq!(p.indices(), &vec![1, 2]);
    assert!(p.group((3, 1)).is_some());
    assert!(p.group((3, 0)).is_none());
    let closed = p
        .closed(Fold {
            closed: true,
            exceptions: vec![],
        })
        .unwrap();
    assert_eq!(p.positions(&closed), vec![0]);
    assert_eq!(p.targets((3, 1), true).unwrap(), vec![(3, 1), (3, 2)]);
    assert_eq!(p.targets((3, 1), false).unwrap(), vec![(3, 1)]);
    assert!(p.targets((3, 0), false).is_err());
    assert!(p
        .closed(Fold {
            closed: false,
            exceptions: vec![(3, 0)]
        })
        .is_err());
    let changed = p
        .change(
            &Layers::Empty,
            Visibility {
                pair: (3, 1),
                group: true,
                visible: true,
            },
        )
        .unwrap();
    assert_eq!(only(&changed), only(&scope));
}

#[test]
fn partial_deck_heads_only_target_authorized_children_including_hidden() {
    let c = catalog(&[(1, 0), (1, 1), (1, 2), (2, 0), (2, 1)], false);
    let group = vec![(1, 1), (1, 2), (1, 3)]; // third child hidden from the palette
    let scope = Layers::Only(vec![(1, 2), (1, 3)]);
    let members = vec![((1, 0), group.clone())];
    let mut actual = group.clone();
    actual.push((2, 1));
    let p = Projection::new(&c, &scope, &actual, &members);
    assert_eq!(p.indices(), &vec![0, 2]);
    assert_eq!(p.targets((1, 0), false).unwrap(), vec![(1, 2), (1, 3)]);
    assert!(p.targets((1, 1), false).is_err());
    let changed = p
        .change(
            &Layers::Empty,
            Visibility {
                pair: (1, 0),
                group: true,
                visible: true,
            },
        )
        .unwrap();
    assert_eq!(only(&changed), only(&scope));
    let level = catalog(&[(1, 0), (2, 0)], false);
    let p = Projection::new(&level, &scope, &group, &members);
    assert_eq!(p.indices(), &vec![0]);
    assert_eq!(p.group((1, 0)).unwrap().end, 1);
    assert_eq!(p.targets((1, 0), false).unwrap(), vec![(1, 2), (1, 3)]);
}

#[test]
fn empty_scope_and_large_selection_fail_without_widening() {
    let pairs: Vec<Pair> = (0..5000).map(|n| (7, n)).collect();
    let c = catalog(&pairs, true);
    let p = Projection::new(&c, &Layers::All, &pairs, &vec![]);
    let all = p
        .change(
            &Layers::Empty,
            Visibility {
                pair: (7, 0),
                group: true,
                visible: true,
            },
        )
        .unwrap();
    assert!(matches!(all, Layers::All));
    assert_eq!(
        p.change(
            &Layers::All,
            Visibility {
                pair: (7, 0),
                group: false,
                visible: false
            }
        )
        .unwrap_err(),
        "layer_selection_too_large"
    );
    let p = Projection::new(&c, &Layers::Empty, &pairs, &vec![]);
    assert!(p.indices().is_empty());
    assert!(p.targets((7, 0), true).is_err());
}

#[test]
fn a_selection_outside_the_scope_is_refused_and_hiding_everything_is_empty() {
    let c = catalog(&[(3, 0), (3, 1)], true);
    let scope = Layers::Only(vec![(3, 1)]);
    let p = Projection::new(&c, &scope, &vec![(3, 0), (3, 1)], &vec![]);
    let show = |pair: Pair, visible: bool| Visibility {
        pair,
        group: false,
        visible,
    };
    assert_eq!(
        p.change(&Layers::Only(vec![(3, 0)]), show((3, 1), true)).unwrap_err(),
        "forbidden"
    );
    assert_eq!(p.change(&Layers::All, show((3, 1), true)).unwrap_err(), "forbidden");
    let hidden = p.change(&Layers::Only(vec![(3, 1)]), show((3, 1), false)).unwrap();
    assert!(matches!(hidden, Layers::Empty));
    let shown = p.change(&Layers::Empty, show((3, 1), true)).unwrap();
    assert_eq!(only(&shown), vec![(3, 1)]);
}

#[test]
fn folded_groups_hide_their_children_and_exceptions_reopen_them() {
    let c = catalog(&[(1, 0), (1, 1), (1, 2), (2, 0), (2, 1)], true);
    let actual = vec![(1, 0), (1, 1), (1, 2), (2, 0), (2, 1)];
    let p = Projection::new(&c, &Layers::All, &actual, &vec![]);
    assert_eq!(p.indices(), &vec![0, 1, 2, 3, 4]);
    let all_closed = p
        .closed(Fold {
            closed: true,
            exceptions: vec![],
        })
        .unwrap();
    assert_eq!(p.positions(&all_closed), vec![0, 3]);
    let one_open = p
        .closed(Fold {
            closed: true,
            exceptions: vec![(2, 0)],
        })
        .unwrap();
    assert_eq!(p.positions(&one_open), vec![0, 3, 4]);
    assert!(p
        .closed(Fold {
            closed: true,
            exceptions: vec![(2, 0), (2, 0)],
        })
        .is_err());
}

#[test]
fn guest_page_flags_describe_approved_members_only() {
    // A deck head (1, 0) over three planes, of which the scope allows two.
    let c = catalog(&[(1, 0), (1, 1), (1, 2), (1, 3), (2, 0)], false);
    let scope = Layers::Only(vec![(1, 1), (1, 2)]);
    let members = vec![((1, 0), vec![(1, 1), (1, 2), (1, 3)]), ((2, 0), vec![(2, 5)])];
    let p = Projection::new(&c, &scope, &vec![(1, 1), (1, 2), (1, 3), (2, 5)], &members);
    assert_eq!(p.indices(), &vec![0, 1, 2]);
    let shown = Layers::Only(vec![(1, 2)]);
    let open = p
        .page(&shown, ScopedPage { start: 0, fold: Fold { closed: false, exceptions: vec![] } })
        .unwrap();
    assert_eq!((open.total, open.all_total, open.start, open.next), (3, 3, 0, None));
    assert_eq!(
        open.rows[0],
        ScopedRow {
            row: 0,
            pair: (1, 0),
            parent: None,
            head: true,
            synthetic: true,
            children: 2,
            closed: false,
            visible: true,
            all_visible: false,
            mixed: true,
        }
    );
    assert_eq!(
        open.rows[2],
        ScopedRow {
            row: 2,
            pair: (1, 2),
            parent: Some((1, 0)),
            head: false,
            synthetic: false,
            children: 0,
            closed: false,
            visible: true,
            all_visible: false,
            mixed: false,
        }
    );
    assert!(!open.rows[1].visible);
    let folded = p
        .page(&Layers::All, ScopedPage { start: 0, fold: Fold { closed: true, exceptions: vec![] } })
        .unwrap();
    assert_eq!(folded.total, 1);
    assert!(folded.rows[0].closed && folded.rows[0].all_visible && !folded.rows[0].mixed);
    assert_eq!(
        p.page(&Layers::All, ScopedPage { start: 2, fold: Fold { closed: true, exceptions: vec![] } })
            .err(),
        Some("invalid_palette")
    );
    assert_eq!(
        p.page(&Layers::All, ScopedPage { start: 0, fold: Fold { closed: false, exceptions: vec![(2, 0)] } })
            .err(),
        Some("invalid_palette")
    );
}
