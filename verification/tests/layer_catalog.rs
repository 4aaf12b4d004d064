use floe_web::layer_catalog::{
    label, Closed, Fold, LayerCatalog, PaletteRead, PaletteReply, Pair, Row, RowDisplay, SELECTION_LIMIT,
};
use floe_web::scoped::Layers;

fn catalogue(pairs: Vec<Pair>, physical: bool) -> LayerCatalog {
    LayerCatalog::new(
        pairs
            .into_iter()
            .map(|pair| Row {
                pair,
                name: format!("{}/{}", pair.0, pair.1),
                aliases: vec![],
                head: !physical && pair.1 == 0,
                parent: None,
                style: None,
                fallback: "#ffffff".into(),
            })
            .collect(),
        physical,
    )
}
fn fold(c: &LayerCatalog, closed: bool, exceptions: Vec<Pair>) -> Closed {
    c.closed(Fold { closed, exceptions }).unwrap()
}
fn pairs(c: &LayerCatalog, indices: Vec<usize>) -> Vec<Pair> {
    c.pairs(&indices)
}

#[test]
fn physical_head_is_lowest_datatype_and_does_not_inherit_jobdeck_visibility() {
    let c = catalogue(vec![(9, 0), (3, 300), (3, 2), (3, 1)], true);
    assert_eq!(c.groups(), &vec![((3, 1), 3)]);
    assert_eq!(c.rows()[1].parent, Some((3, 1)));
    assert_eq!(c.rows()[2].parent, Some((3, 1)));
    assert!(
        !c.rows()[0].head,
        "physical groups are not synthetic render heads"
    );
    assert_eq!(
        pairs(&c, c.page_indices(0, &fold(&c, true, vec![])).unwrap().1),
        vec![(3, 1), (9, 0)]
    );
    assert_eq!(
        c.page_indices(0, &fold(&c, true, vec![(3, 1)])).unwrap().0,
        4
    );
    assert_eq!(
        c.page_indices(0, &fold(&c, false, vec![(3, 1)])).unwrap().0,
        2
    );
}

#[test]
fn closed_groups_are_removed_before_pagination_not_after_it() {
    let c = catalogue(
        (0..150)
            .flat_map(|l| (1..=3).map(move |d| (l, d)))
            .collect(),
        true,
    );
    let closed = fold(&c, true, vec![]);
    for (start, count) in [(0, 64), (64, 64), (128, 22), (150, 0)] {
        let (total, page) = c.page_indices(start, &closed).unwrap();
        assert_eq!(total, 150);
        assert_eq!(page.len(), count);
        assert_eq!(
            pairs(&c, page),
            (start as u32..(start + count) as u32)
                .map(|l| (l, 1))
                .collect::<Vec<_>>()
        );
    }
    assert_eq!(c.page_indices(151, &closed).unwrap_err(), "invalid_palette");
    assert_eq!(
        c.page_indices(usize::MAX, &closed).unwrap_err(),
        "invalid_palette"
    );
    let open = fold(&c, false, vec![]);
    assert_eq!(c.page_indices(64, &open).unwrap().0, 450);
    assert_eq!(pairs(&c, c.page_indices(64, &open).unwrap().1)[0], (21, 2));
    let mixed = fold(&c, true, vec![(0, 1), (149, 1)]);
    assert_eq!(c.page_indices(0, &mixed).unwrap().0, 154);
    assert_eq!(
        pairs(&c, c.page_indices(150, &mixed).unwrap().1),
        vec![(148, 1), (149, 1), (149, 2), (149, 3)]
    );
}

#[test]
fn selection_range_crosses_pages_in_either_direction_and_skips_closed_children() {
    let c = catalogue(
        (0..70).flat_map(|l| (0..3).map(move |d| (l, d))).collect(),
        true,
    );
    let open = fold(&c, false, vec![]);
    let expected: Vec<_> = (0..70)
        .flat_map(|l| (0..3).map(move |d| (l, d)))
        .filter(|p| *p >= (2, 1) && *p <= (65, 2))
        .collect();
    for (a, b) in [((2, 1), (65, 2)), ((65, 2), (2, 1))] {
        assert_eq!(pairs(&c, c.range_indices(a, b, &open).unwrap()), expected);
    }
    let closed = fold(&c, true, vec![(2, 0), (65, 0)]);
    let expected = std::iter::once((2, 1))
        .chain(std::iter::once((2, 2)))
        .chain((3..=65).map(|l| (l, 0)))
        .chain([(65, 1), (65, 2)])
        .collect::<Vec<_>>();
    assert_eq!(
        pairs(&c, c.range_indices((65, 2), (2, 1), &closed).unwrap()),
        expected
    );
    assert_eq!(
        c.range_indices((3, 1), (65, 2), &closed).unwrap_err(),
        "palette_anchor_hidden"
    );
    assert_eq!(
        c.range_indices((99, 0), (65, 2), &closed).unwrap_err(),
        "invalid_palette"
    );
    assert_eq!(
        pairs(&c, c.range_indices((3, 0), (3, 0), &closed).unwrap()),
        vec![(3, 0)]
    );
}

#[test]
fn level_only_heads_cannot_expand_and_empty_catalogue_is_valid() {
    // Deck metadata filters jobdeck_hidden before constructing this list.
    let c = catalogue(vec![(1, 0), (2, 0)], false);
    assert!(c.groups().is_empty());
    assert!(c
        .closed(Fold {
            closed: false,
            exceptions: vec![(1, 0)]
        })
        .is_err());
    assert_eq!(c.page_indices(0, &fold(&c, true, vec![])).unwrap().0, 2);
    let chip = catalogue(vec![(1, 0), (1, 1), (1, 2), (2, 0)], false);
    assert!(chip.rows()[0].head);
    assert_eq!(chip.rows()[1].parent, Some((1, 0)));
    assert_eq!(
        chip.page_indices(0, &fold(&chip, true, vec![])).unwrap().0,
        2
    );
    let empty = catalogue(vec![], true);
    let closed = fold(&empty, true, vec![]);
    assert_eq!(empty.page_indices(0, &closed).unwrap(), (0, vec![]));
    assert_eq!(
        empty.page_indices(1, &closed).unwrap_err(),
        "invalid_palette"
    );
    assert_eq!(
        empty.range_indices((1, 0), (1, 0), &closed).unwrap_err(),
        "invalid_palette"
    );
}

#[test]
fn range_and_fold_limits_fail_atomically_but_huge_collapsed_groups_are_small() {
    let c = catalogue((0..100_000).map(|d| (7, d)).chain([(8, 0)]).collect(), true);
    let open = fold(&c, false, vec![]);
    assert_eq!(
        c.range_indices((7, 0), (7, 4095), &open).unwrap().len(),
        SELECTION_LIMIT
    );
    assert_eq!(
        c.range_indices((7, 0), (7, 4096), &open).unwrap_err(),
        "palette_range_too_large"
    );
    let closed = fold(&c, true, vec![]);
    assert_eq!(
        pairs(&c, c.range_indices((7, 0), (8, 0), &closed).unwrap()),
        vec![(7, 0), (8, 0)]
    );
    assert_eq!(c.page_indices(0, &closed).unwrap(), (2, vec![0, 100_000]));
    for exceptions in [
        vec![(7, 1)],
        vec![(8, 0)],
        vec![(7, 0); 2],
        vec![(7, 0); 4097],
    ] {
        assert!(c
            .closed(Fold {
                closed: false,
                exceptions
            })
            .is_err());
    }
    // Read requests never alter a subsequent caller's default order.
    assert_eq!(
        c.page_indices(0, &fold(&c, false, vec![])).unwrap().0,
        100_001
    );
}

#[test]
fn unsorted_input_is_sorted_stably_and_labels_are_bounded() {
    let c = catalogue(vec![(5, 2), (5, 1), (1, 9), (5, 0)], true);
    assert_eq!(
        c.rows().iter().map(|r| r.pair).collect::<Vec<_>>(),
        vec![(1, 9), (5, 0), (5, 1), (5, 2)]
    );
    assert_eq!(c.groups(), &vec![((5, 0), 4)]);
    assert_eq!(c.rows()[0].parent, None);
    assert_eq!(c.rows()[3].parent, Some((5, 0)));
    assert_eq!(label(&"x".repeat(200)), "x".repeat(128));
    assert_eq!(label("한글"), "한글");
}

#[test]
fn exception_flips_only_its_group() {
    let c = catalogue(vec![(1, 0), (1, 1), (2, 0), (2, 1), (3, 0)], true);
    let closed = fold(&c, false, vec![(2, 0)]);
    assert!(!closed.contains((1, 0)));
    assert!(closed.contains((2, 0)));
    assert_eq!(
        pairs(&c, c.page_indices(0, &closed).unwrap().1),
        vec![(1, 0), (1, 1), (2, 0), (3, 0)]
    );
}

#[test]
fn folded_page_reports_children_fold_and_selection() {
    let c = catalogue(vec![(1, 0), (1, 1), (1, 2), (2, 0)], false);
    let layers = Layers::Only(vec![(1, 2)]);
    let reply = c
        .read(&layers, PaletteRead::Page { start: 0, fold: Fold { closed: true, exceptions: vec![] } })
        .unwrap();
    let PaletteReply::Page { page, all_total } = reply else {
        panic!("a page read answers a page")
    };
    assert_eq!(all_total, 4);
    assert_eq!(page.total, 2);
    assert_eq!(page.start, 0);
    assert_eq!(page.next, None);
    assert_eq!(
        page.rows,
        vec![
            RowDisplay { pair: (1, 0), head: true, parent: None, visible: true, fold: Some((2, true)) },
            RowDisplay { pair: (2, 0), head: true, parent: None, visible: false, fold: Some((0, false)) },
        ]
    );
    assert_eq!(
        c.read(&layers, PaletteRead::Page { start: 3, fold: Fold { closed: true, exceptions: vec![] } })
            .err(),
        Some("invalid_palette")
    );
    assert_eq!(
        c.read(&Layers::All, PaletteRead::Page { start: 0, fold: Fold { closed: false, exceptions: vec![(2, 0)] } })
            .err(),
        Some("invalid_palette")
    );
}

#[test]
fn unfolded_page_hides_physical_parents_and_pages_by_row() {
    let c = catalogue((0..70).map(|l| (l, 0)).chain([(3, 1)]).collect(), true);
    let first = c.page(&Layers::Empty, 0).unwrap();
    assert_eq!((first.total, first.start, first.next, first.rows.len()), (71, 0, Some(64), 64));
    assert_eq!(first.rows[4], RowDisplay { pair: (3, 1), head: false, parent: None, visible: false, fold: None });
    let last = c.page(&Layers::All, 64).unwrap();
    assert_eq!((last.next, last.rows.len()), (None, 7));
    assert!(last.rows.iter().all(|r| r.visible));
    assert!(c.page(&Layers::All, 71).unwrap().rows.is_empty());
    assert!(c.page(&Layers::All, 72).is_none());
}

#[test]
fn range_read_names_the_groups_it_crosses() {
    let c = catalogue(vec![(1, 0), (1, 1), (2, 0), (3, 0), (3, 4)], true);
    let reply = c
        .read(&Layers::All, PaletteRead::Range { first: (3, 4), last: (1, 1), fold: Fold { closed: false, exceptions: vec![] } })
        .unwrap();
    let PaletteReply::Range { pairs, groups } = reply else {
        panic!("a range read answers a range")
    };
    assert_eq!(pairs, vec![(1, 1), (2, 0), (3, 0), (3, 4)]);
    assert_eq!(groups, vec![(3, 0)]);
    assert_eq!(
        c.read(&Layers::All, PaletteRead::Range { first: (3, 4), last: (1, 1), fold: Fold { closed: true, exceptions: vec![] } })
            .err(),
        Some("palette_anchor_hidden")
    );
}
