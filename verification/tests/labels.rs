use floe_web::labels::{
    bin_of, finish_plan, fnv, offset_box, BBox, Cand, Declutter, Src, TextStats,
};

fn text(x: i64, y: i64, layer_pos: u32, off: u64, len: u32) -> Cand {
    Cand {
        block: false,
        layer_pos,
        hash: fnv(&[x as u64, y as u64, layer_pos as u64, off, len as u64]),
        x,
        y,
        src: Src::Ovt(off, len),
    }
}

fn block(x: i64, y: i64, cell: u32) -> Cand {
    Cand {
        block: true,
        layer_pos: 0,
        hash: fnv(&[x as u64, y as u64, cell as u64]),
        x,
        y,
        src: Src::Cell(cell),
    }
}

#[test]
fn fnv_matches_the_reference_hash() {
    // FNV-1a over the eight little-endian bytes of each value.
    let mut h: u64 = 0xcbf29ce484222325;
    for v in [1u64, u64::MAX, 0x0102030405060708] {
        for b in v.to_le_bytes() {
            h ^= b as u64;
            h = h.wrapping_mul(0x100000001b3);
        }
    }
    assert_eq!(fnv(&[1, u64::MAX, 0x0102030405060708]), h);
    assert_eq!(fnv(&[]), 0xcbf29ce484222325);
}

#[test]
fn bins_are_floor_division_and_offsets_saturate() {
    assert_eq!(bin_of(-7, 2), -4);
    assert_eq!(bin_of(7, 2), 3);
    assert_eq!(bin_of(-8, 2), -4);
    assert_eq!(bin_of(i64::MIN, 1), i64::MIN);
    assert_eq!(bin_of(i64::MIN, 3), i64::MIN.div_euclid(3));
    assert_eq!(bin_of(i64::MAX, 7), i64::MAX.div_euclid(7));
    let clip = BBox {
        x0: i64::MIN,
        y0: -5,
        x1: i64::MAX,
        y1: 5,
    };
    let b = offset_box(&clip, 10, -10);
    assert_eq!(
        b,
        BBox {
            x0: i64::MIN,
            y0: 5,
            x1: i64::MAX - 10,
            y1: 15
        }
    );
    let b = offset_box(&clip, -10, 10);
    assert_eq!((b.x0, b.x1), (i64::MIN + 10, i64::MAX));
}

#[test]
fn declutter_keeps_the_best_of_each_bin_within_budget() {
    let ovt = b"pinggTOPLBL".to_vec();
    let layers = vec![(7u32, 0u32), (9, 1)];
    let names = vec!["SUB".to_string()];
    let mut d = Declutter::new(false, 100, 65_536);
    d.add(text(10, 20, 1, 0, 3));
    d.add(text(15, 25, 0, 3, 1)); // same bin, lower layer: wins
    d.add(block(150, 20, 0)); // a bin of its own: blocks come first
    d.add(text(5010, 5010, 1, 5, 6));
    let plan = finish_plan(d, 2, TextStats::default(), &ovt, &layers, &names).unwrap();
    assert_eq!(plan.rows.len(), 2);
    assert!(plan.rows[0].block && plan.rows[0].s == "SUB");
    assert_eq!((plan.rows[0].layer, plan.rows[0].dt), (0, 0));
    assert_eq!(plan.rows[1].s, "g");
    assert_eq!((plan.rows[1].layer, plan.rows[1].dt), (7, 0));
    assert_eq!(plan.stats.selected, 2);
    assert_eq!(plan.stats.budget_dropped, 1);
    assert!(!plan.stats.truncated);
}

#[test]
fn raw_mode_keeps_every_candidate_and_the_cap_truncates() {
    let ovt = b"pinggTOPLBL".to_vec();
    let layers = vec![(7u32, 0u32)];
    let names: Vec<String> = vec![];
    let mut d = Declutter::new(true, 1, 2);
    d.add(text(10, 20, 0, 0, 3));
    assert!(!d.done());
    d.add(text(10, 20, 0, 0, 3));
    assert!(d.done() && d.truncated());
    let plan = finish_plan(d, 0, TextStats::default(), &ovt, &layers, &names).unwrap();
    assert_eq!(plan.rows.len(), 2);
    assert!(plan.stats.truncated);
    assert_eq!(plan.stats.budget_dropped, 0);
}

#[test]
fn unreadable_strings_fail_the_plan() {
    let ovt = vec![0xffu8, b'a'];
    let layers = vec![(7u32, 0u32)];
    let names: Vec<String> = vec![];
    let mut d = Declutter::new(true, 1, 10);
    d.add(text(0, 0, 0, 1, 5));
    assert_eq!(
        finish_plan(d, 10, TextStats::default(), &ovt, &layers, &names).unwrap_err(),
        "corrupt cache; rebuild: text string beyond design.ovt"
    );
    let mut d = Declutter::new(true, 1, 10);
    d.add(text(0, 0, 0, 0, 2));
    assert_eq!(
        finish_plan(d, 10, TextStats::default(), &ovt, &layers, &names).unwrap_err(),
        "corrupt cache; rebuild: text string not UTF-8"
    );
}

#[test]
fn selected_rows_come_in_priority_order() {
    let mut d = Declutter::new(true, 1, 64);
    let cands = vec![
        text(1, 1, 2, 0, 1),
        block(9, 9, 3),
        text(2, 2, 0, 1, 1),
        text(3, 3, 1, 2, 1),
        block(4, 4, 1),
        text(5, 5, 0, 3, 1),
    ];
    for c in &cands {
        d.add(c.clone());
    }
    let (rows, dropped) = d.finish(0);
    assert_eq!((rows.len(), dropped), (6, 0));
    for w in rows.windows(2) {
        assert!(w[0].prio() <= w[1].prio());
    }
    assert!(rows[0].block && rows[1].block);
    assert_eq!(rows.iter().skip(2).map(|c| c.layer_pos).collect::<Vec<_>>(), vec![0, 0, 1, 2]);
}
