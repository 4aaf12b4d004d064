use floe_web::labels::BBox;
use floe_web::tree::{
    build_nodes, directory_bytes, merge, place_blocks, node, node_count, parse_tree, prim_bytes, put_meta, read_block, read_meta, summarize, CacheIdentity, GroupRecord, Meta,
    Prim, Root, TreeError, TreeLimits, PROXIES, RECTANGLES,
};

const RECT: u8 = 1;

fn rect(x0: i64, y0: i64, x1: i64, y1: i64) -> Prim {
    Prim { x0, y0, x1, y1, rank: 7, gate_dim: 3, thickness: 0, kind: RECT, flags: 0 }
}

fn inside(outer: &Prim, inner: &Prim) -> bool {
    outer.x0 <= inner.x0 && outer.y0 <= inner.y0 && outer.x1 >= inner.x1 && outer.y1 >= inner.y1
}

#[test]
fn merging_a_column_a_row_and_a_corner() {
    let a = Prim { rank: 4, gate_dim: 9, thickness: 5, flags: 2, ..rect(0, 0, 10, 10) };
    let b = Prim { rank: 2, gate_dim: 1, ..rect(0, 20, 10, 30) };
    let (m, delta) = merge(a, b);
    assert_eq!((m.x0, m.y0, m.x1, m.y1), (0, 0, 10, 30));
    assert_eq!((m.rank, m.gate_dim, m.thickness, m.flags), (2, 9, 5, 2));
    assert_eq!(delta, 5);
    assert_eq!(merge(rect(0, 0, 10, 10), rect(14, 0, 20, 10)).1, 2);
    let (m, delta) = merge(rect(0, 0, 10, 10), rect(5, 5, 20, 30));
    assert_eq!((m.x0, m.y0, m.x1, m.y1), (0, 0, 20, 30));
    assert_eq!(delta, 5);
    assert_eq!(merge(rect(0, 0, 10, 10), rect(0, 0, 10, 10)).1, 0);
    assert_eq!(merge(rect(0, 0, 10, 10), rect(0, 3, 10, 12)).1, 0);
}

#[test]
fn summaries_keep_every_rectangle_inside_at_most_eight_proxies() {
    assert_eq!(summarize(&vec![], 4, RECT), (vec![], 0));
    let mixed = vec![rect(0, 0, 1, 1), Prim { kind: 2, ..rect(5, 5, 6, 6) }];
    assert_eq!(summarize(&mixed, 4, RECT), (vec![], 0));
    let few = vec![rect(100, 0, 110, 10), rect(0, 0, 10, 10), rect(0, 50, 10, 60)];
    let (out, error) = summarize(&few, 4, RECT);
    assert_eq!(out.len(), 3);
    assert_eq!(error, 4);
    assert_eq!(out[0], rect(0, 0, 10, 10));
    let twins = vec![rect(0, 0, 10, 10), rect(0, 0, 10, 10)];
    let (out, error) = summarize(&twins, 0, RECT);
    assert_eq!((out, error), (vec![rect(0, 0, 10, 10)], 0));
    let row: Vec<Prim> = (0..12).map(|k| rect(k * 20, 0, k * 20 + 10, 10)).collect();
    let (out, error) = summarize(&row, 1, RECT);
    assert!(!out.is_empty() && out.len() <= PROXIES);
    assert!(error >= 1 + 5);
    for p in &row {
        assert!(out.iter().any(|q| inside(q, p)));
    }
    let e = error as i64;
    for q in &out {
        for (x, y) in [(q.x0, q.y0), (q.x1, q.y1), ((q.x0 + q.x1) / 2, q.y0), (q.x0 + 15, q.y1)] {
            if x > q.x1 {
                continue;
            }
            let near = |p: &Prim| p.x0 - e <= x && x <= p.x1 + e && p.y0 - e <= y && y <= p.y1 + e;
            assert!(row.iter().any(near), "({x}, {y})");
        }
    }
}

const MAGIC: [u8; 8] = *b"OVR2TREE";

fn limits() -> TreeLimits {
    TreeLimits { magic: MAGIC, max_groups: 16, max_points: 1000, chunk: 512 }
}

fn identity(ovm: &[u8]) -> CacheIdentity {
    CacheIdentity::new(ovm, 1234, 5678, 0x3e11_2e0b_e826_d695, 2, vec![(9, 9), (5, 0), (6, 0)])
}

fn p32(out: &mut Vec<u8>, v: u32) {
    out.extend_from_slice(&v.to_le_bytes());
}

fn p64(out: &mut Vec<u8>, v: u64) {
    out.extend_from_slice(&v.to_le_bytes());
}

/// One group of two primitives in one leaf; `count` is the group's count
/// and `reserved` the node's reserved word.
fn tree(ovm: &[u8], count: u32, reserved: u32) -> Vec<u8> {
    let mut d = Vec::new();
    d.extend_from_slice(&MAGIC);
    p32(&mut d, 3);
    p32(&mut d, crc32fast::hash(ovm));
    for v in [1234u64, 5678, 0x3e11_2e0b_e826_d695] {
        p64(&mut d, v);
    }
    for v in [2u32, 1, 1, 0] {
        p32(&mut d, v);
    }
    p64(&mut d, 212);
    for v in [5u32, 0, 0, 0, count, 0] {
        p32(&mut d, v);
    }
    p64(&mut d, 2);
    for v in [0i64, 0, 10, 10] {
        p64(&mut d, v as u64);
    }
    for v in [0u64, 1, 2, 0] {
        p64(&mut d, v);
    }
    for v in [0u32, 0, 2, 1] {
        p32(&mut d, v);
    }
    p64(&mut d, 212);
    p64(&mut d, 0);
    for v in [0u32, 77, 0, reserved] {
        p32(&mut d, v);
    }
    let crc = crc32fast::hash(&d);
    p32(&mut d, crc);
    d.extend(vec![0u8; 128]);
    d
}

#[test]
fn a_directory_is_read_only_from_its_own_design() {
    let ovm = b"design data".to_vec();
    let data = tree(&ovm, 2, 0);
    let dir = parse_tree(&data, &identity(&ovm), &limits()).unwrap();
    assert_eq!(dir.roots, vec![Root { layer: 1, depth: 0, root: 0, count: 2 }]);
    assert_eq!(
        dir.nodes,
        vec![Meta {
            bbox: BBox { x0: 0, y0: 0, x1: 10, y1: 10 },
            error: 0,
            gate_min: 1,
            gate_max: 2,
            minor: 0,
            first: 0,
            children: 0,
            count: 2,
            flags: 1,
            leaf_off: 212,
            proxy_off: 0,
            proxies: 0,
            leaf_crc: 77,
            proxy_crc: 0,
        }]
    );
    let err = |d: &[u8], o: &[u8]| parse_tree(d, &identity(o), &limits()).err();
    assert_eq!(err(&data, b"other design"), Some(TreeError::IdentityMismatch));
    assert_eq!(
        TreeError::IdentityMismatch.message(),
        "representatives: cache identity mismatch; rebuild design.ovr"
    );
    let mut bad = data.clone();
    bad[0] = b'X';
    assert_eq!(err(&bad, &ovm), Some(TreeError::Invalid));
    let mut bad = data.clone();
    bad[70] ^= 1;
    assert_eq!(err(&bad, &ovm), Some(TreeError::ChecksumMismatch));
    assert_eq!(err(&tree(&ovm, 2, 1), &ovm), Some(TreeError::UnknownFlags));
    assert_eq!(err(&tree(&ovm, 3, 0), &ovm), Some(TreeError::Invalid));
    let mut long = data.clone();
    long.push(0);
    assert_eq!(err(&long, &ovm), Some(TreeError::Invalid));
    assert_eq!(err(&data[..67], &ovm), Some(TreeError::Invalid));
    assert_eq!(TreeError::Invalid.message(), "representatives: invalid tree directory");
}

#[test]
fn node_counts_add_up_the_levels() {
    assert_eq!(node_count(0, 512), 0);
    assert_eq!(node_count(1, 512), 1);
    assert_eq!(node_count(512, 512), 1);
    assert_eq!(node_count(513, 512), 3);
    assert_eq!(node_count(512 * 8, 512), 9);
    assert_eq!(node_count(512 * 9, 512), 9 + 2 + 1);
    assert_eq!(node_count(10, 3), 4 + 1);
}

#[test]
fn written_records_read_back() {
    let m = Meta {
        bbox: BBox { x0: -5, y0: i64::MIN, x1: i64::MAX, y1: 7 },
        error: u64::MAX,
        gate_min: 1,
        gate_max: 2,
        minor: 3,
        first: 4,
        children: 5,
        count: 6,
        flags: 1,
        leaf_off: 1 << 40,
        proxy_off: 9,
        proxies: 8,
        leaf_crc: 0xdead_beef,
        proxy_crc: 11,
    };
    let mut out = vec![0xAA; 3];
    put_meta(&mut out, &m);
    assert_eq!(out.len(), 3 + 112);
    assert_eq!(&out[..3], &[0xAA; 3]);
    assert_eq!(read_meta(&out, 3), Ok(m));
    assert_eq!(&out[3..11], &(-5i64).to_le_bytes());
    out[3 + 108] = 1;
    assert_eq!(read_meta(&out, 3), Err(TreeError::UnknownFlags));
    let ps = vec![Prim { rank: 9, ..rect(-1, 2, 3, 4) }, Prim { kind: 2, flags: 5, ..rect(0, 0, 1, 1) }];
    let bytes = prim_bytes(&ps, 7);
    assert_eq!(bytes.len(), 128);
    assert_eq!(&bytes[..8], &((7u64 << 32) | 9).to_le_bytes());
    assert_eq!(&bytes[8..16], &(-1i64).to_le_bytes());
    assert_eq!(&bytes[120..122], &[2, 5]);
    assert_eq!(&bytes[122..128], &[0; 6]);
}

#[test]
fn a_leaf_node_bounds_its_primitives() {
    let ps = vec![
        Prim { gate_dim: 4, ..rect(0, 0, 10, 2) },
        Prim { gate_dim: 1, ..rect(20, -3, 24, 30) },
        Prim { gate_dim: 9, ..rect(5, 5, 6, 6) },
    ];
    let n = node(&ps, 512, RECT);
    assert_eq!(n.leaf_start, 512);
    assert_eq!(n.meta.bbox, BBox { x0: 0, y0: -3, x1: 24, y1: 30 });
    assert_eq!((n.meta.gate_min, n.meta.gate_max, n.meta.minor), (1, 9, 4));
    assert_eq!((n.meta.count, n.meta.flags, n.meta.children), (3, RECTANGLES, 0));
    assert_eq!(n.meta.proxies as usize, n.proxy.len());
    let mixed = vec![rect(0, 0, 1, 1), Prim { kind: 2, ..rect(5, 5, 6, 6) }];
    let n = node(&mixed, 0, RECT);
    assert_eq!((n.meta.flags, n.meta.proxies, n.meta.error), (0, 0, 0));
}

#[test]
fn built_trees_have_node_count_nodes_and_parents_bound_children() {
    let prims: Vec<Prim> = (0..20).map(|k| Prim { gate_dim: k as u64, ..rect(k * 10, 0, k * 10 + 5, 5) }).collect();
    let nodes = build_nodes(&prims, 3, RECT);
    assert_eq!(nodes.len(), node_count(20, 3));
    assert_eq!(nodes.len(), 8);
    for (k, leaf) in nodes[..7].iter().enumerate() {
        assert_eq!((leaf.leaf_start, leaf.meta.children), (3 * k, 0));
        assert_eq!(leaf.meta.count, if k < 6 { 3 } else { 2 });
    }
    let root = &nodes[7];
    assert_eq!((root.meta.first, root.meta.children, root.meta.count), (0, 7, 0));
    assert_eq!(root.meta.bbox, BBox { x0: 0, y0: 0, x1: 195, y1: 5 });
    assert_eq!((root.meta.gate_min, root.meta.gate_max), (0, 19));
    assert!(root.proxy.len() <= PROXIES);
    for leaf in &nodes[..7] {
        assert!(root.meta.error >= leaf.meta.error);
    }
    let many: Vec<Prim> = (0..100).map(|k| rect(k, k, k + 1, k + 1)).collect();
    assert_eq!(build_nodes(&many, 1, RECT).len(), node_count(100, 1));
    assert!(build_nodes(&[], 4, RECT).is_empty());
}

#[test]
fn blocks_read_back_what_was_written_and_must_fit_their_node() {
    let ps = vec![Prim { rank: 0, ..rect(0, 0, 4, 4) }, Prim { rank: 1, gate_dim: 5, ..rect(2, 2, 9, 9) }];
    let bytes = prim_bytes(&ps, 3);
    let mut data = vec![7u8; 10];
    data.extend_from_slice(&bytes);
    let m = Meta {
        bbox: BBox { x0: 0, y0: 0, x1: 10, y1: 10 },
        error: 0,
        gate_min: 3,
        gate_max: 5,
        minor: 0,
        first: 0,
        children: 0,
        count: 2,
        flags: RECTANGLES,
        leaf_off: 10,
        proxy_off: 0,
        proxies: 0,
        leaf_crc: crc32fast::hash(&bytes),
        proxy_crc: 0,
    };
    assert_eq!(read_block(&data, &m, 3, 2, false, false, RECT), Ok(ps.clone()));
    let stale = Meta { leaf_crc: m.leaf_crc ^ 1, ..m };
    assert_eq!(read_block(&data, &stale, 3, 2, false, false, RECT), Err(TreeError::BlockChecksum));
    assert_eq!(read_block(&data, &stale, 3, 2, false, true, RECT), Ok(ps.clone()));
    assert_eq!(read_block(&data, &m, 4, 2, false, false, RECT), Err(TreeError::InvalidPrimitive));
    assert_eq!(read_block(&data, &m, 3, 1, false, false, RECT), Err(TreeError::InvalidPrimitive));
    let narrow = Meta { gate_max: 4, ..m };
    assert_eq!(read_block(&data, &narrow, 3, 2, false, false, RECT), Err(TreeError::InvalidPrimitive));
    assert_eq!(TreeError::BlockChecksum.message(), "representatives: tree block checksum mismatch");
}

fn sized(x: i64, y: i64, w: i64, h: i64, rank: u32) -> Prim {
    Prim {
        x0: x,
        y0: y,
        x1: x + w,
        y1: y + h,
        gate_dim: (w.min(h) as u64) * 2,
        thickness: 0,
        kind: RECT,
        flags: 0,
        rank,
    }
}

#[test]
fn conservative_merge_error_bounds_both_sets_on_a_small_geometry_oracle() {
    let prims: Vec<_> = (0..32)
        .map(|i| sized(i * 3, (i % 3) * 2, 1 + (i % 2), 8 + (i % 5), i as u32))
        .collect();
    let (proxies, error) = summarize(&prims, 0, RECT);
    let distance = |x: i64, y: i64, ps: &[Prim]| {
        ps.iter()
            .map(|p| (p.x0 - x).max(x - p.x1).max(p.y0 - y).max(y - p.y1).max(0) as u64)
            .min()
            .unwrap()
    };
    for x in -1..100 {
        for y in -1..20 {
            if distance(x, y, &prims) == 0 {
                assert!(distance(x, y, &proxies) <= error);
            }
            if distance(x, y, &proxies) == 0 {
                assert!(distance(x, y, &prims) <= error);
            }
        }
    }
}

#[test]
fn every_flipped_directory_bit_is_refused() {
    let ovm = b"design data".to_vec();
    let data = tree(&ovm, 2, 0);
    assert!(parse_tree(&data, &identity(&ovm), &limits()).is_ok());
    for i in 0..212 {
        for bit in 0..8 {
            let mut bad = data.clone();
            bad[i] ^= 1 << bit;
            assert!(parse_tree(&bad, &identity(&ovm), &limits()).is_err(), "byte {i} bit {bit}");
        }
    }
}

#[test]
fn summaries_merge_the_cheapest_neighbours_first() {
    let row: Vec<Prim> = (0..12).map(|k| rect(k * 20, 0, k * 20 + 10, 10)).collect();
    let (out, error) = summarize(&row, 1, RECT);
    let boxes: Vec<(i64, i64, i64, i64)> = out.iter().map(|p| (p.x0, p.y0, p.x1, p.y1)).collect();
    assert_eq!(
        boxes,
        vec![
            (0, 0, 30, 10),
            (40, 0, 70, 10),
            (80, 0, 110, 10),
            (120, 0, 150, 10),
            (160, 0, 170, 10),
            (180, 0, 190, 10),
            (200, 0, 210, 10),
            (220, 0, 230, 10),
        ]
    );
    assert_eq!(error, 6);
}

#[test]
fn a_written_directory_reads_back_and_names_its_design() {
    let ovm = b"design data".to_vec();
    let meta = Meta {
        bbox: BBox { x0: 0, y0: 0, x1: 10, y1: 10 },
        error: 0,
        gate_min: 1,
        gate_max: 2,
        minor: 0,
        first: 0,
        children: 0,
        count: 2,
        flags: 1,
        leaf_off: 212,
        proxy_off: 0,
        proxies: 0,
        leaf_crc: 77,
        proxy_crc: 0,
    };
    let groups = vec![GroupRecord { key: (5, 0, 0), root: 0, count: 2, members: 2 }];
    let mut data = directory_bytes(&identity(&ovm), &limits(), &groups, &vec![meta]);
    assert_eq!(data.len(), 212);
    data.extend(vec![0u8; 128]);
    assert_eq!(data, tree(&ovm, 2, 0));
    let dir = parse_tree(&data, &identity(&ovm), &limits()).unwrap();
    assert_eq!(dir.roots, vec![Root { layer: 1, depth: 0, root: 0, count: 2 }]);
    assert_eq!(dir.nodes, vec![meta]);
    assert_eq!(
        parse_tree(&data, &identity(b"other design"), &limits()).err(),
        Some(TreeError::IdentityMismatch)
    );
    assert!(parse_tree(&data[..data.len() - 1], &identity(&ovm), &limits()).is_err());
    let empty = directory_bytes(&identity(&ovm), &limits(), &vec![], &vec![]);
    assert_eq!(empty.len(), 68);
    assert_eq!(&empty[..8], &MAGIC);
    assert_eq!(u32::from_le_bytes(empty[64..68].try_into().unwrap()), crc32fast::hash(&empty[..64]));
}

#[test]
fn placed_blocks_follow_the_nodes_and_name_their_checksums() {
    let prims: Vec<Prim> = (0..20).map(|k| Prim { gate_dim: k as u64, ..rect(k * 10, 0, k * 10 + 5, 5) }).collect();
    let nodes = build_nodes(&prims, 3, RECT);
    let start = 1000u64;
    let (metas, blocks, end) = place_blocks(&nodes, &prims, 2, 5, start).unwrap();
    assert_eq!(metas.len(), nodes.len());
    assert_eq!(end, start + blocks.len() as u64);
    let mut at = start;
    for (n, m) in nodes.iter().zip(&metas) {
        assert_eq!((m.bbox, m.error, m.count, m.children, m.proxies), (n.meta.bbox, n.meta.error, n.meta.count, n.meta.children, n.meta.proxies));
        if n.meta.children == 0 {
            assert_eq!(m.first, n.meta.first);
            assert_eq!(m.leaf_off, at);
            let len = 64 * n.meta.count as usize;
            let block = &blocks[(at - start) as usize..(at - start) as usize + len];
            let leaf = prims[n.leaf_start..n.leaf_start + n.meta.count as usize].to_vec();
            assert_eq!(block, &prim_bytes(&leaf, 2)[..]);
            assert_eq!(m.leaf_crc, crc32fast::hash(block));
            at += len as u64;
        } else {
            assert_eq!(m.first, n.meta.first + 5);
            assert_eq!((m.leaf_off, m.leaf_crc), (0, 0));
        }
        if n.proxy.is_empty() {
            assert_eq!((m.proxy_off, m.proxy_crc), (0, 0));
        } else {
            assert_eq!(m.proxy_off, at);
            let len = 64 * n.proxy.len();
            let block = &blocks[(at - start) as usize..(at - start) as usize + len];
            assert_eq!(block, &prim_bytes(&n.proxy, 2)[..]);
            assert_eq!(m.proxy_crc, crc32fast::hash(block));
            at += len as u64;
        }
    }
    assert_eq!(at, end);
    assert_eq!(place_blocks(&nodes, &prims, 2, 5, 536_870_000), Err("representatives: tree exceeds 512 MiB"));
    assert_eq!(place_blocks(&vec![], &prims, 2, 5, 600_000_000), Ok((vec![], vec![], 600_000_000)));
}
