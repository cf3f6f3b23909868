use rinha::search::{parse_tree_body, parse_tree_header};
use rinha::heap::{Result, KNN};
use rinha::search::{
    dist_sq, parse_vptree, search_into, search_vptree, tree_is_valid, Node, NODE_BYTES,
};
use rinha::data::FormatError;

fn pack(vectors: &[[i32; 14]]) -> Vec<u8> {
    let mut out = Vec::new();
    for v in vectors {
        for &x in v.iter() {
            let u = (x as u32) & 0xff_ffff;
            out.push((u & 0xff) as u8);
            out.push(((u >> 8) & 0xff) as u8);
            out.push(((u >> 16) & 0xff) as u8);
        }
    }
    out
}

fn vector(seed: i32) -> [i32; 14] {
    let mut v = [0i32; 14];
    for (k, x) in v.iter_mut().enumerate() {
        *x = ((seed * 7919 + k as i32 * 104729) % 20001) - 10000;
    }
    v
}

fn brute_force(vs: &[[i32; 14]], q: &[i32]) -> Vec<i64> {
    let mut d: Vec<i64> = vs
        .iter()
        .map(|v| v.iter().zip(q).map(|(a, b)| ((*a as i64) - (*b as i64)).pow(2)).sum())
        .collect();
    d.sort();
    d.truncate(KNN);
    d
}

fn sorted(h: &[Result]) -> Vec<i64> {
    let mut d: Vec<i64> = h.iter().map(|r| r.distance).collect();
    d.sort();
    d
}

fn leaf(lo: u32, hi: u32) -> Node {
    Node { threshold_sq: 0, range_lo: lo, range_hi: hi, right_child_idx: -1 }
}

fn float_test(d: i64, t: i64, w: i64) -> bool {
    let diff = (d as f64).sqrt() - (t as f64).sqrt();
    diff * diff < w as f64
}

#[test]
fn dist_sq_is_squared_euclidean() {
    let a = [0i32; 14];
    let mut b = [0i32; 14];
    b[0] = 3;
    b[13] = -4;
    let buf = pack(&[a, b]);
    let q = [0i32; 14];
    assert_eq!(dist_sq(&q, &buf, 0), 0);
    assert_eq!(dist_sq(&q, &buf, 1), 25);
    let q2 = [8388607i32; 14];
    let far = pack(&[[-8388608i32; 14]]);
    assert_eq!(dist_sq(&q2, &far, 0), 14 * (16777215i64 * 16777215));
}

#[test]
fn single_leaf_search_is_brute_force() {
    let vs: Vec<[i32; 14]> = (0..40).map(vector).collect();
    let buf = pack(&vs);
    let nodes = vec![leaf(0, 40)];
    assert!(tree_is_valid(&nodes, &buf));
    let q = vector(1000);
    let heap = search_vptree(&nodes, &buf, &q, &|_, _, _| false);
    assert_eq!(sorted(&heap), brute_force(&vs, &q));
    for r in &heap {
        assert_eq!(r.distance, dist_sq(&q, &buf, r.index as usize));
    }
}

#[test]
fn full_visit_finds_the_nearest_neighbours() {
    let vs: Vec<[i32; 14]> = (0..30).map(vector).collect();
    let buf = pack(&vs);
    let nodes = vec![
        Node { threshold_sq: 1_000_000_000, range_lo: 0, range_hi: 30, right_child_idx: 2 },
        leaf(1, 15),
        leaf(15, 30),
    ];
    assert!(tree_is_valid(&nodes, &buf));
    for seed in 100..110 {
        let q = vector(seed);
        let heap = search_vptree(&nodes, &buf, &q, &|_, _, _| true);
        assert_eq!(sorted(&heap), brute_force(&vs, &q));
        let heap2 = search_vptree(&nodes, &buf, &q, &float_test);
        assert_eq!(heap2.len(), KNN);
    }
}

#[test]
fn pruned_search_skips_the_far_side() {
    let vs: Vec<[i32; 14]> = (0..12).map(vector).collect();
    let buf = pack(&vs);
    let nodes = vec![
        Node { threshold_sq: i64::MAX, range_lo: 0, range_hi: 12, right_child_idx: 2 },
        leaf(1, 3),
        leaf(3, 12),
    ];
    let q = vector(0);
    let heap = search_vptree(&nodes, &buf, &q, &|_, _, _| false);
    let mut idx: Vec<u32> = heap.iter().map(|r| r.index).collect();
    idx.sort();
    assert_eq!(idx, vec![0, 1, 2]);
}

#[test]
fn search_into_keeps_earlier_candidates() {
    let vs: Vec<[i32; 14]> = (0..3).map(vector).collect();
    let buf = pack(&vs);
    let nodes = vec![leaf(0, 3)];
    let q = vector(0);
    let mut heap = vec![Result { distance: 0, index: 2 }];
    search_into(&nodes, &buf, &q, &mut heap, &|_, _, _| true);
    assert_eq!(heap.len(), 4);
    assert_eq!(heap.iter().filter(|r| r.index == 2).count(), 2);
}

#[test]
fn tree_validity_checks() {
    let buf = pack(&[vector(0), vector(1)]);
    assert!(!tree_is_valid(&[], &buf));
    assert!(!tree_is_valid(&[leaf(0, 3)], &buf));
    assert!(tree_is_valid(&[leaf(5, 3)], &buf));
    let bad_child = Node { threshold_sq: 1, range_lo: 0, range_hi: 2, right_child_idx: 0 };
    assert!(!tree_is_valid(&[bad_child, leaf(0, 1)], &buf));
    let bad_neg = Node { threshold_sq: 1, range_lo: 0, range_hi: 2, right_child_idx: -2 };
    assert!(!tree_is_valid(&[bad_neg, leaf(0, 1)], &buf));
    let good = Node { threshold_sq: 1, range_lo: 0, range_hi: 2, right_child_idx: 2 };
    assert!(tree_is_valid(&[good, leaf(1, 1), leaf(1, 2)], &buf));
}

fn tree_file(version: u32, total: u32, nodes: &[Node]) -> (Vec<u8>, Vec<u8>) {
    let mut h = b"VPT2".to_vec();
    h.extend_from_slice(&version.to_le_bytes());
    h.extend_from_slice(&7u32.to_le_bytes());
    h.extend_from_slice(&total.to_le_bytes());
    let mut body = Vec::new();
    for n in nodes {
        body.extend_from_slice(&n.threshold_sq.to_le_bytes());
        body.extend_from_slice(&n.range_lo.to_le_bytes());
        body.extend_from_slice(&n.range_hi.to_le_bytes());
        body.extend_from_slice(&n.right_child_idx.to_le_bytes());
    }
    (h, body)
}

#[test]
fn parse_vptree_decodes_nodes() {
    let nodes = [
        Node { threshold_sq: -123456789012, range_lo: 0, range_hi: 10, right_child_idx: 2 },
        leaf(1, 5),
        leaf(5, 10),
    ];
    let (h, body) = tree_file(1, 10, &nodes);
    assert_eq!(body.len(), 3 * NODE_BYTES);
    let (parsed, bucket) = parse_vptree(&h, &body, 10).unwrap();
    assert_eq!(bucket, 7);
    assert_eq!(parsed.len(), 3);
    assert_eq!(parsed[0].threshold_sq, -123456789012);
    assert_eq!(parsed[0].right_child_idx, 2);
    assert_eq!(parsed[2].range_lo, 5);
    assert_eq!(parsed[1].right_child_idx, -1);
}

#[test]
fn parse_vptree_errors() {
    let nodes = [leaf(0, 10)];
    let (mut h, body) = tree_file(1, 10, &nodes);
    assert_eq!(parse_vptree(&h, &body, 11).err(), Some(FormatError::VersionOrCount));
    let (h2, _) = tree_file(2, 10, &nodes);
    assert_eq!(parse_vptree(&h2, &body, 10).err(), Some(FormatError::VersionOrCount));
    assert_eq!(parse_vptree(&h, &body[..19], 10).err(), Some(FormatError::BodySize));
    assert_eq!(parse_vptree(&h, &[], 10).err(), Some(FormatError::MalformedRoot));
    let (h3, body3) = tree_file(1, 10, &[leaf(1, 10)]);
    assert_eq!(parse_vptree(&h3, &body3, 10).err(), Some(FormatError::MalformedRoot));
    h[3] = b'3';
    assert_eq!(parse_vptree(&h, &body, 10).err(), Some(FormatError::BadMagic));
}

#[test]
fn tree_header_and_body_separately() {
    let nodes = [leaf(0, 4)];
    let (h, body) = tree_file(1, 4, &nodes);
    assert_eq!(parse_tree_header(&h, 4), Ok(7));
    assert_eq!(parse_tree_header(&h, 5), Err(FormatError::VersionOrCount));
    let parsed = parse_tree_body(&body, 4).unwrap();
    assert_eq!(parsed.len(), 1);
    assert_eq!(parsed[0].range_hi, 4);
    assert_eq!(parse_tree_body(&body, 3).err(), Some(FormatError::MalformedRoot));
}

#[test]
fn leaf_offers_its_vectors_in_order() {
    let vs: Vec<[i32; 14]> = (0..9).map(vector).collect();
    let buf = pack(&vs);
    let nodes = vec![leaf(0, 9)];
    let q = vector(3);
    let heap = search_vptree(&nodes, &buf, &q, &|_, _, _| true);
    let mut expected: Vec<Result> = Vec::new();
    for i in 0..9 {
        rinha::heap::push_heap(&mut expected, dist_sq(&q, &buf, i), i as u32);
    }
    let got: Vec<(i64, u32)> = heap.iter().map(|r| (r.distance, r.index)).collect();
    let want: Vec<(i64, u32)> = expected.iter().map(|r| (r.distance, r.index)).collect();
    assert_eq!(got, want);
}

#[test]
fn search_into_an_empty_heap_matches_search_vptree() {
    let vs: Vec<[i32; 14]> = (0..30).map(vector).collect();
    let buf = pack(&vs);
    let nodes = vec![
        Node { threshold_sq: 1_000_000_000, range_lo: 0, range_hi: 30, right_child_idx: 2 },
        leaf(1, 15),
        leaf(15, 30),
    ];
    for seed in 200..205 {
        let q = vector(seed);
        let a = search_vptree(&nodes, &buf, &q, &float_test);
        let mut b = Vec::new();
        search_into(&nodes, &buf, &q, &mut b, &float_test);
        let a: Vec<(i64, u32)> = a.iter().map(|r| (r.distance, r.index)).collect();
        let b: Vec<(i64, u32)> = b.iter().map(|r| (r.distance, r.index)).collect();
        assert_eq!(a, b);
    }
}

#[test]
fn visiting_test_sees_the_worst_distance_of_the_heap() {
    let vs: Vec<[i32; 14]> = (0..12).map(vector).collect();
    let buf = pack(&vs);
    let nodes = vec![
        Node { threshold_sq: i64::MAX, range_lo: 0, range_hi: 12, right_child_idx: 2 },
        leaf(1, 8),
        leaf(8, 12),
    ];
    let q = vector(0);
    let seen = std::cell::Cell::new(0i64);
    let heap = search_vptree(&nodes, &buf, &q, &|_, _, w| {
        seen.set(w);
        false
    });
    let worst = heap.iter().map(|r| r.distance).max().unwrap();
    assert_eq!(heap.len(), KNN);
    assert_eq!(seen.get(), worst);
    assert_eq!(heap[0].distance, worst);
}

#[test]
fn unreachable_bad_nodes_do_not_stop_a_search() {
    let buf = pack(&[vector(0), vector(1)]);
    let stray = Node { threshold_sq: 0, range_lo: 50, range_hi: 60, right_child_idx: -1 };
    let nodes = vec![leaf(0, 2), stray];
    assert!(tree_is_valid(&nodes, &buf));
    let heap = search_vptree(&nodes, &buf, &vector(0), &|_, _, _| true);
    assert_eq!(heap.len(), 2);
}

fn sq(a: &[i32; 14], b: &[i32; 14]) -> i64 {
    a.iter().zip(b.iter()).map(|(x, y)| ((*x as i64) - (*y as i64)).pow(2)).sum()
}

#[test]
fn sound_pruning_on_a_vantage_point_split_finds_the_nearest() {
    let pivot = vector(0);
    let mut rest: Vec<[i32; 14]> = (1..41).map(vector).collect();
    rest.sort_by_key(|v| sq(&pivot, v));
    let half = rest.len() / 2;
    let threshold = sq(&pivot, &rest[half]);
    let mut vs = vec![pivot];
    vs.extend_from_slice(&rest);
    let buf = pack(&vs);
    let n = vs.len() as u32;
    let nodes = vec![
        Node { threshold_sq: threshold, range_lo: 0, range_hi: n, right_child_idx: 2 },
        leaf(1, 1 + half as u32),
        leaf(1 + half as u32, n),
    ];
    assert!(tree_is_valid(&nodes, &buf));
    for seed in 300..320 {
        let q = vector(seed);
        let heap = search_vptree(&nodes, &buf, &q, &float_test);
        assert_eq!(sorted(&heap), brute_force(&vs, &q));
    }
}
