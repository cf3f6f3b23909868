use rinha::heap::{push_heap, Result, KNN};

fn is_max_heap(h: &[Result]) -> bool {
    (1..h.len()).all(|j| h[j].distance <= h[(j - 1) / 2].distance)
}

fn sorted_distances(h: &[Result]) -> Vec<i64> {
    let mut d: Vec<i64> = h.iter().map(|r| r.distance).collect();
    d.sort();
    d
}

#[test]
fn push_fills_up_to_knn() {
    let mut heap = Vec::new();
    for (i, d) in [50i64, 10, 40, 20, 30].iter().enumerate() {
        push_heap(&mut heap, *d, i as u32);
        assert!(is_max_heap(&heap));
    }
    assert_eq!(heap.len(), KNN);
    assert_eq!(heap[0].distance, 50);
    assert_eq!(sorted_distances(&heap), vec![10, 20, 30, 40, 50]);
}

#[test]
fn push_replaces_the_farthest_when_closer() {
    let mut heap = Vec::new();
    for (i, d) in [50i64, 10, 40, 20, 30].iter().enumerate() {
        push_heap(&mut heap, *d, i as u32);
    }
    push_heap(&mut heap, 5, 99);
    assert!(is_max_heap(&heap));
    assert_eq!(sorted_distances(&heap), vec![5, 10, 20, 30, 40]);
    assert!(heap.iter().any(|r| r.index == 99));
    assert!(!heap.iter().any(|r| r.index == 0));
}

#[test]
fn push_drops_candidates_not_strictly_closer() {
    let mut heap = Vec::new();
    for (i, d) in [50i64, 10, 40, 20, 30].iter().enumerate() {
        push_heap(&mut heap, *d, i as u32);
    }
    push_heap(&mut heap, 50, 77);
    push_heap(&mut heap, 60, 78);
    assert_eq!(sorted_distances(&heap), vec![10, 20, 30, 40, 50]);
    assert!(!heap.iter().any(|r| r.index == 77 || r.index == 78));
    assert!(heap.iter().any(|r| r.index == 0));
}

#[test]
fn heap_keeps_the_five_smallest_of_many() {
    let mut heap = Vec::new();
    let values: Vec<i64> = (0..100).map(|i| (i * 37 % 101) as i64).collect();
    for (i, d) in values.iter().enumerate() {
        push_heap(&mut heap, *d, i as u32);
        assert!(is_max_heap(&heap));
        assert!(heap.len() <= KNN);
    }
    let mut all = values.clone();
    all.sort();
    assert_eq!(sorted_distances(&heap), all[..5].to_vec());
}

#[test]
fn dropped_candidate_leaves_the_heap_exactly_as_it_was() {
    let mut heap = Vec::new();
    for (i, d) in [50i64, 10, 40, 20, 30].iter().enumerate() {
        push_heap(&mut heap, *d, i as u32);
    }
    let before: Vec<(i64, u32)> = heap.iter().map(|r| (r.distance, r.index)).collect();
    push_heap(&mut heap, 50, 7);
    push_heap(&mut heap, 1000, 8);
    let after: Vec<(i64, u32)> = heap.iter().map(|r| (r.distance, r.index)).collect();
    assert_eq!(before, after);
}

#[test]
fn heap_arrangement_follows_sift_up_and_down() {
    let mut heap = Vec::new();
    for (i, d) in [10i64, 20, 30, 40, 50].iter().enumerate() {
        push_heap(&mut heap, *d, i as u32);
    }
    let order: Vec<i64> = heap.iter().map(|r| r.distance).collect();
    assert_eq!(order, vec![50, 40, 20, 10, 30]);
    push_heap(&mut heap, 25, 9);
    let order: Vec<i64> = heap.iter().map(|r| r.distance).collect();
    assert_eq!(order, vec![40, 30, 20, 10, 25]);
}
