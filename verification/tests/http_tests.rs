use rinha::heap::Result;
use rinha::http::{count_fraud, fraud_answer, fraud_response_index, route_request, Route};
use rinha::search::Node;

#[test]
fn ready_probe() {
    let (route, head) = route_request(b"GET /ready HTTP/1.1\r\nHost: x\r\n\r\n");
    assert_eq!(route, Route::Ready);
    assert!(head.is_some());
}

#[test]
fn fraud_score_request_points_at_the_body() {
    let req = b"POST /fraud-score HTTP/1.1\r\nContent-Length: 2\r\n\r\n{}";
    let (route, _) = route_request(req);
    let offset = req.len() - 2;
    assert_eq!(route, Route::FraudScore { body_offset: offset });
}

#[test]
fn unknown_routes() {
    assert_eq!(route_request(b"GET /fraud-score HTTP/1.1\r\n\r\n").0, Route::NotFound);
    assert_eq!(route_request(b"POST /ready HTTP/1.1\r\n\r\n").0, Route::NotFound);
    assert_eq!(route_request(b"GET /readyz HTTP/1.1\r\n\r\n").0, Route::NotFound);
}

#[test]
fn bad_requests() {
    assert_eq!(route_request(b"GET /ready HTTP/1.1\r\n").0, Route::BadRequest);
    assert_eq!(route_request(b"\x01\x02 nonsense\r\n\r\n").0, Route::BadRequest);
    assert_eq!(route_request(b"").0, Route::BadRequest);
}

#[test]
fn fraud_counting() {
    let labels = [0u8, 1, 1, 0, 1, 2];
    let neighbors = [
        Result { distance: 1, index: 1 },
        Result { distance: 2, index: 0 },
        Result { distance: 3, index: 4 },
        Result { distance: 4, index: 5 },
        Result { distance: 5, index: 1 },
    ];
    assert_eq!(count_fraud(&labels, &neighbors), 3);
    assert_eq!(count_fraud(&labels, &[]), 0);
}

#[test]
fn response_index_is_capped() {
    assert_eq!(fraud_response_index(0), 0);
    assert_eq!(fraud_response_index(3), 3);
    assert_eq!(fraud_response_index(5), 5);
    assert_eq!(fraud_response_index(9), 5);
}

fn pack(vectors: &[[i32; 14]]) -> Vec<u8> {
    let mut out = Vec::new();
    for v in vectors {
        for &x in v.iter() {
            let u = (x as u32) & 0xff_ffff;
            out.extend_from_slice(&[(u & 0xff) as u8, ((u >> 8) & 0xff) as u8, ((u >> 16) & 0xff) as u8]);
        }
    }
    out
}

#[test]
fn fraud_answer_counts_labels_of_the_nearest() {
    // Vector i has every coordinate equal to 100 * i; the query sits at 0.
    let vs: Vec<[i32; 14]> = (0..8).map(|i| [100 * i; 14]).collect();
    let buf = pack(&vs);
    let labels = [1u8, 1, 0, 1, 0, 1, 1, 1];
    let nodes = [Node { threshold_sq: 0, range_lo: 0, range_hi: 8, right_child_idx: -1 }];
    let q = [0i32; 14];
    let mut heap = vec![Result { distance: -5, index: 7 }];
    // The five nearest are vectors 0..5, three of them labelled as fraud.
    assert_eq!(fraud_answer(&nodes, &buf, &labels, &q, &mut heap, &|_, _, _| true), 3);
    let mut idx: Vec<u32> = heap.iter().map(|r| r.index).collect();
    idx.sort();
    assert_eq!(idx, vec![0, 1, 2, 3, 4]);
    let all_fraud = [1u8; 8];
    assert_eq!(fraud_answer(&nodes, &buf, &all_fraud, &q, &mut heap, &|_, _, _| true), 5);
}

#[test]
fn fraud_answer_needs_labels_only_for_reachable_vectors() {
    let vs: Vec<[i32; 14]> = (0..8).map(|i| [100 * i; 14]).collect();
    let buf = pack(&vs);
    // The tree reaches only vectors 0..5; the label file covers just those.
    let labels = [1u8, 0, 1, 0, 1];
    let nodes = [Node { threshold_sq: 0, range_lo: 0, range_hi: 5, right_child_idx: -1 }];
    assert!(rinha::search::tree_fits(&nodes, labels.len()));
    assert!(!rinha::search::tree_fits(&nodes, 4));
    let q = [0i32; 14];
    let mut heap = Vec::new();
    assert_eq!(fraud_answer(&nodes, &buf, &labels, &q, &mut heap, &|_, _, _| true), 3);
}
