use rinha::balancer::pick_upstream;

#[test]
fn round_robin_over_upstreams() {
    let picks: Vec<usize> = (0..6).map(|c| pick_upstream(c, 2)).collect();
    assert_eq!(picks, vec![0, 1, 0, 1, 0, 1]);
    assert_eq!(pick_upstream(7, 3), 1);
    assert_eq!(pick_upstream(usize::MAX, 2), 1);
    assert_eq!(pick_upstream(5, 1), 0);
}
