use rinha::warmup::{lcg_step, warmup_coordinate, warmup_query};

#[test]
fn lcg_steps() {
    assert_eq!(lcg_step(0), 1013904223);
    assert_eq!(lcg_step(1), 1015568748);
}

#[test]
fn coordinates_reduce_the_high_half() {
    assert_eq!(warmup_coordinate(0), 0);
    assert_eq!(warmup_coordinate(0x2711_0000), 0);
    assert_eq!(warmup_coordinate(0x2712_0000), 1);
    // 0xffff as i16 is -1, whose Euclidean remainder is 10000
    assert_eq!(warmup_coordinate(0xffff_0000), 10000);
    assert_eq!(warmup_coordinate(0x8000_0000), ((-32768i32).rem_euclid(10001)));
}

#[test]
fn first_warmup_query() {
    let (q, s) = warmup_query(0x12345678);
    assert_eq!(
        q,
        vec![16, 6994, 9691, 9291, 8482, 2491, 4384, 6625, 7011, 7699, 8317, 6450, 7259, 3311]
    );
    assert_eq!(s, 872430246);
}
