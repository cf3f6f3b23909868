use vstd::prelude::*;
use crate::data::DIMS;

verus! {

/// One step of the linear congruential generator that makes the warm-up
/// queries: `s * 1664525 + 1013904223` modulo 2^32.
pub open spec fn lcg_next(s: u32) -> u32 {
    ((s * 1664525 + 1013904223) % 0x1_0000_0000) as u32
}

/// The generator state after `n` steps from `s`.
pub open spec fn lcg_iter(s: u32, n: nat) -> u32
    decreases n,
{
    if n == 0 {
        s
    } else {
        lcg_next(lcg_iter(s, (n - 1) as nat))
    }
}

/// The warm-up coordinate drawn from state `s`: its upper 16 bits read as an
/// `i16`, reduced to `0..=10000`.
pub open spec fn warmup_slot(s: u32) -> int {
    let h = s / 0x1_0000;
    let v = if h >= 0x8000 {
        h - 0x1_0000
    } else {
        h as int
    };
    v % 10001
}

/// Advances the generator by one step.
pub fn lcg_step(s: u32) -> (r: u32)
    ensures
        r == lcg_next(s),
{
    let r = s.wrapping_mul(1664525).wrapping_add(1013904223);
    assert(r == lcg_next(s)) by (nonlinear_arith)
        requires
            r == vstd::wrapping::u32_specs::wrapping_add(
                vstd::wrapping::u32_specs::wrapping_mul(s, 1664525),
                1013904223,
            ),
    ;
    r
}

/// The warm-up coordinate for state `s`.
pub fn warmup_coordinate(s: u32) -> (r: i32)
    ensures
        r == warmup_slot(s),
        0 <= r <= 10000,
{
    let h = s >> 16;
    assert(h == s / 0x1_0000) by (bit_vector)
        requires
            h == s >> 16,
    ;
    if h >= 0x8000 {
        let neg = 0x1_0000 - h;
        let m = (neg % 10001) as i32;
        let r = if m == 0 {
            0
        } else {
            10001 - m
        };
        assert(r == (h - 0x1_0000) % 10001) by (nonlinear_arith)
            requires
                0x8000 <= h < 0x1_0000,
                neg == 0x1_0000 - h,
                m == neg % 10001,
                r == if m == 0 { 0 } else { 10001 - m },
        ;
        r
    } else {
        (h % 10001) as i32
    }
}

/// Draws one warm-up query, one coordinate per dimension, each from the next
/// state of the generator; gives the query and the final state.
pub fn warmup_query(state: u32) -> (r: (Vec<i32>, u32))
    ensures
        r.0@.len() == DIMS,
        forall|k: int| 0 <= k < DIMS ==> #[trigger] r.0@[k] == warmup_slot(lcg_iter(state, (k + 1) as nat)),
        r.1 == lcg_iter(state, DIMS as nat),
{
    let mut q: Vec<i32> = Vec::with_capacity(DIMS);
    let mut s = state;
    let mut k: usize = 0;
    while k < DIMS
        invariant
            k <= DIMS,
            q@.len() == k,
            s == lcg_iter(state, k as nat),
            forall|j: int| 0 <= j < k ==> #[trigger] q@[j] == warmup_slot(lcg_iter(state, (j + 1) as nat)),
        decreases DIMS - k,
    {
        s = lcg_step(s);
        q.push(warmup_coordinate(s));
        k = k + 1;
    }
    (q, s)
}

} // verus!
