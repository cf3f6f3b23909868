use vstd::prelude::*;

verus! {

/// The upstream that the `counter`-th connection goes to: connections are
/// spread round-robin over the `count` upstreams.
pub fn pick_upstream(counter: usize, count: usize) -> (r: usize)
    requires
        count > 0,
    ensures
        r == counter % count,
        r < count,
{
    counter % count
}

/// Consecutive connections go to consecutive upstreams, wrapping around
/// after the last one.
pub proof fn lemma_round_robin(counter: usize, count: usize)
    requires
        count > 0,
        counter < usize::MAX,
    ensures
        (counter + 1) % (count as int) == ((counter as int) % (count as int) + 1) % (count as int),
{
    assert((counter + 1) % (count as int) == ((counter as int) % (count as int) + 1) % (count as int)) by (nonlinear_arith)
        requires
            count > 0,
            counter >= 0,
    ;
}

} // verus!
