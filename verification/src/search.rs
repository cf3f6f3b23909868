use vstd::prelude::*;
use vstd::multiset::Multiset;
use crate::data::{
    has_magic, int24_value, le_i32_at, le_i64_at, le_u32_at, read_dim, read_i32_le, read_i64_le,
    read_u32_le, FormatError, DIMS, VEC_BYTES,
};
use crate::heap::{
    keeps_nearest, lemma_keeps_nearest_chain, lemma_keeps_nearest_nothing, push_heap, push_result, valid_heap,
    Result, KNN,
};

verus! {

/// A node of the vantage-point tree, stored in pre-order. A leaf
/// (`right_child_idx == -1`) holds the vectors `range_lo..range_hi`; an inner
/// node has the vector `range_lo` as its vantage point, its inside child right
/// after it and its outside child at `right_child_idx`.
#[derive(Clone, Copy)]
pub struct Node {
    pub threshold_sq: i64,
    pub range_lo: u32,
    pub range_hi: u32,
    pub right_child_idx: i32,
}

/// How many whole packed vectors the buffer holds.
pub open spec fn vector_count(vectors: Seq<u8>) -> int {
    vectors.len() as int / VEC_BYTES as int
}

/// Dimension `k` of the packed vector `i`.
pub open spec fn vector_dim(vectors: Seq<u8>, i: int, k: int) -> int {
    let off = i * VEC_BYTES + 3 * k;
    int24_value(vectors[off], vectors[off + 1], vectors[off + 2])
}

/// Squared Euclidean distance over the first `k` dimensions between the
/// query and the packed vector `i`.
pub open spec fn partial_sq_dist(query: Seq<i32>, vectors: Seq<u8>, i: int, k: nat) -> int
    decreases k,
{
    if k == 0 {
        0
    } else {
        let diff = vector_dim(vectors, i, k - 1) - query[k - 1];
        partial_sq_dist(query, vectors, i, (k - 1) as nat) + diff * diff
    }
}

/// Squared Euclidean distance between the query and the packed vector `i`.
pub open spec fn sq_dist(query: Seq<i32>, vectors: Seq<u8>, i: int) -> int {
    partial_sq_dist(query, vectors, i, DIMS as nat)
}

/// A query has one quantized value per dimension, each within the range that
/// a packed dimension can take.
pub open spec fn query_ok(query: Seq<i32>) -> bool {
    &&& query.len() == DIMS
    &&& forall|k: int| 0 <= k < query.len() ==> -0x80_0000 <= #[trigger] query[k] <= 0x80_0000
}

/// The candidate names a stored vector and carries its true squared distance
/// to the query.
pub open spec fn genuine(x: Result, query: Seq<i32>, vectors: Seq<u8>) -> bool {
    &&& (x.index as int) < vector_count(vectors)
    &&& x.distance == sq_dist(query, vectors, x.index as int)
}

pub open spec fn all_genuine(c: Multiset<Result>, query: Seq<i32>, vectors: Seq<u8>) -> bool {
    forall|x: Result| #[trigger] c.count(x) > 0 ==> genuine(x, query, vectors)
}

/// The subtree rooted at node `idx` can be searched without leaving the node
/// array or the vector buffer: a leaf's range is empty or lies within the
/// first `count` vectors; an inner node's vantage point is one of them, both
/// of its children come after it, and both of their subtrees can be searched.
pub open spec fn subtree_ok(nodes: Seq<Node>, idx: int, count: int) -> bool
    decreases nodes.len() - idx,
{
    if idx < 0 || idx >= nodes.len() {
        false
    } else {
        let n = nodes[idx];
        if n.right_child_idx == -1 {
            n.range_lo >= n.range_hi || n.range_hi <= count
        } else {
            &&& n.range_lo < count
            &&& idx + 1 < nodes.len()
            &&& idx < n.right_child_idx < nodes.len()
            &&& subtree_ok(nodes, idx + 1, count)
            &&& subtree_ok(nodes, n.right_child_idx as int, count)
        }
    }
}

/// Every pre-order tree is accepted whose nodes stay within the first
/// `count` items: a leaf with an empty range or a range within them, and an
/// inner node whose vantage point is one of them, whose inside child is the
/// next node and whose outside child is any later node, both subtrees being
/// accepted. Nothing else is accepted: an accepted node is of one of these
/// two forms.
pub proof fn lemma_subtree_ok_shapes(nodes: Seq<Node>, idx: int, count: int)
    requires
        0 <= idx < nodes.len(),
    ensures
        nodes[idx].right_child_idx == -1 ==> (subtree_ok(nodes, idx, count) <==> (nodes[idx].range_lo
            >= nodes[idx].range_hi || nodes[idx].range_hi <= count)),
        nodes[idx].right_child_idx != -1 ==> (subtree_ok(nodes, idx, count) <==> {
            let rc = nodes[idx].right_child_idx as int;
            &&& nodes[idx].range_lo < count
            &&& idx + 1 < nodes.len()
            &&& idx < rc < nodes.len()
            &&& subtree_ok(nodes, idx + 1, count)
            &&& subtree_ok(nodes, rc, count)
        }),
{
}

/// The tree, searched from its root (node 0), stays within the node array
/// and the first `count` vectors.
pub open spec fn tree_ok(nodes: Seq<Node>, count: int) -> bool {
    subtree_ok(nodes, 0, count)
}
proof fn lemma_vector_in_buffer(len: int, i: int)
    requires
        0 <= i < len / 42,
        0 <= len,
    ensures
        i * 42 + 42 <= len,
{
    assert(i * 42 + 42 <= len) by (nonlinear_arith)
        requires
            0 <= i < len / 42,
            0 <= len,
    ;
}

/// Squared Euclidean distance between the query and the packed vector `index`.
pub fn dist_sq(query: &[i32], vectors: &[u8], index: usize) -> (d: i64)
    requires
        query_ok(query@),
        (index as int) < vector_count(vectors@),
    ensures
        d == sq_dist(query@, vectors@, index as int),
        0 <= d,
{
    let len = vectors.len();
    proof {
        lemma_vector_in_buffer(vectors@.len() as int, index as int);
        assert(index * 42 + 42 <= vectors@.len());
    }
    let base = index * VEC_BYTES;
    let mut s: i64 = 0;
    let mut k: usize = 0;
    while k < DIMS
        invariant
            query_ok(query@),
            base == index * VEC_BYTES,
            len == vectors@.len(),
            base + VEC_BYTES <= len,
            k <= DIMS,
            s == partial_sq_dist(query@, vectors@, index as int, k as nat),
            0 <= s <= k * 0x1_0000_0000_0000,
        decreases DIMS - k,
    {
        assert(base + 3 * k + 2 < vectors@.len());
        let v = read_dim(vectors, base + 3 * k) as i64;
        let q = query[k] as i64;
        let diff = v - q;
        assert(0 <= diff * diff <= 0x1_0000_0000_0000) by (nonlinear_arith)
            requires
                -0x100_0000 <= diff <= 0x100_0000,
        ;
        s = s + diff * diff;
        k = k + 1;
    }
    s
}


proof fn lemma_sq_dist_bound(query: Seq<i32>, vectors: Seq<u8>, i: int, k: nat)
    requires
        query_ok(query),
        k <= DIMS,
    ensures
        0 <= partial_sq_dist(query, vectors, i, k) <= k * 0x1_0000_0000_0000,
    decreases k,
{
    if k > 0 {
        lemma_sq_dist_bound(query, vectors, i, (k - 1) as nat);
        let diff = vector_dim(vectors, i, k - 1) - query[k - 1];
        assert(-0x100_0000 <= diff <= 0x100_0000);
        assert(0 <= diff * diff <= 0x1_0000_0000_0000) by (nonlinear_arith)
            requires
                -0x100_0000 <= diff <= 0x100_0000,
        ;
    }
}

/// The candidate that offers the stored vector `i` with its squared
/// distance to the query.
pub open spec fn candidate(query: Seq<i32>, vectors: Seq<u8>, i: int) -> Result {
    Result { distance: sq_dist(query, vectors, i) as i64, index: i as u32 }
}

/// The candidates for the stored vectors `lo..hi`.
pub open spec fn range_candidates(query: Seq<i32>, vectors: Seq<u8>, lo: int, hi: int) -> Multiset<Result>
    decreases hi - lo,
{
    if hi <= lo {
        Multiset::empty()
    } else {
        range_candidates(query, vectors, lo, hi - 1).insert(candidate(query, vectors, hi - 1))
    }
}

/// The candidates held by the subtree rooted at node `idx`: the vectors of a
/// leaf's range, or an inner node's vantage point together with the
/// candidates of both children.
pub open spec fn subtree_candidates(nodes: Seq<Node>, query: Seq<i32>, vectors: Seq<u8>, idx: int) -> Multiset<
    Result,
>
    decreases nodes.len() - idx,
{
    if idx < 0 || idx >= nodes.len() {
        Multiset::empty()
    } else {
        let n = nodes[idx];
        if n.right_child_idx == -1 {
            range_candidates(query, vectors, n.range_lo as int, n.range_hi as int)
        } else {
            let inside = subtree_candidates(nodes, query, vectors, idx + 1);
            let outside = if idx < n.right_child_idx < nodes.len() {
                subtree_candidates(nodes, query, vectors, n.right_child_idx as int)
            } else {
                Multiset::empty()
            };
            Multiset::singleton(candidate(query, vectors, n.range_lo as int)).add(inside).add(outside)
        }
    }
}

/// The candidates that a search of the subtree rooted at `idx` offers
/// whatever the visiting test says: a leaf's range, or an inner node's
/// vantage point and everything the search of its nearer child offers (the
/// inside child when the vantage point is closer than the threshold).
pub open spec fn near_path_candidates(nodes: Seq<Node>, query: Seq<i32>, vectors: Seq<u8>, idx: int) -> Multiset<
    Result,
>
    decreases nodes.len() - idx,
{
    if idx < 0 || idx >= nodes.len() {
        Multiset::empty()
    } else {
        let n = nodes[idx];
        if n.right_child_idx == -1 {
            range_candidates(query, vectors, n.range_lo as int, n.range_hi as int)
        } else {
            let near = if sq_dist(query, vectors, n.range_lo as int) < n.threshold_sq {
                idx + 1
            } else {
                n.right_child_idx as int
            };
            let rest = if idx < near < nodes.len() {
                near_path_candidates(nodes, query, vectors, near)
            } else {
                Multiset::empty()
            };
            Multiset::singleton(candidate(query, vectors, n.range_lo as int)).add(rest)
        }
    }
}

/// What a search offers to the heap: genuine candidates, all from the
/// subtree searched, and at least those along the nearer children.
pub open spec fn searched(
    c: Multiset<Result>,
    nodes: Seq<Node>,
    query: Seq<i32>,
    vectors: Seq<u8>,
    idx: int,
) -> bool {
    &&& all_genuine(c, query, vectors)
    &&& c.subset_of(subtree_candidates(nodes, query, vectors, idx))
    &&& near_path_candidates(nodes, query, vectors, idx).subset_of(c)
}

/// The heap `h` after the vectors `lo..hi` are offered to it one after the
/// other, in increasing order.
pub open spec fn push_range(h: Seq<Result>, query: Seq<i32>, vectors: Seq<u8>, lo: int, hi: int) -> Seq<
    Result,
>
    decreases hi - lo,
{
    if hi <= lo {
        h
    } else {
        let c = candidate(query, vectors, hi - 1);
        push_result(push_range(h, query, vectors, lo, hi - 1), c.distance, c.index)
    }
}

/// The distance a search hands to the visiting test: the root's distance
/// once the heap is full, and `i64::MAX` while it has room.
pub open spec fn worst_of(h: Seq<Result>) -> i64 {
    if h.len() >= KNN {
        h[0].distance
    } else {
        i64::MAX
    }
}

/// The child of inner node `k` that a search takes first: the inside child
/// when the vantage point is closer than the threshold, else the outside one.
pub open spec fn near_child(nodes: Seq<Node>, query: Seq<i32>, vectors: Seq<u8>, k: int) -> int {
    if candidate(query, vectors, nodes[k].range_lo as int).distance < nodes[k].threshold_sq {
        k + 1
    } else {
        nodes[k].right_child_idx as int
    }
}

/// The child of inner node `k` that a search takes second, if the visiting
/// test lets it.
pub open spec fn far_child(nodes: Seq<Node>, query: Seq<i32>, vectors: Seq<u8>, k: int) -> int {
    if candidate(query, vectors, nodes[k].range_lo as int).distance < nodes[k].threshold_sq {
        nodes[k].right_child_idx as int
    } else {
        k + 1
    }
}

/// `answer` gives, for every call, the one answer the visiting test can give.
pub open spec fn answers_as<F: Fn(i64, i64, i64) -> bool>(
    visit_far: &F,
    answer: spec_fn(i64, i64, i64) -> bool,
) -> bool {
    forall|d: i64, t: i64, w: i64, r: bool| #[trigger] visit_far.ensures((d, t, w), r) ==> r == answer(d, t, w)
}

/// The heap that searching the subtree rooted at `idx` leaves, starting from
/// `before`, when the visiting test answers as `answer` does. A leaf offers
/// its vectors in order. An inner node offers its vantage point, searches its
/// near child, then asks `answer(d, threshold, worst)` with the vantage
/// point's distance, the node's threshold and `worst_of` the heap at that
/// moment, and searches its far child when the answer is yes.
pub open spec fn search_result(
    nodes: Seq<Node>,
    query: Seq<i32>,
    vectors: Seq<u8>,
    idx: int,
    before: Seq<Result>,
    answer: spec_fn(i64, i64, i64) -> bool,
) -> Seq<Result>
    decreases nodes.len() - idx,
{
    if idx < 0 || idx >= nodes.len() {
        before
    } else {
        let n = nodes[idx];
        if n.right_child_idx == -1 {
            push_range(before, query, vectors, n.range_lo as int, n.range_hi as int)
        } else if idx < n.right_child_idx < nodes.len() {
            let p = candidate(query, vectors, n.range_lo as int);
            let h1 = push_result(before, p.distance, p.index);
            let h2 = search_result(nodes, query, vectors, near_child(nodes, query, vectors, idx), h1, answer);
            if answer(p.distance, n.threshold_sq, worst_of(h2)) {
                search_result(nodes, query, vectors, far_child(nodes, query, vectors, idx), h2, answer)
            } else {
                h2
            }
        } else {
            before
        }
    }
}

/// The visiting test says yes to everything, so a search visits the whole tree.
pub open spec fn always_visits<F: Fn(i64, i64, i64) -> bool>(visit_far: &F) -> bool {
    forall|d: i64, t: i64, w: i64, r: bool| visit_far.ensures((d, t, w), r) ==> r
}

/// The visiting test never turns away a nearer vector: whenever it answers
/// no at an inner node, given the worst distance `w` of the heap, every
/// candidate of that node's far subtree is at least `w` away.
pub open spec fn prunes_soundly<F: Fn(i64, i64, i64) -> bool>(
    nodes: Seq<Node>,
    query: Seq<i32>,
    vectors: Seq<u8>,
    visit_far: &F,
) -> bool {
    forall|k: int, w: i64|
        0 <= k < nodes.len() && nodes[k].right_child_idx != -1 && #[trigger] visit_far.ensures(
            (candidate(query, vectors, nodes[k].range_lo as int).distance, nodes[k].threshold_sq, w),
            false,
        ) ==> forall|x: Result|
            #[trigger] subtree_candidates(nodes, query, vectors, far_child(nodes, query, vectors, k)).count(x) > 0
                ==> x.distance >= w
}

/// A test that always says yes prunes soundly.
pub proof fn lemma_always_visits_prunes_soundly<F: Fn(i64, i64, i64) -> bool>(
    nodes: Seq<Node>,
    query: Seq<i32>,
    vectors: Seq<u8>,
    visit_far: &F,
)
    requires
        always_visits(visit_far),
    ensures
        prunes_soundly(nodes, query, vectors, visit_far),
{
}

proof fn lemma_range_candidates_below_max(query: Seq<i32>, vectors: Seq<u8>, lo: int, hi: int)
    requires
        query_ok(query),
    ensures
        forall|x: Result| #[trigger] range_candidates(query, vectors, lo, hi).count(x) > 0 ==> x.distance < i64::MAX,
    decreases hi - lo,
{
    broadcast use vstd::multiset::group_multiset_axioms;

    if hi > lo {
        lemma_range_candidates_below_max(query, vectors, lo, hi - 1);
        lemma_sq_dist_bound(query, vectors, hi - 1, DIMS as nat);
        let c = candidate(query, vectors, hi - 1);
        assert(c.distance < i64::MAX);
        assert forall|x: Result| #[trigger] range_candidates(query, vectors, lo, hi).count(x) > 0 implies x.distance
            < i64::MAX by {
            if x != c {
                assert(range_candidates(query, vectors, lo, hi - 1).count(x) > 0);
            }
        }
    }
}

proof fn lemma_subtree_candidates_below_max(nodes: Seq<Node>, query: Seq<i32>, vectors: Seq<u8>, idx: int)
    requires
        query_ok(query),
    ensures
        forall|x: Result|
            #[trigger] subtree_candidates(nodes, query, vectors, idx).count(x) > 0 ==> x.distance < i64::MAX,
    decreases nodes.len() - idx,
{
    broadcast use vstd::multiset::group_multiset_axioms;

    if 0 <= idx < nodes.len() {
        let n = nodes[idx];
        if n.right_child_idx == -1 {
            lemma_range_candidates_below_max(query, vectors, n.range_lo as int, n.range_hi as int);
        } else {
            lemma_subtree_candidates_below_max(nodes, query, vectors, idx + 1);
            if idx < n.right_child_idx < nodes.len() {
                lemma_subtree_candidates_below_max(nodes, query, vectors, n.right_child_idx as int);
            }
            lemma_sq_dist_bound(query, vectors, n.range_lo as int, DIMS as nat);
            let c = candidate(query, vectors, n.range_lo as int);
            assert(c.distance < i64::MAX);
            let inside = subtree_candidates(nodes, query, vectors, idx + 1);
            let outside = if idx < n.right_child_idx < nodes.len() {
                subtree_candidates(nodes, query, vectors, n.right_child_idx as int)
            } else {
                Multiset::empty()
            };
            assert forall|x: Result| #[trigger] subtree_candidates(nodes, query, vectors, idx).count(x) > 0 implies x.distance
                < i64::MAX by {
                assert(subtree_candidates(nodes, query, vectors, idx).count(x) == Multiset::singleton(c).count(x)
                    + inside.count(x) + outside.count(x));
                if x != c {
                    assert(Multiset::singleton(c).count(x) == 0);
                    if inside.count(x) == 0 {
                        assert(outside.count(x) > 0);
                    }
                }
            }
        }
    }
}

proof fn lemma_range_candidates_index_below(query: Seq<i32>, vectors: Seq<u8>, lo: int, hi: int, count: int)
    requires
        0 <= lo,
        hi <= u32::MAX + 1,
        lo < hi ==> hi <= count,
    ensures
        forall|x: Result| #[trigger] range_candidates(query, vectors, lo, hi).count(x) > 0 ==> (x.index as int)
            < count,
    decreases hi - lo,
{
    broadcast use vstd::multiset::group_multiset_axioms;

    if hi > lo {
        lemma_range_candidates_index_below(query, vectors, lo, hi - 1, count);
        let c = candidate(query, vectors, hi - 1);
        assert(c.index == hi - 1);
        assert forall|x: Result| #[trigger] range_candidates(query, vectors, lo, hi).count(x) > 0 implies (
        x.index as int) < count by {
            if x != c {
                assert(range_candidates(query, vectors, lo, hi - 1).count(x) > 0);
            }
        }
    }
}

/// Every candidate of a subtree that stays within the first `count` items
/// names one of them.
pub proof fn lemma_subtree_candidates_index_below(
    nodes: Seq<Node>,
    query: Seq<i32>,
    vectors: Seq<u8>,
    idx: int,
    count: int,
)
    requires
        subtree_ok(nodes, idx, count),
    ensures
        forall|x: Result| #[trigger] subtree_candidates(nodes, query, vectors, idx).count(x) > 0 ==> (
        x.index as int) < count,
    decreases nodes.len() - idx,
{
    broadcast use vstd::multiset::group_multiset_axioms;

    let n = nodes[idx];
    if n.right_child_idx == -1 {
        lemma_range_candidates_index_below(query, vectors, n.range_lo as int, n.range_hi as int, count);
    } else {
        lemma_subtree_candidates_index_below(nodes, query, vectors, idx + 1, count);
        lemma_subtree_candidates_index_below(nodes, query, vectors, n.right_child_idx as int, count);
        let c = candidate(query, vectors, n.range_lo as int);
        assert(c.index == n.range_lo);
        let inside = subtree_candidates(nodes, query, vectors, idx + 1);
        let outside = subtree_candidates(nodes, query, vectors, n.right_child_idx as int);
        assert forall|x: Result| #[trigger] subtree_candidates(nodes, query, vectors, idx).count(x) > 0 implies (
        x.index as int) < count by {
            assert(subtree_candidates(nodes, query, vectors, idx).count(x) == Multiset::singleton(c).count(x)
                + inside.count(x) + outside.count(x));
            if x != c {
                assert(Multiset::singleton(c).count(x) == 0);
                if inside.count(x) == 0 {
                    assert(outside.count(x) > 0);
                }
            }
        }
    }
}

/// Candidates that are all at least as far as the worst entry of a heap, and
/// nearer than `i64::MAX`, leave it as it is.
proof fn lemma_keeps_nearest_beyond(h: Seq<Result>, cands: Multiset<Result>)
    requires
        valid_heap(h),
        forall|x: Result| #[trigger] cands.count(x) > 0 ==> worst_of(h) <= x.distance < i64::MAX,
    ensures
        keeps_nearest(h, cands, h),
{
    broadcast use vstd::multiset::group_multiset_axioms;

    if h.len() < KNN {
        assert(cands =~= Multiset::empty());
        lemma_keeps_nearest_nothing(h);
    }
}

/// Searches the subtree rooted at node `idx`, offering to `heap` every vector
/// it visits, as `search_result` describes.
#[verifier::rlimit(60)]
#[verifier::spinoff_prover]
fn search_node<F: Fn(i64, i64, i64) -> bool>(
    nodes: &[Node],
    vectors: &[u8],
    query: &[i32],
    heap: &mut Vec<Result>,
    idx: usize,
    visit_far: &F,
)
    requires
        subtree_ok(nodes@, idx as int, vector_count(vectors@)),
        query_ok(query@),
        old(heap)@.len() <= usize::MAX / 4,
        forall|d: i64, t: i64, w: i64| visit_far.requires((d, t, w)),
    ensures
        forall|answer: spec_fn(i64, i64, i64) -> bool| #[trigger]
            answers_as(visit_far, answer) ==> final(heap)@ == search_result(
                nodes@,
                query@,
                vectors@,
                idx as int,
                old(heap)@,
                answer,
            ),
        final(heap)@.len() <= usize::MAX / 4,
        valid_heap(old(heap)@) ==> valid_heap(final(heap)@),
        valid_heap(old(heap)@) ==> exists|c: Multiset<Result>|
            searched(c, nodes@, query@, vectors@, idx as int) && keeps_nearest(old(heap)@, c, final(heap)@),
        valid_heap(old(heap)@) && prunes_soundly(nodes@, query@, vectors@, visit_far) ==> keeps_nearest(
            old(heap)@,
            subtree_candidates(nodes@, query@, vectors@, idx as int),
            final(heap)@,
        ),
    decreases nodes@.len() - idx,
{
    broadcast use vstd::multiset::group_multiset_axioms;

    let ghost h0 = heap@;
    let n = nodes[idx];
    if n.right_child_idx == -1 {
        let lo = n.range_lo as usize;
        let hi = n.range_hi as usize;
        let ghost mut c = Multiset::<Result>::empty();
        proof {
            if valid_heap(h0) {
                lemma_keeps_nearest_nothing(h0);
            }
        }
        let mut i = lo;
        while i < hi
            invariant
                lo <= i,
                hi <= u32::MAX,
                lo < hi ==> i <= hi && (hi as int) <= vector_count(vectors@),
                hi <= lo ==> i == lo,
                query_ok(query@),
                heap@.len() <= usize::MAX / 4,
                heap@ == push_range(h0, query@, vectors@, lo as int, i as int),
                c == range_candidates(query@, vectors@, lo as int, i as int),
                all_genuine(c, query@, vectors@),
                valid_heap(h0) ==> valid_heap(heap@) && keeps_nearest(h0, c, heap@),
            decreases hi - i,
        {
            let d = dist_sq(query, vectors, i);
            let ghost h1 = heap@;
            let ghost x = Result { distance: d, index: i as u32 };
            push_heap(heap, d, i as u32);
            proof {
                assert(x == candidate(query@, vectors@, i as int));
                if valid_heap(h0) {
                    lemma_keeps_nearest_chain(h0, c, h1, Multiset::singleton(x), heap@);
                }
                assert forall|y: Result| #[trigger] c.add(Multiset::singleton(x)).count(y) > 0 implies genuine(
                    y,
                    query@,
                    vectors@,
                ) by {
                    if y != x {
                        assert(Multiset::singleton(x).count(y) == 0);
                        assert(c.count(y) > 0);
                    }
                }
                c = c.add(Multiset::singleton(x));
            }
            i = i + 1;
        }
        proof {
            if hi <= lo {
                assert(c =~= range_candidates(query@, vectors@, lo as int, hi as int));
            }
            assert(searched(c, nodes@, query@, vectors@, idx as int));
            assert forall|answer: spec_fn(i64, i64, i64) -> bool| answers_as(visit_far, answer) implies heap@
                == search_result(nodes@, query@, vectors@, idx as int, h0, answer) by {}
        }
        return;
    }
    let pivot_idx = n.range_lo as usize;
    let d = dist_sq(query, vectors, pivot_idx);
    let ghost x = Result { distance: d, index: pivot_idx as u32 };
    assert(x == candidate(query@, vectors@, pivot_idx as int));
    push_heap(heap, d, pivot_idx as u32);
    let ghost h1 = heap@;

    let left_idx = idx + 1;
    let right_idx = n.right_child_idx as usize;
    let threshold = n.threshold_sq;

    let ghost inside = subtree_candidates(nodes@, query@, vectors@, left_idx as int);
    let ghost outside = subtree_candidates(nodes@, query@, vectors@, right_idx as int);
    let ghost whole = Multiset::singleton(x).add(inside).add(outside);
    assert(subtree_candidates(nodes@, query@, vectors@, idx as int) == whole);
    let ghost near_path = near_path_candidates(
        nodes@,
        query@,
        vectors@,
        if d < threshold { left_idx as int } else { right_idx as int },
    );
    assert(near_path_candidates(nodes@, query@, vectors@, idx as int) == Multiset::singleton(x).add(near_path));

    let (near_idx, far_idx) = if d < threshold {
        (left_idx, right_idx)
    } else {
        (right_idx, left_idx)
    };
    assert(near_idx == near_child(nodes@, query@, vectors@, idx as int));
    assert(far_idx == far_child(nodes@, query@, vectors@, idx as int));
    search_node(nodes, vectors, query, heap, near_idx, visit_far);
    let ghost h2 = heap@;
    let ghost mut c = Multiset::singleton(x);
    proof {
        if valid_heap(h0) {
            let c2 = choose|c: Multiset<Result>|
                searched(c, nodes@, query@, vectors@, near_idx as int) && keeps_nearest(h1, c, h2);
            lemma_keeps_nearest_chain(h0, Multiset::singleton(x), h1, c2, h2);
            c = Multiset::singleton(x).add(c2);
            assert(c.subset_of(whole));
            assert(near_path_candidates(nodes@, query@, vectors@, idx as int).subset_of(c));
            if prunes_soundly(nodes@, query@, vectors@, visit_far) {
                lemma_keeps_nearest_chain(
                    h0,
                    Multiset::singleton(x),
                    h1,
                    subtree_candidates(nodes@, query@, vectors@, near_idx as int),
                    h2,
                );
            }
        }
    }

    let worst_sq = if heap.len() >= KNN {
        heap[0].distance
    } else {
        i64::MAX
    };
    assert(worst_sq == worst_of(h2));
    let go_far = visit_far(d, threshold, worst_sq);
    if go_far {
        search_node(nodes, vectors, query, heap, far_idx, visit_far);
        proof {
            assert forall|answer: spec_fn(i64, i64, i64) -> bool| answers_as(visit_far, answer) implies heap@
                == search_result(nodes@, query@, vectors@, idx as int, h0, answer) by {
                assert(h2 == search_result(nodes@, query@, vectors@, near_idx as int, h1, answer));
                assert(visit_far.ensures((d, threshold, worst_sq), go_far));
                assert(answer(d, threshold, worst_sq) == go_far);
                assert(heap@ == search_result(nodes@, query@, vectors@, far_idx as int, h2, answer));
            }
            if valid_heap(h0) {
                let c3 = choose|c: Multiset<Result>|
                    searched(c, nodes@, query@, vectors@, far_idx as int) && keeps_nearest(h2, c, heap@);
                lemma_keeps_nearest_chain(h0, c, h2, c3, heap@);
                assert forall|y: Result| #[trigger] c.add(c3).count(y) > 0 implies genuine(
                    y,
                    query@,
                    vectors@,
                ) by {
                    if c.count(y) == 0 {
                        assert(c3.count(y) > 0);
                    }
                }
                assert(c.add(c3).subset_of(whole));
                c = c.add(c3);
                assert(searched(c, nodes@, query@, vectors@, idx as int));
                if prunes_soundly(nodes@, query@, vectors@, visit_far) {
                    let sn = subtree_candidates(nodes@, query@, vectors@, near_idx as int);
                    let sf = subtree_candidates(nodes@, query@, vectors@, far_idx as int);
                    lemma_keeps_nearest_chain(h0, Multiset::singleton(x).add(sn), h2, sf, heap@);
                    assert(Multiset::singleton(x).add(sn).add(sf) =~= whole);
                }
            }
        }
    } else {
        proof {
            assert forall|answer: spec_fn(i64, i64, i64) -> bool| answers_as(visit_far, answer) implies heap@
                == search_result(nodes@, query@, vectors@, idx as int, h0, answer) by {
                assert(h2 == search_result(nodes@, query@, vectors@, near_idx as int, h1, answer));
                assert(visit_far.ensures((d, threshold, worst_sq), go_far));
                assert(answer(d, threshold, worst_sq) == go_far);
            }
            if valid_heap(h0) {
                assert(searched(c, nodes@, query@, vectors@, idx as int));
                if prunes_soundly(nodes@, query@, vectors@, visit_far) {
                    let sn = subtree_candidates(nodes@, query@, vectors@, near_idx as int);
                    let sf = subtree_candidates(nodes@, query@, vectors@, far_idx as int);
                    lemma_subtree_candidates_below_max(nodes@, query@, vectors@, far_idx as int);
                    assert(visit_far.ensures(
                        (
                            candidate(query@, vectors@, nodes@[idx as int].range_lo as int).distance,
                            nodes@[idx as int].threshold_sq,
                            worst_sq,
                        ),
                        false,
                    ));
                    lemma_keeps_nearest_beyond(h2, sf);
                    lemma_keeps_nearest_chain(h0, Multiset::singleton(x).add(sn), h2, sf, heap@);
                    assert(Multiset::singleton(x).add(sn).add(sf) =~= whole);
                }
            }
        }
    }
}

/// Whether the tree can be searched over these vectors: `tree_ok`, tested.
pub fn tree_is_valid(nodes: &[Node], vectors: &[u8]) -> (ok: bool)
    ensures
        ok == tree_ok(nodes@, vector_count(vectors@)),
{
    tree_fits(nodes, vectors.len() / VEC_BYTES)
}

/// Whether a search from the root reaches only the first `count` stored
/// items: `tree_ok`, tested. The nodes are checked from the last to the
/// first, so that both children of a node are known before the node itself.
pub fn tree_fits(nodes: &[Node], count: usize) -> (ok: bool)
    ensures
        ok == tree_ok(nodes@, count as int),
{
    let len = nodes.len();
    if len == 0 {
        return false;
    }
    let mut fits: Vec<bool> = Vec::with_capacity(len);
    let mut k: usize = 0;
    while k < len
        invariant
            k <= len,
            fits@.len() == k,
        decreases len - k,
    {
        fits.push(false);
        k = k + 1;
    }
    let mut i: usize = len;
    while i > 0
        invariant
            len == nodes@.len(),
            i <= len,
            fits@.len() == len,
            forall|j: int| i <= j < len ==> #[trigger] fits@[j] == subtree_ok(nodes@, j, count as int),
        decreases i,
    {
        i = i - 1;
        let n = nodes[i];
        let ok = if n.right_child_idx == -1 {
            n.range_lo >= n.range_hi || (n.range_hi as usize) <= count
        } else if (n.range_lo as usize) < count && i + 1 < len && n.right_child_idx >= 0
            && i < (n.right_child_idx as usize) && (n.right_child_idx as usize) < len {
            fits[i + 1] && fits[n.right_child_idx as usize]
        } else {
            false
        };
        assert(ok == subtree_ok(nodes@, i as int, count as int));
        fits.set(i, ok);
    }
    fits[0]
}

/// Finds the `KNN` stored vectors nearest to the query, as far as the search
/// reaches: the heap starts empty and ends as `search_result` describes.
/// When the visiting test never turns away a nearer vector, every vector of
/// the tree is taken into account and the result holds its `KNN` nearest.
pub fn search_vptree<F: Fn(i64, i64, i64) -> bool>(
    nodes: &[Node],
    vectors: &[u8],
    query: &[i32],
    visit_far: &F,
) -> (heap: Vec<Result>)
    requires
        tree_ok(nodes@, vector_count(vectors@)),
        query_ok(query@),
        forall|d: i64, t: i64, w: i64| visit_far.requires((d, t, w)),
    ensures
        forall|answer: spec_fn(i64, i64, i64) -> bool| #[trigger]
            answers_as(visit_far, answer) ==> heap@ == search_result(
                nodes@,
                query@,
                vectors@,
                0,
                Seq::empty(),
                answer,
            ),
        valid_heap(heap@),
        forall|j: int| 0 <= j < heap@.len() ==> genuine(#[trigger] heap@[j], query@, vectors@),
        exists|c: Multiset<Result>|
            searched(c, nodes@, query@, vectors@, 0) && keeps_nearest(Seq::empty(), c, heap@),
        prunes_soundly(nodes@, query@, vectors@, visit_far) ==> keeps_nearest(
            Seq::empty(),
            subtree_candidates(nodes@, query@, vectors@, 0),
            heap@,
        ),
{
    let mut heap: Vec<Result> = Vec::with_capacity(KNN);
    assert(valid_heap(heap@));
    search_node(nodes, vectors, query, &mut heap, 0, visit_far);
    proof {
        let c = choose|c: Multiset<Result>|
            searched(c, nodes@, query@, vectors@, 0) && keeps_nearest(Seq::<Result>::empty(), c, heap@);
        lemma_entries_genuine(Seq::empty(), c, heap@, query@, vectors@);
    }
    heap
}

/// Searches as `search_vptree` does, offering the vectors found to the heap
/// the caller passes in.
pub fn search_into<F: Fn(i64, i64, i64) -> bool>(
    nodes: &[Node],
    vectors: &[u8],
    query: &[i32],
    heap: &mut Vec<Result>,
    visit_far: &F,
)
    requires
        tree_ok(nodes@, vector_count(vectors@)),
        query_ok(query@),
        old(heap)@.len() <= usize::MAX / 4,
        forall|d: i64, t: i64, w: i64| visit_far.requires((d, t, w)),
    ensures
        forall|answer: spec_fn(i64, i64, i64) -> bool| #[trigger]
            answers_as(visit_far, answer) ==> final(heap)@ == search_result(
                nodes@,
                query@,
                vectors@,
                0,
                old(heap)@,
                answer,
            ),
        valid_heap(old(heap)@) ==> valid_heap(final(heap)@),
        valid_heap(old(heap)@) ==> exists|c: Multiset<Result>|
            searched(c, nodes@, query@, vectors@, 0) && keeps_nearest(old(heap)@, c, final(heap)@),
        valid_heap(old(heap)@) && prunes_soundly(nodes@, query@, vectors@, visit_far) ==> keeps_nearest(
            old(heap)@,
            subtree_candidates(nodes@, query@, vectors@, 0),
            final(heap)@,
        ),
        valid_heap(old(heap)@) && (forall|j: int|
            0 <= j < old(heap)@.len() ==> genuine(#[trigger] old(heap)@[j], query@, vectors@)) ==> forall|j: int|
            0 <= j < final(heap)@.len() ==> genuine(#[trigger] final(heap)@[j], query@, vectors@),
{
    let ghost h0 = heap@;
    search_node(nodes, vectors, query, heap, 0, visit_far);
    proof {
        if valid_heap(h0) && forall|j: int| 0 <= j < h0.len() ==> genuine(#[trigger] h0[j], query@, vectors@) {
            let c = choose|c: Multiset<Result>|
                searched(c, nodes@, query@, vectors@, 0) && keeps_nearest(h0, c, heap@);
            lemma_entries_genuine(h0, c, heap@, query@, vectors@);
        }
    }
}

proof fn lemma_entries_genuine(
    before: Seq<Result>,
    c: Multiset<Result>,
    after: Seq<Result>,
    query: Seq<i32>,
    vectors: Seq<u8>,
)
    requires
        forall|j: int| 0 <= j < before.len() ==> genuine(#[trigger] before[j], query, vectors),
        all_genuine(c, query, vectors),
        keeps_nearest(before, c, after),
    ensures
        forall|j: int| 0 <= j < after.len() ==> genuine(#[trigger] after[j], query, vectors),
{
    broadcast use vstd::seq_lib::group_to_multiset_ensures;
    broadcast use vstd::multiset::group_multiset_axioms;

    assert forall|j: int| 0 <= j < after.len() implies genuine(#[trigger] after[j], query, vectors) by {
        let x = after[j];
        assert(after.contains(x));
        assert(after.to_multiset().count(x) > 0);
        assert(before.to_multiset().add(c).count(x) > 0);
        if c.count(x) == 0 {
            assert(before.to_multiset().count(x) > 0);
            assert(before.contains(x));
            let k = choose|k: int| 0 <= k < before.len() && before[k] == x;
            assert(genuine(before[k], query, vectors));
        }
    }
}

/// Bytes taken by one node in the tree file.
pub const NODE_BYTES: usize = 20;

/// The node stored at position `i` of the tree body: threshold (`i64`), range
/// (two `u32`) and outside child (`i32`), all little-endian.
pub open spec fn node_at(body: Seq<u8>, i: int) -> Node {
    let off = i * 20;
    Node {
        threshold_sq: le_i64_at(body, off) as i64,
        range_lo: le_u32_at(body, off + 8) as u32,
        range_hi: le_u32_at(body, off + 12) as u32,
        right_child_idx: le_i32_at(body, off + 16) as i32,
    }
}

/// Every whole node of the tree body, in order.
pub open spec fn body_nodes(body: Seq<u8>) -> Seq<Node> {
    Seq::new(body.len() / 20, |i: int| node_at(body, i))
}

/// Byte `k` (0 the lowest) of `x`.
pub open spec fn byte_of(x: u64, k: int) -> u8 {
    ((x >> ((8 * k) as u64)) & 0xff) as u8
}

/// Byte `k` of the 20 bytes that store node `n` in the tree body.
pub open spec fn node_byte(n: Node, k: int) -> u8 {
    if k < 8 {
        byte_of(n.threshold_sq as u64, k)
    } else if k < 12 {
        byte_of(n.range_lo as u64, k - 8)
    } else if k < 16 {
        byte_of(n.range_hi as u64, k - 12)
    } else {
        byte_of((n.right_child_idx as u32) as u64, k - 16)
    }
}

/// The tree body that stores `nodes`, one after the other.
pub open spec fn encode_nodes(nodes: Seq<Node>) -> Seq<u8> {
    Seq::new((nodes.len() * 20) as nat, |j: int| node_byte(nodes[j / 20], j % 20))
}

proof fn lemma_node_offset(i: int, k: int)
    requires
        0 <= i,
        0 <= k < 20,
    ensures
        (i * 20 + k) / 20 == i,
        (i * 20 + k) % 20 == k,
{
    assert((i * 20 + k) / 20 == i && (i * 20 + k) % 20 == k) by (nonlinear_arith)
        requires
            0 <= i,
            0 <= k < 20,
    ;
}

proof fn lemma_node_bytes_decode(n: Node)
    ensures
        ({
            let b = Seq::new(20, |k: int| node_byte(n, k));
            node_at(b, 0) == n
        }),
{
    let b = Seq::new(20, |k: int| node_byte(n, k));
    let t = n.threshold_sq as u64;
    let lo = n.range_lo as u64;
    let hi = n.range_hi as u64;
    let r = (n.right_child_idx as u32) as u64;
    assert(b[0] == byte_of(t, 0) && b[1] == byte_of(t, 1) && b[2] == byte_of(t, 2) && b[3] == byte_of(t, 3));
    assert(b[4] == byte_of(t, 4) && b[5] == byte_of(t, 5) && b[6] == byte_of(t, 6) && b[7] == byte_of(t, 7));
    assert(b[8] == byte_of(lo, 0) && b[9] == byte_of(lo, 1) && b[10] == byte_of(lo, 2) && b[11] == byte_of(lo, 3));
    assert(b[12] == byte_of(hi, 0) && b[13] == byte_of(hi, 1) && b[14] == byte_of(hi, 2) && b[15] == byte_of(hi, 3));
    assert(b[16] == byte_of(r, 0) && b[17] == byte_of(r, 1) && b[18] == byte_of(r, 2) && b[19] == byte_of(r, 3));
    let thr = n.threshold_sq;
    assert(({
        let u = (((t >> 0u64) & 0xff) as u8) + 0x100 * (((t >> 8u64) & 0xff) as u8) + 0x1_0000 * (((t >> 16u64) & 0xff) as u8)
            + 0x100_0000 * (((t >> 24u64) & 0xff) as u8) + 0x1_0000_0000 * ((((t >> 32u64) & 0xff) as u8)
            + 0x100 * (((t >> 40u64) & 0xff) as u8) + 0x1_0000 * (((t >> 48u64) & 0xff) as u8) + 0x100_0000
            * (((t >> 56u64) & 0xff) as u8));
        (if u >= 0x8000_0000_0000_0000 { u - 0x1_0000_0000_0000_0000 } else { u }) == thr
    })) by (bit_vector)
        requires
            t == thr as u64,
    ;
    assert((((lo >> 0u64) & 0xff) as u8) + 0x100 * (((lo >> 8u64) & 0xff) as u8) + 0x1_0000 * (((lo >> 16u64) & 0xff) as u8)
        + 0x100_0000 * (((lo >> 24u64) & 0xff) as u8) == lo) by (bit_vector)
        requires
            lo < 0x1_0000_0000,
    ;
    assert((((hi >> 0u64) & 0xff) as u8) + 0x100 * (((hi >> 8u64) & 0xff) as u8) + 0x1_0000 * (((hi >> 16u64) & 0xff) as u8)
        + 0x100_0000 * (((hi >> 24u64) & 0xff) as u8) == hi) by (bit_vector)
        requires
            hi < 0x1_0000_0000,
    ;
    let rc = n.right_child_idx;
    assert(({
        let u = (((r >> 0u64) & 0xff) as u8) + 0x100 * (((r >> 8u64) & 0xff) as u8) + 0x1_0000 * (((r >> 16u64) & 0xff) as u8)
            + 0x100_0000 * (((r >> 24u64) & 0xff) as u8);
        (if u >= 0x8000_0000 { u - 0x1_0000_0000 } else { u }) == rc
    })) by (bit_vector)
        requires
            r == (rc as u32) as u64,
    ;
}

/// Decoding the bytes that store a sequence of nodes gives the nodes back.
pub proof fn lemma_decode_encoded_nodes(nodes: Seq<Node>)
    ensures
        encode_nodes(nodes).len() == 20 * nodes.len(),
        body_nodes(encode_nodes(nodes)) == nodes,
{
    let body = encode_nodes(nodes);
    assert((nodes.len() * 20) / 20 == nodes.len()) by (nonlinear_arith);
    assert forall|i: int| 0 <= i < nodes.len() implies #[trigger] node_at(body, i) == nodes[i] by {
        let b = Seq::new(20, |k: int| node_byte(nodes[i], k));
        assert forall|k: int| 0 <= k < 20 implies body[i * 20 + k] == b[k] by {
            lemma_node_offset(i, k);
            assert(i * 20 + k < nodes.len() * 20) by (nonlinear_arith)
                requires
                    0 <= i < nodes.len(),
                    0 <= k < 20,
            ;
        }
        lemma_node_bytes_decode(nodes[i]);
        assert(node_at(body, i) == node_at(b, 0));
    }
    assert(body_nodes(body) =~= nodes);
}

/// The tree header has magic `VPT2`, version 1 and covers `expected` vectors.
pub open spec fn tree_header_ok(header: Seq<u8>, expected: u32) -> bool {
    &&& has_magic(header, 0x56, 0x50, 0x54, 0x32)
    &&& le_u32_at(header, 4) == 1
    &&& le_u32_at(header, 12) == expected
}

/// The tree body is a non-empty run of whole nodes whose root covers the
/// vectors `0..total`.
pub open spec fn tree_body_ok(body: Seq<u8>, total: int) -> bool {
    &&& body.len() % 20 == 0
    &&& body.len() > 0
    &&& node_at(body, 0).range_lo == 0
    &&& node_at(body, 0).range_hi == total
}

proof fn lemma_node_in_body(len: int, i: int)
    requires
        0 <= i < len / 20,
        0 <= len,
    ensures
        i * 20 + 20 <= len,
{
    assert(i * 20 + 20 <= len) by (nonlinear_arith)
        requires
            0 <= i < len / 20,
            0 <= len,
    ;
}

/// Checks the 16-byte header of the tree file against the number of vectors
/// the vector file holds: magic `VPT2`, version 1, same vector count. Gives
/// the bucket size the header records.
pub fn parse_tree_header(header: &[u8], expected_count: u32) -> (r: std::result::Result<u32, FormatError>)
    requires
        header@.len() == 16,
    ensures
        !has_magic(header@, 0x56, 0x50, 0x54, 0x32) ==> r == Err::<u32, FormatError>(FormatError::BadMagic),
        has_magic(header@, 0x56, 0x50, 0x54, 0x32) && !tree_header_ok(header@, expected_count) ==> r
            == Err::<u32, FormatError>(FormatError::VersionOrCount),
        tree_header_ok(header@, expected_count) ==> r == Ok::<u32, FormatError>(le_u32_at(header@, 8) as u32),
{
    // "VPT2"
    if !(header[0] == 0x56 && header[1] == 0x50 && header[2] == 0x54 && header[3] == 0x32) {
        return Err(FormatError::BadMagic);
    }
    let version = read_u32_le(header, 4);
    let bucket = read_u32_le(header, 8);
    let total = read_u32_le(header, 12);
    if version != 1 || total != expected_count {
        return Err(FormatError::VersionOrCount);
    }
    Ok(bucket)
}

/// Decodes the body of the tree file into nodes, checking that it is a
/// whole number of nodes and that the root covers the vectors `0..total`.
pub fn parse_tree_body(body: &[u8], total: u32) -> (r: std::result::Result<Vec<Node>, FormatError>)
    ensures
        body@.len() % 20 != 0 ==> r == Err::<Vec<Node>, FormatError>(FormatError::BodySize),
        body@.len() % 20 == 0 && !tree_body_ok(body@, total as int) ==> r == Err::<Vec<Node>, FormatError>(
            FormatError::MalformedRoot,
        ),
        tree_body_ok(body@, total as int) ==> (r matches Ok(nodes) && nodes@ == body_nodes(body@)),
{
    let len = body.len();
    if len % NODE_BYTES != 0 {
        return Err(FormatError::BodySize);
    }
    let n = len / NODE_BYTES;
    let mut nodes: Vec<Node> = Vec::with_capacity(n);
    let mut i: usize = 0;
    while i < n
        invariant
            len == body@.len(),
            n == len / 20,
            i <= n,
            nodes@.len() == i,
            forall|j: int| 0 <= j < i ==> #[trigger] nodes@[j] == node_at(body@, j),
        decreases n - i,
    {
        proof {
            lemma_node_in_body(len as int, i as int);
        }
        let off = i * NODE_BYTES;
        nodes.push(
            Node {
                threshold_sq: read_i64_le(body, off),
                range_lo: read_u32_le(body, off + 8),
                range_hi: read_u32_le(body, off + 12),
                right_child_idx: read_i32_le(body, off + 16),
            },
        );
        i = i + 1;
    }
    assert(nodes@ =~= body_nodes(body@));
    if n == 0 || nodes[0].range_lo != 0 || nodes[0].range_hi != total {
        return Err(FormatError::MalformedRoot);
    }
    Ok(nodes)
}

/// Decodes the tree file from its 16-byte header and its body, checking it
/// against the number of vectors the vector file holds. Gives the nodes and
/// the bucket size that the header records.
pub fn parse_vptree(header: &[u8], body: &[u8], expected_count: u32) -> (r: std::result::Result<
    (Vec<Node>, u32),
    FormatError,
>)
    requires
        header@.len() == 16,
    ensures
        !has_magic(header@, 0x56, 0x50, 0x54, 0x32) ==> r == Err::<(Vec<Node>, u32), FormatError>(
            FormatError::BadMagic,
        ),
        has_magic(header@, 0x56, 0x50, 0x54, 0x32) && !tree_header_ok(header@, expected_count) ==> r
            == Err::<(Vec<Node>, u32), FormatError>(FormatError::VersionOrCount),
        tree_header_ok(header@, expected_count) && body@.len() % 20 != 0 ==> r == Err::<
            (Vec<Node>, u32),
            FormatError,
        >(FormatError::BodySize),
        tree_header_ok(header@, expected_count) && body@.len() % 20 == 0 && !tree_body_ok(
            body@,
            expected_count as int,
        ) ==> r == Err::<(Vec<Node>, u32), FormatError>(FormatError::MalformedRoot),
        tree_header_ok(header@, expected_count) && tree_body_ok(body@, expected_count as int) ==> (r matches Ok(
            (nodes, bucket),
        ) && nodes@ == body_nodes(body@) && bucket == le_u32_at(header@, 8)),
{
    let bucket = match parse_tree_header(header, expected_count) {
        Ok(b) => b,
        Err(e) => return Err(e),
    };
    match parse_tree_body(body, expected_count) {
        Ok(nodes) => Ok((nodes, bucket)),
        Err(e) => Err(e),
    }
}

} // verus!
