use vstd::prelude::*;
use vstd::multiset::Multiset;

verus! {

/// How many nearest neighbours a search keeps.
pub const KNN: usize = 5;

/// A candidate neighbour: the index of a reference vector and its squared
/// distance to the query.
#[derive(Clone, Copy)]
pub struct Result {
    pub distance: i64,
    pub index: u32,
}

/// Every entry is no farther than its parent: the entry at position 0 has the
/// greatest distance.
pub open spec fn is_max_heap(s: Seq<Result>) -> bool {
    forall|j: int| 0 < j < s.len() ==> #[trigger] s[j].distance <= s[(j - 1) / 2].distance
}

/// A heap as a search keeps it: ordered as a max-heap and holding at most
/// `KNN` entries.
pub open spec fn valid_heap(s: Seq<Result>) -> bool {
    &&& s.len() <= KNN
    &&& is_max_heap(s)
}

/// What a heap holds after a candidate is offered to it: while there is room
/// the candidate is added; once full, the candidate replaces the farthest
/// entry (the one at the root) when it is strictly closer, and is dropped
/// otherwise.
pub open spec fn offered(s: Seq<Result>, distance: i64, index: u32) -> Multiset<Result> {
    let c = Result { distance, index };
    if s.len() < KNN {
        s.to_multiset().insert(c)
    } else if distance < s[0].distance {
        s.to_multiset().remove(s[0]).insert(c)
    } else {
        s.to_multiset()
    }
}

/// The distance an offered candidate must beat to enter the heap: the root's
/// distance once the heap is full, and above every `i64` while there is room.
pub open spec fn entry_bound(s: Seq<Result>) -> int {
    if s.len() < KNN {
        i64::MAX + 1
    } else {
        s[0].distance as int
    }
}

/// `after` is what a heap holding `before` keeps once the candidates `cands`
/// have been offered to it: it holds `KNN` entries or all of them, every entry
/// comes from `before` or `cands`, every entry left out is no closer than the
/// bound of `after` (so nothing is left out while there is room), and that
/// bound never grows.
pub open spec fn keeps_nearest(before: Seq<Result>, cands: Multiset<Result>, after: Seq<Result>) -> bool {
    let pool = before.to_multiset().add(cands);
    &&& after.len() == if before.len() + cands.len() < KNN {
        before.len() + cands.len()
    } else {
        KNN as nat
    }
    &&& forall|x: Result| #[trigger] after.to_multiset().count(x) <= pool.count(x)
    &&& forall|x: Result|
        #[trigger] after.to_multiset().count(x) < pool.count(x) ==> x.distance >= entry_bound(after)
    &&& entry_bound(after) <= entry_bound(before)
}

/// In a max-heap no entry is farther than the root.
pub proof fn lemma_root_is_farthest(s: Seq<Result>, j: int)
    requires
        is_max_heap(s),
        0 <= j < s.len(),
    ensures
        s[j].distance <= s[0].distance,
    decreases j,
{
    if j > 0 {
        lemma_root_is_farthest(s, (j - 1) / 2);
    }
}

proof fn lemma_member_within_root(s: Seq<Result>, x: Result)
    requires
        is_max_heap(s),
        s.to_multiset().count(x) > 0,
    ensures
        x.distance <= s[0].distance,
{
    broadcast use vstd::seq_lib::group_to_multiset_ensures;

    assert(s.contains(x));
    let j = choose|j: int| 0 <= j < s.len() && s[j] == x;
    lemma_root_is_farthest(s, j);
}

/// Offering no candidate keeps a heap as it is.
pub proof fn lemma_keeps_nearest_nothing(s: Seq<Result>)
    requires
        valid_heap(s),
    ensures
        keeps_nearest(s, Multiset::empty(), s),
{
    broadcast use vstd::multiset::group_multiset_axioms;

    assert(s.to_multiset().add(Multiset::empty()) =~= s.to_multiset());
}

/// Offering two batches of candidates one after the other keeps what offering
/// both batches at once keeps.
pub proof fn lemma_keeps_nearest_chain(
    a: Seq<Result>,
    c1: Multiset<Result>,
    b: Seq<Result>,
    c2: Multiset<Result>,
    e: Seq<Result>,
)
    requires
        keeps_nearest(a, c1, b),
        keeps_nearest(b, c2, e),
    ensures
        keeps_nearest(a, c1.add(c2), e),
{
    broadcast use vstd::multiset::group_multiset_axioms;

    let pool = a.to_multiset().add(c1.add(c2));
    assert forall|x: Result| #[trigger] e.to_multiset().count(x) <= pool.count(x) by {
        assert(e.to_multiset().count(x) <= b.to_multiset().count(x) + c2.count(x));
        assert(b.to_multiset().count(x) <= a.to_multiset().count(x) + c1.count(x));
    }
    assert forall|x: Result| #[trigger] e.to_multiset().count(x) < pool.count(x) implies x.distance
        >= entry_bound(e) by {
        if b.to_multiset().count(x) < a.to_multiset().add(c1).count(x) {
        } else {
            assert(e.to_multiset().count(x) < b.to_multiset().add(c2).count(x));
        }
    }
}

/// A candidate offered to a heap as `offered` describes is kept as
/// `keeps_nearest` describes.
proof fn lemma_offered_keeps_nearest(s: Seq<Result>, t: Seq<Result>, d: i64, idx: u32)
    requires
        valid_heap(s),
        valid_heap(t),
        t.to_multiset() == offered(s, d, idx),
    ensures
        keeps_nearest(s, Multiset::singleton(Result { distance: d, index: idx }), t),
{
    broadcast use vstd::seq_lib::group_to_multiset_ensures;
    broadcast use vstd::multiset::group_multiset_axioms;

    let c = Result { distance: d, index: idx };
    let pool = s.to_multiset().add(Multiset::singleton(c));
    assert(s.to_multiset().insert(c) =~= pool);
    assert(t.to_multiset().len() == t.len());
    assert(s.to_multiset().len() == s.len());
    assert(Multiset::singleton(c).len() == 1);
    if t.len() > 0 {
        assert(t.to_multiset().count(t[0]) > 0);
    }
    if s.len() < KNN {
        assert(t.to_multiset() =~= pool);
    } else if d < s[0].distance {
        let m = s.to_multiset();
        let one = Multiset::singleton(s[0]);
        assert(m.count(s[0]) > 0);
        assert(one.count(s[0]) == 1);
        assert(one.subset_of(m)) by {
            assert forall|x: Result| #[trigger] one.count(x) <= m.count(x) by {
                if x != s[0] {
                    assert(one.count(x) == 0);
                }
            }
        }
        assert(m.remove(s[0]).len() == m.len() - 1);
        assert(m.remove(s[0]).insert(c).len() == m.remove(s[0]).len() + 1);
        assert(t.len() == KNN);
        assert forall|x: Result| x != c implies #[trigger] t.to_multiset().count(x) <= m.count(x) by {
            assert(Multiset::singleton(c).count(x) == 0);
            assert(m.sub(one).count(x) <= m.count(x));
        }
        if t[0] != c {
            lemma_member_within_root(s, t[0]);
        }
        assert forall|x: Result| #[trigger] t.to_multiset().count(x) < pool.count(x) implies x.distance
            >= entry_bound(t) by {
            if x != s[0] {
                assert(one.count(x) == 0);
                assert(m.sub(one).count(x) == m.count(x));
                if x == c {
                    assert(Multiset::singleton(c).count(x) == 1);
                } else {
                    assert(Multiset::singleton(c).count(x) == 0);
                }
            }
        }
    } else {
        lemma_member_within_root(s, t[0]);
        assert forall|x: Result| #[trigger] t.to_multiset().count(x) < pool.count(x) implies x.distance
            >= entry_bound(t) by {
            assert(x == c);
        }
    }
}

proof fn lemma_swap_multiset(s: Seq<Result>, i: int, j: int)
    requires
        0 <= i < s.len(),
        0 <= j < s.len(),
    ensures
        s.update(i, s[j]).update(j, s[i]).to_multiset() =~= s.to_multiset(),
{
    broadcast use vstd::seq_lib::group_to_multiset_ensures;

    let t = s.update(i, s[j]);
    assert(t.to_multiset() =~= s.to_multiset().insert(s[j]).remove(s[i]));
    assert(t.update(j, s[i]).to_multiset() =~= t.to_multiset().insert(s[i]).remove(t[j]));
}

fn swap_entries(heap: &mut Vec<Result>, i: usize, j: usize)
    requires
        i < old(heap).len(),
        j < old(heap).len(),
    ensures
        final(heap)@ == old(heap)@.update(i as int, old(heap)@[j as int]).update(
            j as int,
            old(heap)@[i as int],
        ),
        final(heap)@.to_multiset() == old(heap)@.to_multiset(),
{
    proof {
        lemma_swap_multiset(heap@, i as int, j as int);
    }
    let a = heap[i];
    let b = heap[j];
    heap.set(i, b);
    heap.set(j, a);
}

/// `s` with the entries at `i` and `j` exchanged.
pub open spec fn swap_at(s: Seq<Result>, i: int, j: int) -> Seq<Result> {
    s.update(i, s[j]).update(j, s[i])
}

/// Moves the entry at `i` up towards the root while it is farther than its
/// parent.
pub open spec fn sift_up(s: Seq<Result>, i: int) -> Seq<Result>
    decreases i,
{
    if i <= 0 || i >= s.len() {
        s
    } else {
        let p = (i - 1) / 2;
        if s[p].distance >= s[i].distance {
            s
        } else {
            sift_up(swap_at(s, p, i), p)
        }
    }
}

/// The farthest of the entry at `i` and its children, the left child first
/// and `i` itself on ties.
pub open spec fn farthest_of_family(s: Seq<Result>, i: int) -> int {
    let l = 2 * i + 1;
    let r = 2 * i + 2;
    let a = if l < s.len() && s[l].distance > s[i].distance {
        l
    } else {
        i
    };
    if r < s.len() && s[r].distance > s[a].distance {
        r
    } else {
        a
    }
}

/// Moves the entry at `i` down towards the leaves while one of its children
/// is farther, exchanging it with the farther child.
pub open spec fn sift_down(s: Seq<Result>, i: int) -> Seq<Result>
    decreases s.len() - i,
{
    if i < 0 || i >= s.len() {
        s
    } else {
        let m = farthest_of_family(s, i);
        if m == i {
            s
        } else {
            sift_down(swap_at(s, i, m), m)
        }
    }
}

/// The heap after the candidate `(distance, index)` is offered: with room it
/// is appended and sifted up; otherwise, if strictly closer than the root, it
/// replaces the root and is sifted down; otherwise the heap is unchanged.
pub open spec fn push_result(s: Seq<Result>, distance: i64, index: u32) -> Seq<Result> {
    let c = Result { distance, index };
    if s.len() < KNN {
        sift_up(s.push(c), s.len() as int)
    } else if distance < s[0].distance {
        sift_down(s.update(0, c), 0)
    } else {
        s
    }
}

/// Offers the candidate `(d, idx)` to the bounded max-heap `heap`.
pub fn push_heap(heap: &mut Vec<Result>, d: i64, idx: u32)
    requires
        old(heap)@.len() <= usize::MAX / 4,
    ensures
        final(heap)@ == push_result(old(heap)@, d, idx),
        old(heap)@.len() >= KNN && d >= old(heap)@[0].distance ==> final(heap)@ == old(heap)@,
        final(heap)@.len() == if old(heap)@.len() < KNN {
            (old(heap)@.len() + 1) as int
        } else {
            old(heap)@.len() as int
        },
        final(heap)@.to_multiset() == offered(old(heap)@, d, idx),
        valid_heap(old(heap)@) ==> valid_heap(final(heap)@),
        valid_heap(old(heap)@) ==> keeps_nearest(
            old(heap)@,
            Multiset::singleton(Result { distance: d, index: idx }),
            final(heap)@,
        ),
{
    broadcast use vstd::seq_lib::group_to_multiset_ensures;

    let ghost s0 = heap@;
    let ghost target = push_result(s0, d, idx);
    if heap.len() < KNN {
        heap.push(Result { distance: d, index: idx });
        let n = heap.len();
        let mut i = n - 1;
        while i > 0
            invariant
                n == heap.len(),
                n <= KNN,
                i < n,
                sift_up(heap@, i as int) == target,
                heap@.to_multiset() == offered(s0, d, idx),
                is_max_heap(s0) ==> forall|j: int|
                    0 < j < n && j != i ==> #[trigger] heap@[j].distance <= heap@[(j - 1) / 2].distance,
                is_max_heap(s0) && i > 0 ==> forall|j: int|
                    0 < j < n && (j - 1) / 2 == i ==> #[trigger] heap@[j].distance <= heap@[(i - 1) / 2].distance,
            ensures
                n == heap.len(),
                heap@ == target,
                heap@.to_multiset() == offered(s0, d, idx),
                is_max_heap(s0) ==> is_max_heap(heap@),
            decreases i,
        {
            let parent = (i - 1) / 2;
            if heap[parent].distance >= heap[i].distance {
                break;
            }
            swap_entries(heap, parent, i);
            i = parent;
        }
    } else if d < heap[0].distance {
        proof {
            assert(s0.to_multiset().remove(s0[0]).insert(Result { distance: d, index: idx })
                =~= s0.to_multiset().insert(Result { distance: d, index: idx }).remove(s0[0]));
        }
        heap.set(0, Result { distance: d, index: idx });
        let n = heap.len();
        let mut i: usize = 0;
        loop
            invariant
                n == heap.len(),
                n <= usize::MAX / 4,
                i < n,
                sift_down(heap@, i as int) == target,
                heap@.to_multiset() == offered(s0, d, idx),
                is_max_heap(s0) ==> forall|j: int|
                    0 < j < n && (j - 1) / 2 != i ==> #[trigger] heap@[j].distance <= heap@[(j - 1) / 2].distance,
                is_max_heap(s0) && i > 0 ==> forall|j: int|
                    0 < j < n && (j - 1) / 2 == i ==> #[trigger] heap@[j].distance <= heap@[(i - 1) / 2].distance,
            ensures
                n == heap.len(),
                heap@ == target,
                heap@.to_multiset() == offered(s0, d, idx),
                is_max_heap(s0) ==> is_max_heap(heap@),
            decreases n - i,
        {
            let l = 2 * i + 1;
            let r = 2 * i + 2;
            let mut largest = i;
            if l < n && heap[l].distance > heap[largest].distance {
                largest = l;
            }
            if r < n && heap[r].distance > heap[largest].distance {
                largest = r;
            }
            assert(largest == farthest_of_family(heap@, i as int));
            if largest == i {
                break;
            }
            swap_entries(heap, i, largest);
            i = largest;
        }
    }
    proof {
        if valid_heap(s0) {
            lemma_offered_keeps_nearest(s0, heap@, d, idx);
        }
    }
}

} // verus!
