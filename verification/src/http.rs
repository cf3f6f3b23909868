use vstd::prelude::*;
use vstd::multiset::Multiset;
use crate::heap::{keeps_nearest, valid_heap, Result};
use crate::search::{
    answers_as, lemma_subtree_candidates_index_below, prunes_soundly, query_ok, search_into, search_result, searched, subtree_candidates, tree_ok,
    vector_count, Node,
};

verus! {

/// What the request parser found in the head of a complete HTTP request.
pub struct RequestHead {
    /// Where the body starts.
    pub body_offset: usize,
    /// The request method, such as `GET`.
    pub method: Option<Vec<u8>>,
    /// The request target, such as `/ready`.
    pub path: Option<Vec<u8>>,
}

pub open spec fn opt_bytes(o: Option<Vec<u8>>) -> Option<Seq<u8>> {
    match o {
        Some(v) => Some(v@),
        None => None,
    }
}

/// What `httparse::Request::parse`, given room for `room` headers, finds in
/// `bytes`: for a complete request head, the offset of the body, the method
/// and the path; `None` for an incomplete or invalid one.
pub uninterp spec fn http_request_head(bytes: Seq<u8>, room: nat) -> Option<(nat, Option<Seq<u8>>, Option<Seq<u8>>)>;

/// `\r\n`.
pub open spec fn crlf() -> Seq<u8> {
    seq![0x0du8, 0x0a]
}

/// `HTTP/1.1`.
pub open spec fn http11() -> Seq<u8> {
    seq![0x48u8, 0x54, 0x54, 0x50, 0x2f, 0x31, 0x2e, 0x31]
}

/// The line `name: value\r\n`.
pub open spec fn header_line(name: Seq<u8>, value: Seq<u8>) -> Seq<u8> {
    name + seq![0x3au8, 0x20] + value + crlf()
}

/// The header lines, in order.
pub open spec fn header_lines(headers: Seq<(Seq<u8>, Seq<u8>)>) -> Seq<u8>
    decreases headers.len(),
{
    if headers.len() == 0 {
        Seq::empty()
    } else {
        header_lines(headers.drop_last()) + header_line(headers.last().0, headers.last().1)
    }
}

/// The head `method path HTTP/1.1\r\n`, the header lines and a blank line.
pub open spec fn request_head(method: Seq<u8>, path: Seq<u8>, headers: Seq<(Seq<u8>, Seq<u8>)>) -> Seq<u8> {
    method + seq![0x20u8] + path + seq![0x20u8] + http11() + crlf() + header_lines(headers) + crlf()
}

/// A header name of letters, digits and `-`, and a value of visible ASCII
/// bytes, neither of them empty.
pub open spec fn plain_header(name: Seq<u8>, value: Seq<u8>) -> bool {
    &&& name.len() > 0
    &&& forall|i: int|
        0 <= i < name.len() ==> {
            let c = #[trigger] name[i];
            (0x30 <= c <= 0x39) || (0x41 <= c <= 0x5a) || (0x61 <= c <= 0x7a) || c == 0x2d
        }
    &&& value.len() > 0
    &&& forall|i: int| 0 <= i < value.len() ==> 0x21 <= #[trigger] value[i] <= 0x7e
}

/// A request head that any HTTP/1.1 parser takes: an upper-case method, a
/// path of visible ASCII bytes, and at most `room` plain headers.
pub open spec fn plain_head(method: Seq<u8>, path: Seq<u8>, headers: Seq<(Seq<u8>, Seq<u8>)>, room: nat) -> bool {
    &&& method.len() > 0
    &&& forall|i: int| 0 <= i < method.len() ==> 0x41 <= #[trigger] method[i] <= 0x5a
    &&& path.len() > 0
    &&& forall|i: int| 0 <= i < path.len() ==> 0x21 <= #[trigger] path[i] <= 0x7e
    &&& headers.len() <= room
    &&& forall|j: int| 0 <= j < headers.len() ==> plain_header(#[trigger] headers[j].0, headers[j].1)
}

/// `bytes` starts with `head`.
pub open spec fn starts_with(bytes: Seq<u8>, head: Seq<u8>) -> bool {
    head.len() <= bytes.len() && bytes.subrange(0, head.len() as int) == head
}

/// Parses the head of an HTTP/1.x request with `httparse::Request::parse`
/// and room for `ROOM` headers. The contract ties the result to
/// `http_request_head` and states that the body offset lies within the
/// buffer (`httparse` counts the bytes it consumed). It also states what
/// `httparse` gives for a plain head (`plain_head`) with at most `ROOM`
/// headers, whatever follows it: the head is complete, the body starts right
/// after its blank line, and the method and path are those of the request
/// line (`parse_method`, `parse_uri`, `parse_version` and
/// `parse_headers_iter_uninit` in httparse's `lib.rs`). What other heads give
/// is left to `httparse`.
#[verifier::external_body]
fn parse_request_head<const ROOM: usize>(bytes: &[u8]) -> (r: Option<RequestHead>)
    ensures
        r is None <==> http_request_head(bytes@, ROOM as nat) is None,
        r matches Some(h) ==> http_request_head(bytes@, ROOM as nat) == Some(
            (h.body_offset as nat, opt_bytes(h.method), opt_bytes(h.path)),
        ) && h.body_offset <= bytes@.len(),
        r is None ==> forall|m: Seq<u8>, p: Seq<u8>, hs: Seq<(Seq<u8>, Seq<u8>)>|
            #[trigger] plain_head(m, p, hs, ROOM as nat) ==> !starts_with(bytes@, request_head(m, p, hs)),
        r matches Some(h) ==> forall|m: Seq<u8>, p: Seq<u8>, hs: Seq<(Seq<u8>, Seq<u8>)>|
            #[trigger] plain_head(m, p, hs, ROOM as nat) && starts_with(bytes@, request_head(m, p, hs)) ==> (
            h.body_offset == request_head(m, p, hs).len() && opt_bytes(h.method) == Some(m) && opt_bytes(h.path)
                == Some(p)),
{
    let mut headers = [httparse::EMPTY_HEADER; ROOM];
    let mut req = httparse::Request::new(&mut headers);
    match req.parse(bytes) {
        Ok(httparse::Status::Complete(body_offset)) => Some(RequestHead {
            body_offset,
            method: match req.method { Some(m) => Some(m.as_bytes().to_vec()), None => None },
            path: match req.path { Some(p) => Some(p.as_bytes().to_vec()), None => None },
        }),
        Ok(httparse::Status::Partial) => None,
        Err(_) => None,
    }
}

/// What the server does with a request.
#[derive(Clone, Copy, PartialEq, Eq, Debug)]
pub enum Route {
    /// The head is incomplete or invalid.
    BadRequest,
    /// `GET /ready`: the readiness probe.
    Ready,
    /// `POST /fraud-score`: score the transaction in the body, which starts
    /// at `body_offset`.
    FraudScore { body_offset: usize },
    /// Any other method or path.
    NotFound,
}

pub open spec fn ascii_get() -> Seq<u8> {
    seq![0x47u8, 0x45, 0x54]
}

pub open spec fn ascii_post() -> Seq<u8> {
    seq![0x50u8, 0x4f, 0x53, 0x54]
}

pub open spec fn ascii_ready_path() -> Seq<u8> {
    seq![0x2fu8, 0x72, 0x65, 0x61, 0x64, 0x79]
}

pub open spec fn ascii_fraud_score_path() -> Seq<u8> {
    seq![0x2fu8, 0x66, 0x72, 0x61, 0x75, 0x64, 0x2d, 0x73, 0x63, 0x6f, 0x72, 0x65]
}

/// The bytes of an optional field, empty when it is missing.
pub open spec fn or_empty(o: Option<Seq<u8>>) -> Seq<u8> {
    match o {
        Some(s) => s,
        None => Seq::empty(),
    }
}

/// The route for a parsed request head (`None`: no complete head).
pub open spec fn route_of(head: Option<(nat, Option<Seq<u8>>, Option<Seq<u8>>)>) -> Route {
    match head {
        None => Route::BadRequest,
        Some((body_offset, method, path)) => {
            if or_empty(method) == ascii_get() && or_empty(path) == ascii_ready_path() {
                Route::Ready
            } else if or_empty(method) == ascii_post() && or_empty(path) == ascii_fraud_score_path() {
                Route::FraudScore { body_offset: body_offset as usize }
            } else {
                Route::NotFound
            }
        }
    }
}

fn bytes_equal(a: &[u8], b: &[u8]) -> (r: bool)
    ensures
        r <==> a@ =~= b@,
{
    if a.len() != b.len() {
        return false;
    }
    let n = a.len();
    let mut i: usize = 0;
    while i < n
        invariant
            n == a@.len(),
            n == b@.len(),
            i <= n,
            forall|j: int| 0 <= j < i ==> a@[j] == b@[j],
        decreases n - i,
    {
        if a[i] != b[i] {
            return false;
        }
        i = i + 1;
    }
    assert(a@ =~= b@);
    true
}

fn field_equals(field: &Option<Vec<u8>>, expected: &[u8]) -> (r: bool)
    ensures
        r <==> or_empty(opt_bytes(*field)) =~= expected@,
{
    match field {
        Some(v) => {
            assert(or_empty(opt_bytes(*field)) == v@);
            let s = v.as_slice();
            let r = bytes_equal(s, expected);
            assert(r <==> v@ =~= expected@);
            r
        },
        None => {
            assert(or_empty(opt_bytes(*field)) =~= Seq::<u8>::empty());
            expected.len() == 0
        },
    }
}

/// Chooses the route for a parsed request head: `GET /ready` is the
/// readiness probe, `POST /fraud-score` a scoring request, anything else
/// unknown; a missing head is a bad request.
pub fn route_head(head: &Option<RequestHead>) -> (r: Route)
    ensures
        r == route_of(
            match head {
                Some(h) => Some((h.body_offset as nat, opt_bytes(h.method), opt_bytes(h.path))),
                None => None,
            },
        ),
{
    match head {
        None => Route::BadRequest,
        Some(h) => {
            let get: Vec<u8> = vec![0x47, 0x45, 0x54];
            let post: Vec<u8> = vec![0x50, 0x4f, 0x53, 0x54];
            let ready: Vec<u8> = vec![0x2f, 0x72, 0x65, 0x61, 0x64, 0x79];
            let fraud: Vec<u8> = vec![0x2f, 0x66, 0x72, 0x61, 0x75, 0x64, 0x2d, 0x73, 0x63, 0x6f, 0x72, 0x65];
            assert(get@ =~= ascii_get());
            assert(post@ =~= ascii_post());
            assert(ready@ =~= ascii_ready_path());
            assert(fraud@ =~= ascii_fraud_score_path());
            if field_equals(&h.method, get.as_slice()) && field_equals(&h.path, ready.as_slice()) {
                Route::Ready
            } else if field_equals(&h.method, post.as_slice()) && field_equals(&h.path, fraud.as_slice()) {
                Route::FraudScore { body_offset: h.body_offset }
            } else {
                Route::NotFound
            }
        },
    }
}

/// Parses the head of a request and chooses its route.
pub fn route_request(bytes: &[u8]) -> (r: (Route, Option<RequestHead>))
    ensures
        r.0 == route_of(http_request_head(bytes@, 16)),
        forall|m: Seq<u8>, p: Seq<u8>, hs: Seq<(Seq<u8>, Seq<u8>)>|
            #[trigger] plain_head(m, p, hs, 16) && starts_with(bytes@, request_head(m, p, hs)) ==> r.0 == route_of(
                Some((request_head(m, p, hs).len(), Some(m), Some(p))),
            ),
        r.0 matches Route::FraudScore { body_offset } ==> body_offset <= bytes@.len(),
        r.1 is None <==> http_request_head(bytes@, 16) is None,
        r.1 matches Some(h) ==> http_request_head(bytes@, 16) == Some(
            (h.body_offset as nat, opt_bytes(h.method), opt_bytes(h.path)),
        ),
{
    let head = parse_request_head::<16>(bytes);
    let route = route_head(&head);
    (route, head)
}

/// How many of the neighbours carry the fraud label (1).
pub open spec fn fraud_count(labels: Seq<u8>, neighbors: Seq<Result>) -> nat
    decreases neighbors.len(),
{
    if neighbors.len() == 0 {
        0
    } else {
        fraud_count(labels, neighbors.drop_last()) + if labels[neighbors.last().index as int] == 1 {
            1nat
        } else {
            0nat
        }
    }
}

/// Counts the neighbours whose label marks them as fraud.
pub fn count_fraud(labels: &[u8], neighbors: &[Result]) -> (r: usize)
    requires
        forall|j: int| 0 <= j < neighbors@.len() ==> (#[trigger] neighbors@[j].index as int) < labels@.len(),
    ensures
        r == fraud_count(labels@, neighbors@),
        r <= neighbors@.len(),
{
    let n = neighbors.len();
    let mut count: usize = 0;
    let mut i: usize = 0;
    while i < n
        invariant
            n == neighbors@.len(),
            i <= n,
            count <= i,
            forall|j: int| 0 <= j < neighbors@.len() ==> (#[trigger] neighbors@[j].index as int) < labels@.len(),
            count == fraud_count(labels@, neighbors@.subrange(0, i as int)),
        decreases n - i,
    {
        assert(neighbors@.subrange(0, i + 1).drop_last() =~= neighbors@.subrange(0, i as int));
        if labels[neighbors[i].index as usize] == 1 {
            count = count + 1;
        }
        i = i + 1;
    }
    assert(neighbors@.subrange(0, n as int) =~= neighbors@);
    count
}

/// Which of the six prepared fraud-score answers to send for `count` fraud
/// labels among the neighbours: the count itself, at most 5.
pub fn fraud_response_index(count: usize) -> (r: usize)
    ensures
        r == if count < 5 { count } else { 5 },
{
    if count < 5 {
        count
    } else {
        5
    }
}

/// Scores a quantized transaction: searches the tree for its nearest
/// neighbours (in `heap`, emptied first), counts the fraud labels among them
/// and gives the index of the answer to send.
pub fn fraud_answer<F: Fn(i64, i64, i64) -> bool>(
    nodes: &[Node],
    vectors: &[u8],
    labels: &[u8],
    query: &[i32],
    heap: &mut Vec<Result>,
    visit_far: &F,
) -> (r: usize)
    requires
        tree_ok(nodes@, vector_count(vectors@)),
        query_ok(query@),
        tree_ok(nodes@, labels@.len() as int),
        forall|d: i64, t: i64, w: i64| visit_far.requires((d, t, w)),
    ensures
        forall|answer: spec_fn(i64, i64, i64) -> bool| #[trigger]
            answers_as(visit_far, answer) ==> final(heap)@ == search_result(
                nodes@,
                query@,
                vectors@,
                0,
                Seq::empty(),
                answer,
            ),
        valid_heap(final(heap)@),
        exists|c: Multiset<Result>|
            searched(c, nodes@, query@, vectors@, 0) && keeps_nearest(Seq::empty(), c, final(heap)@),
        prunes_soundly(nodes@, query@, vectors@, visit_far) ==> keeps_nearest(
            Seq::empty(),
            subtree_candidates(nodes@, query@, vectors@, 0),
            final(heap)@,
        ),
        r == if fraud_count(labels@, final(heap)@) < 5 {
            fraud_count(labels@, final(heap)@)
        } else {
            5
        },
{
    heap.clear();
    assert(heap@ =~= Seq::<Result>::empty());
    search_into(nodes, vectors, query, heap, visit_far);
    proof {
        let c = choose|c: Multiset<Result>|
            searched(c, nodes@, query@, vectors@, 0) && keeps_nearest(Seq::<Result>::empty(), c, heap@);
        lemma_subtree_candidates_index_below(nodes@, query@, vectors@, 0, labels@.len() as int);
        assert forall|j: int| 0 <= j < heap@.len() implies (#[trigger] heap@[j].index as int) < labels@.len() by {
            broadcast use vstd::seq_lib::group_to_multiset_ensures;
            broadcast use vstd::multiset::group_multiset_axioms;

            let x = heap@[j];
            assert(heap@.contains(x));
            assert(heap@.to_multiset().count(x) > 0);
            assert(Seq::<Result>::empty().to_multiset().add(c).count(x) > 0);
            assert(Seq::<Result>::empty().to_multiset().count(x) == 0);
            assert(c.count(x) > 0);
            assert(subtree_candidates(nodes@, query@, vectors@, 0).count(x) > 0);
        }
    }
    let count = count_fraud(labels, heap.as_slice());
    fraud_response_index(count)
}

} // verus!
