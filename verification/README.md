# rinha

Fraud scoring by nearest neighbours, as a Verus-verified library (`src/`)
with a thin unverified shell (`app/`).

`src/`
- `data.rs` — packed 24-bit vectors, little-endian readers, the vector and
  label file headers.
- `heap.rs` — the bounded max-heap that keeps the nearest candidates, and the
  `keeps_nearest` relation that describes it.
- `search.rs` — the vantage-point tree: node layout, validity, squared
  distances, the search, and the tree file decoder.
- `vector.rs` — the cursor parser of the fixed request schema, the
  known-merchant lookup, timestamps and time features.
- `calendar.rs` — Julian day numbers, minute counts, weekdays, and the
  calendar laws that relate them.
- `http.rs` — request routing over `httparse`, fraud counting, the answer index.
- `warmup.rs` — the generator of warm-up queries.
- `balancer.rs` — round-robin choice of an upstream.

`app/` holds the memory-mapped file loading, the floating-point feature
scaling and tree-pruning test, the PHP module glue and the TCP load balancer.
