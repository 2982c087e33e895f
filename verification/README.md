# rustis

A distributed key-value cache. An orchestrator routes each key to a cache node along a
consistent-hashing ring of virtual nodes; each cache node keeps its entries in a bounded,
ordered cache with FIFO, LIFO or LRU eviction and per-key time to live.

Layout:

- `src/` — the verified library (Verus):
  - `slave/dll.rs` — the doubly linked list (arena of slots), eviction policies, policy registry;
  - `slave/cache.rs` — the cache: entries in order, capacity, eviction, time to live;
  - `slave/redundancy.rs` — priorities, redundancy routes, a cache node's state, virtual nodes;
  - `slave/endpoints.rs` — the messages exchanged between nodes;
  - `master/orchestrate.rs` — the ring, owners and routes of the orchestrator, peers files;
  - `helper.rs` — roles and the command line;
  - `text.rs`, `ordered.rs` — characters, numerals, URLs and ordered iteration.
- `app/` — the program: HTTP servers and clients, the expiry task, command-line and file input.
- `tests/` — tests of the library.
