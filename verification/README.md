# pandas_pouch

A node of a distributed cache, with its core written in Verus and proved.

- `src/lru.rs`: an LRU cache with per-entry lifetimes. Entries sit in an
  arena of slots chained into a doubly linked list (most recently used
  first); a `DashMap` finds the slot of a key. Every operation is specified
  over `LruView`, the list of entries as the contracts see it.
- `src/lru_laws.rs`: what holds across the cache's operations (read what you
  wrote, eviction of the least recently used entry, the capacity bound, a
  second listing repeating the first, ...).
- `src/hash_ring.rs`: consistent hashing with replicas; the ring keeps its
  points in order and finds the node of a key by the first point at or after
  the key's hash. With the default xxHash64 builder, a node's points are the
  hashes of its replica names `label:i` and a key's hash is that of its text,
  and `owner_of`, `add_labeled` and `remove_labeled` state lookups and node
  changes on such a ring exactly.
- `src/ring_laws.rs`: what holds across the ring's operations, over given
  points (adding a node moves keys only onto it, removing one moves only its
  keys, taking a node's points out and back restores the ring, placement
  depends only on labels, ...). `src/service.rs` states the same laws for
  the cluster's joins and leaves, whose points are fixed by the member.
- `src/service.rs`: the decisions of the cache service: routing, answering
  a read from the cache, settling a read that missed it, nodes joining and
  leaving.
- `src/config.rs`, `src/text.rs`: the settings and the database address,
  and decimal rendering.
- `app/`: the program around the library: settings files, the Postgres
  database, the gRPC transport and `main`.
