# minicache

A semantic cache server. The verified library (`src/`) holds its logic:

- `lru`: `LruCache<K, V>`, a fixed-capacity least-recently-used cache built from a
  `HashMap` index and a doubly linked list kept in a slot vector with a free list.
  Every operation is specified against the cache's view, the sequence of its entries
  from the most to the least recently used.
- `model`: that sequence model (`inserted`, `touched`, `removed`, `lookup`) and the
  laws proved about it (read after write, eviction of the least recently used entry,
  accesses that keep every entry, removal).
- `prune`: the choice of the keys whose age exceeds the time to live, and their removal.
- `validate`: request field checks (blank text, empty embeddings).

`app/` is the HTTP server (axum, tokio): request handling, cosine similarity over
`f32` embeddings, the clock reads that decide which entries have expired, and the
statistics endpoint.

`LruCache::new` requires vstd's `obeys_key_model::<K>()`: the key type's `Hash`, `Eq`
and `Clone` behave as a hash-table key must (deterministic hashing, `==` as identity,
clones identical). vstd proves this for integer keys only. The server keys its cache by
`String`, so for it the guarantees rest on this assumption about `String`, which is not
proved here.
