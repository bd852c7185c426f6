# pagebox

Verified index structures over fixed-size pages:

- `betree`: a copy-on-write B-epsilon tree of versioned records: page images,
  buffers of messages in inner nodes, flushing, splitting, merging, reclaiming of
  old versions, and forks that share pages.
- `btree`: a B-link tree of byte keys and values, and the rules by which
  traversals, evictions and retries go on while others change the tree.
- `latch`, `latch_version`, `latch_waits`: a hybrid optimistic, shared and
  exclusive latch, the arithmetic of its version word, and the record of waits.
- `frame`, `page_id`: frame headers, frame states and page ids.

`src/` is the library. Its functions are verified with Verus, but for the few that
make one call each into the lock or the standard library and are marked
`external_body`: their contracts are believed. `tests/` runs it on concrete values.
`app/` wraps it for programs with many threads.
