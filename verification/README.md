# scale_kv

A key-value store with separate compute and storage, written in Verus. The library
under `src/` is verified: its functions have contracts, and these are proved. The
programs under `app/` put it behind files, sockets and timers.

## The library

- `layout`, `text`, `key_order`, `key_set`, `key_map`: bytes, numbers, text and keys.
- `common`: sizes, pages and errors.
- `slotted_page`, `undo_pg`, `meta_page`, `btree_meta`, `fsm_pg`: page formats.
- `page_bptree`: a B+tree whose nodes are pages. `tree_model` says which tree linked
  pages form; insert and remove are proved to change just the rows that they are
  asked to. `shape` says how full pages stay, `links` how leaves stay linked.
  `validate` checks pages that come from elsewhere; `validity` says when a tree that
  insert and remove made passes that check. `tree_check` says whether pages hold a
  tree that insert and remove can work on. `page_cache` keeps pages in a cache of
  bounded size.
- `bptree`: a set of page ids in memory.
- `page_store`: the buffer pool of a storage node.
- `node`: the storage node: write-ahead log, replay, row versions, limits.
- `compute_sequencer`: LSNs, request ids and quorums.
- `embedded`: the transactional engine over the tree: snapshots, intents, undo
  records, commit, garbage collection, recovery. `soundness` says what holds of the
  engine at all times, `session` what a transaction comes to as a whole, `history` that
  writes and commits leave older versions readable, and `purge` which undo pages are
  set free. `ready` answers what a caller asks first.
- `secondary_index`, `secondary_index_meta`, `secondary_posting_log`: secondary
  indexes, their catalog and their log.
- `txn_kv`: a transactional store in memory with a log on several replicas.
- `http_protocol`, `wasm_compute`, `args`, `bench`: what the programs decide.

Time is never read in the library: functions take the nanoseconds that have passed.
Where a result has to come from outside (a page, the answers of storage nodes, the
end of another transaction), a function returns what is to be done and another one
takes the result.

## The programs

`app/main.rs` runs `storage_server`, `compare_bench`, `simple_bench`,
`workload_bench`, `perf_report` or `txn_shell`, named by the first argument.
