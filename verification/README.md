# smol_db storage engine

A small page-oriented storage engine. The library (`src/`) holds the logic,
each function with a contract proved by Verus:

- `storage::page`: page ids, 4 KiB pages, tree nodes (leaf and internal),
  their dirty flags, and the file header (its byte form and page allocation).
- `storage::cursor`: a cursor that reads and writes little-endian values.
- `storage::layout`: the byte layout of node pages as spec functions, and the
  proof that decoding an encoded node gives the node back.
- `storage::codec`, `storage::decode`: `BTreeNode::encode` and `BTreeNode::decode`.
- `storage::wal`: the write-ahead log record format and its round trip.
- `storage::lru`: the LRU replacer, an arena-backed doubly linked list, with
  laws on the eviction order; eviction can skip the pages callers hold.
- `storage::buffer_pool`: the buffer pool's bookkeeping (hits, misses,
  victims that no caller holds, write-back images, replacing a cached node).
- `storage::leaf`: key-ordered insertion into a leaf, lookup, splitting a
  full leaf, linking the halves, and routing through an internal node.
- `storage::bptree`: the B+ tree's steps over cached pages: one level of a
  search, insertion into a leaf, a split into a new sibling, and the back
  link of the old sibling.
- `storage::flusher`: what the background flusher does after each wait.

`app/` holds what touches the file system and threads: the disk manager, the
buffer pool that reads and writes through it and hands out frames (a page a
frame holds is not evicted), the B+ tree that fetches its pages through the
pool and takes each step through the library, the background flusher, and an
error type with messages.
