# hw_btree

A persistent, ordered key-value store on a copy-on-write B+Tree, written
in Verus: the page formats, the trees, the page allocator with its free
list and the commit protocol are verified against their contracts.

## Layout

- `src/page/`: the current page formats (leaf, internal, header, free
  list) with their encoders, decoders and the node edits a put needs.
- `src/storage/`: the store over a page backend (`Store`, transactions,
  readers, free-list reuse, reopening), the tree's `put`/`get`, the
  engine on top, and a pre-order walk of the published tree.
- `src/io/`: the page backend interface and an in-memory backend.
- `src/node/`: the pointer-and-offset node format; `src/btree/`: the
  B+Tree with insert and delete (splits and merges) over any `NodeStore`.
- `src/header.rs`, `src/storage_engine.rs`: a first header format and a
  flat append-only engine.
- `tests/`: the test suite, run against the compiled library.
- `app/`: what talks to the outside world: a demo `main`, a page file
  reached through `mmap`, error messages, and console dumps of pages and
  trees.
