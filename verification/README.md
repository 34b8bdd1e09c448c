# bf_tree

A range index over byte-string keys that is optimised for reads and writes
alike. Its records lie in leaf pages that inner nodes lead to; small writes go to
mini-pages in a page cache, which are merged into the pages below them when they
grow too large or leave the cache.

```rust
use bf_tree::{BfTree, Config, LeafReadResult};

let mut config = Config::default();
config.cb_min_record_size(4);
let mut tree = BfTree::with_config(config).unwrap();
tree.insert(b"key", b"value");

let mut buffer = [0u8; 1024];
assert_eq!(tree.read(b"key", &mut buffer), LeafReadResult::Found(5));
assert_eq!(&buffer[..5], b"value");
```

The library's functions have contracts, which Verus proves. Where a contract leaves
something open, it says so: a file with the header of a snapshot that no snapshot was
written to gives some tree, in order but otherwise unknown, or an error.

- `src/` is the library. `model.rs` says what a tree is as a mathematical value;
  `reshape.rs` says how splits change it. `nodes/` has the pages and their images
  on disk, `tree/` the operations, `range_scan.rs` the scans, `snapshot/` the
  snapshots and how a tree comes back from one, and `wal/` the write-ahead log.
- `app/` puts a tree, its log and its snapshots into files and shares them
  between threads.
- `tests/` runs the library.

Public proof functions whose names begin with `law_` state what holds of several
calls together: that a write is read back, that a scan gives every key once and in
order, that a snapshot holds the tree as it was at one moment whatever operations
ran meanwhile, and with it a prefix of what each worker inserted, that a snapshot
which is taken later covers the earlier ones, that a tree without a disk holds no more
than its page cache has room for, and that a tree which comes back from a snapshot and
its log holds what it held. For a tree without a disk the last of these is stated as
long as no operation of the log finds the page cache too full; whatever else it then
forgets, the last operation of the log is done.
