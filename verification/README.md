# maple_tree

Leaf nodes of a maple tree, verified with Verus.

- `src/collections/maple_tree/sparse_leaf.rs` — `SparseLeaf`: up to eight
  unsorted key/value pairs; insert, search, update, remove, min/max, length,
  bounds check and a stable selection sort.
- `src/collections/maple_tree/range_leaf.rs` — `RangeLeaf`: up to seven pivots
  splitting a key span into ranges with one value each; pivot moves,
  `find_range`, `insert_range` and `insert`.
- `src/collections/maple_tree/scan.rs` — the "first slot where a condition
  holds" specification shared by the linear searches.
- `src/collections/maple_tree/laws.rs` — proved properties that relate several
  operations.
- `app/` — a `Display` rendering of range leaves.
