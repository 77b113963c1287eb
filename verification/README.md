# softheap

Soft heaps built on pairing heaps, verified with Verus.

- `src/pairing.rs`: the executable heap. `Pool` (an item with a count of
  corrupted elements pooled with it), `Pairing` (a node with its children) and
  `SoftHeap` (an optional root). Each function's contract says its result
  exactly, over the model in `src/tree.rs`.
- `src/tree.rs`: the mathematical model: a `Tree` of items with pool counts,
  its measures (nodes, items, pooled counts, heap order) and the heap
  operations written over it, including multipass merging with corruption
  at level `CORRUPT_EVERY_N`.
- `src/laws.rs`: what the operations keep: every item stays in the heap, is
  deleted as the minimum, or is handed out as corrupted; pool counts are
  moved, never lost; heap order survives every operation.
- `src/order.rs`: the items' order, taken from their `Ord` implementation.
