# issho

A retained accessibility tree for native platforms, specified and proved with
Verus.

- `src/` is the verified library. `access_tree` holds the tree: a forest of
  nodes with one optional window and one optional focused node per root, and
  the operations that insert, move, regroup and remove nodes, look up names,
  siblings and hit-tested elements, and report the property and focus changes
  that a native platform is to be told about. `shape` models the parent/child
  structure as mathematical maps and proves the facts about forests that the
  operations rely on. The remaining modules hold the node, its properties and
  the small types around it; `slots`, `key_list`, `text_store` and
  `focus_map` are the thin, trusted layers over `slotmap`, `smallvec`,
  `smol_str` and `hashbrown`.
- `app/` is the shared, reference-counted handle that applications use, the
  platform and event-handler hooks, the process-wide source of node
  identifiers and the floating-point rectangle geometry. This build carries
  no native platform: every target gets the no-op `BlankPlatform`.
- `tests/` runs the library on concrete trees.
