# dwindle_core

The layout engine of a binary-tree ("dwindle") tiling window manager, written
in Verus. Every workspace on every monitor has a layout tree of its own; each
leaf holds one tiled window and each split divides its area between two
children. Windows can float, be maximized over the work area of their
context, be swapped with or focused toward a neighbour, and resize the split
above them. Geometry is always derived from the current tree.

Ratios and resize steps are fixed-point fractions: `RATIO_ONE` (one million)
stands for one whole.

## Layout

- `src/geometry.rs`: rectangles, insets and splits.
- `src/protocol.rs`: window ids, contexts, settings, commands and responses.
- `src/arena.rs`: the slot-map arena that stores tree nodes.
- `src/ktree.rs`, `src/ktree_ops.rs`: the tree as a value, and how the arena
  stands for it.
- `src/tree.rs`: `LayoutTree` (insertion, removal, swapping, resizing, layout).
- `src/navigation.rs`: choosing the neighbour in a direction.
- `src/order.rs`: the order of window ids and stable sorting by id.
- `src/assoc.rs`: lists of key/value pairs as maps.
- `src/state_spec.rs`: the engine as a model, and what each command does to it.
- `src/state.rs`: `EngineState`, the engine itself.
- `src/tree_laws.rs`, `src/laws.rs`: properties that hold across operations.
- `app/`: the D-Bus daemon, the JSON form of the protocol and error messages.
