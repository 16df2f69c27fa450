# elkrs

Core data structures and structural rules of the ELK graph layout kernel,
verified with Verus.

- `src/` is the verified library: the layout option enums and their
  rotations, enum sets, typed property maps kept in insertion order (on top
  of the `indexmap` crate), the `java.util.Random` generator and the
  `java.util.PriorityQueue` heap, the mrtree node/edge arena, and the layered
  graph arena with its utilities: collector ports, port creation, edge
  reversal, cross-hierarchy edge detection, and the splitting of a graph into
  connected components and their gathering back.
- `app/` holds what works on coordinates (floating point): geometry helpers,
  port sides computed from positions, and the row placement of components.
- `tests/` runs the library on concrete graphs.
