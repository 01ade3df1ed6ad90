# octree

A voxel octree stored in a block arena, with its contracts proved by Verus.

- `src/octree/arena.rs`, `arena_realloc.rs`: segments of fixed-size node
  blocks with free-slot bitmasks; allocation, freeing, and moving a node's
  children to a block of another size.
- `src/octree/walk.rs`: the tree as paths from the root (`walk`,
  `sample_spec`), its well-formedness, and what reallocations and writes do
  to walks and samples.
- `src/octree/chunk.rs`: the chunk — `set` (write, then fold up uniform
  nodes), `sample`, and the depth-first leaf walk.
- `src/octree/node.rs`: a cube of the tree as seen from outside: children,
  writing, deleting a child with its subtree.
- `src/octree/mesh.rs`, `edge_table.rs`: the dual grid of a chunk, cube
  indices and the triangle table.
- `src/octree/index_path.rs`, `bounds.rs`, `direction.rs`: paths packed in
  a word, integer bounds, octants and cube edges.
- `app/`: the amethyst program that shows a chunk, with the floating-point
  parts (positions, wireframes, the floor grid).
