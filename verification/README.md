# terragen

Decides which chunks of a voxel world to generate. An adaptive octree is
walked from the whole world down: a node test reports, for each cube, whether
it is empty or how large its projected error is, and the traversal emits the
chunks that tile each cube whose error is small enough, subdividing the others
down to the chunk size and then by level of detail alone.

- `src/octree.rs`: the traversal, its specification (`Octree::emitted`,
  `Octree::tested`, and `Octree::trace`, the calls made through the node test
  and emit, in order) and the proofs that the code follows it.
- `src/chunks.rs`: what the chunk sequence of one node holds.
- `src/laws.rs`: properties of the runs. For any answers of the test: the
  calls made are exactly the nodes tested and the chunks emitted, in order;
  tested nodes start with the node handled, never grow, and keep their levels
  of detail between its own and `max_lod`; no chunk lands inside a node the
  test answered empty; and a deterministic test fixes the run. For worlds of
  `2^k` chunks per edge (what the scene check guarantees): tested nodes have
  the shape of grid nodes, chunks stay inside the world on the chunk grid and
  never overlap, a test that never answers empty tiles the world with every
  chunk exactly once, and an occupancy-based test makes the chunks tile
  exactly the space reported as occupied.
- `src/args.rs`: the command-line grammar.
- `src/scene.rs`: the scene description's check (sizes at least 1, the world a
  power-of-two number of chunks), the scene's node test, and rendering a
  scene.
- `src/frame.rs`: when the frame loop stops.
- `app/`: the program around the library: reading the command line and the
  scene file, the window and GPU device, logging, and the frame loop.
