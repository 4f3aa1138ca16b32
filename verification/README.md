# poutre

A streamed voxel world with 32 x 32 chunks of 0.1-unit voxels: procedural terrain,
trees, bushes, flowers, grass and clouds, excavations that players carve into it,
and a client that streams level-of-detail patches of it from a server.

`src/` is the library, verified with Verus:

- `layout`, `quad`: world dimensions; quads, their packed form and its flat words.
- `hashing`: the seeded integer hashes behind every random choice of the world.
- `terrain`: surface materials, excavation spheres, and the integer height grid the
  generator reads.
- `vegetation`, `plants`: the voxel set of trees, bushes and flowers and its meshing;
  `clouds`: cloud boxes.
- `chunk`: meshing of a chunk and of a patch of chunks at a level of detail.
- `solid`: which voxels are solid, trees included, excavations removed.
- `tiles`: chunk ids, the level-of-detail tile selection around the camera, and the
  order in which tiles are requested.
- `world`: the client's chunk store, its collision index and what it draws.
- `server`: the server's checks on chunk requests and excavations, and which stored
  chunks an excavation makes stale; `regeneration`: that no other chunk changes.
- `coverage`: the drawn tiles partition the chunks within the render distance.
- `client`: the client's timing decisions.

`app/` is ordinary Rust around it: the Perlin height field (floating point, with
`noise`), the client's world-unit geometry and movement (floating point, with
`glam`), and the SpacetimeDB module that stores the world and serves it.

`tests/` runs the library on concrete worlds.
