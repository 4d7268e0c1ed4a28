# yab_world

The core of a voxel block world, verified with Verus: blocks and their flag and light
bits, chunks, columns and the buffer of loaded columns, light and sunlight propagation
and removal, the visible faces of chunks, the client's choice of columns to request, its
building of received columns and the placing and digging of blocks, the byte protocol
between client and server (with run-length encoded chunk data), the block and resource registries and inventories, the
movement states of physics objects, and the stages of starting a game.

Layout:

- `src/`: the verified library.
  - `block/`: block bits and the block registry.
  - `chunk/`: chunks, columns, positions and the chunk buffer.
  - `world/`: light propagation and removal, the client's world handler and world builder.
  - `render/`: the visible faces of chunks and columns.
  - `comms/`: the wire primitives, run-length encoding and the messages.
  - `physics.rs`: movement states and controls of physics objects.
  - `start_game.rs`: the stages of starting a game.
  - `inventory.rs`, `resource.rs`, `world_definition.rs` and smaller modules.
- `tests/`: tests of the library.
- `app/`: what surrounds the library: files, sockets, threads, floating point (rays,
  collisions and physics among it), and serializable copies of library types.
