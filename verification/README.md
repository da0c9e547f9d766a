# mdminecraft_world

World simulation rules of a voxel sandbox, written in Verus: every function in `src/`
carries a contract that Verus proves.

- `src/` — the verified library: chunks and block states, interactive and redstone blocks,
  lighting, inventories and status effects, weather, day phase, pathfinding, the chunk
  arena with least-recently-used eviction, region and world-blob file framing, and the
  world-generation structures (trees, ruins, mineshafts, villages, templates).
  Calls into `crc32fast`, `zstd`, `rand` and `lru` go through small trusted wrappers whose
  contracts state what those crates document. Each random draw of world generation is
  named as a function of its stream's seed and the requests made before it, so the
  generators' contracts fix every block they place by the world seed, and laws state that
  the same seed gives the same ruin, mineshaft, village and sugar cane in a chunk.
- `tests/` — ordinary Rust tests of the library.
- `app/` — what stays outside the proofs: file storage with `bincode`/`serde` (chunks,
  region files, world meta and world state), the mob behaviour and spawner that move and
  place mobs at floating-point positions, and the floating-point properties (speeds,
  sizes, sun angle, random rolls on floats).

Integers stand where floating point would otherwise appear in the rules: collision
heights in sixteenths of a block, spawn weights as whole numbers, time in ticks.
