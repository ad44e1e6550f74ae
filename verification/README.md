# superdupervoxels

A small voxel sandbox. The rules of the game live in a library whose
functions carry contracts that Verus proves; the game itself (window,
rendering, input, files) is a thin Bevy program around it.

## Layout

- `src/` — the verified library
  - `coords.rs`: grid coordinates; splitting world positions into chunk,
    offset and region (floor division).
  - `blocks.rs`: block names, texture paths, the registry of numeric block
    ids, and when the texture atlas can be built.
  - `chunk.rs`: 16³ chunks of block ids and the flat ground terrain.
  - `mesh.rs`: which block faces are visible, their corners, normals and
    triangle indices.
  - `world.rs`: the box of chunks kept loaded around the player, the plan of
    chunks to save and to load, grouping by region file, region file names.
  - `player.rs`: the block a look ray breaks, solid blocks in a bounding
    box, mouse capture toggling.
  - `debug.rs`: the debug overlay's entries, kept in key order.
  - `ui.rs`, `text.rs`: world names typed in the menu (trimming), decimal
    numerals.
  - `state.rs`: the game's phases.
- `tests/` — tests of the library on concrete values.
- `app/` — the Bevy program: systems, components and resources, rendering,
  the region databases (`redb`), chunk serialisation (`postcard`), world
  metadata (`toml`), and everything that computes with floating point
  (movement, camera, ray sampling, texture coordinates).
