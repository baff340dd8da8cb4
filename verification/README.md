# starpressure

The rules of a small spaceship game, verified with Verus: tile grids whose
multi-cell tiles react to their neighbours, tile maps, a ship constructor that
finds rooms, air flow through a ship's rooms, the ragdoll editor's save order,
and the plain parts of the networking layer.

Layout:

- `src/` — the verified library. Each module states its data as spec values
  (views), and each public function's contract says what it returns or
  changes. Public `lemma_*` proof functions state the properties that span
  several calls (placing then reading a tile, inserting then looking up a
  handle, what every grid update keeps well-formed, and so on).
- `tests/` — ordinary Rust tests of the library on concrete values.
- `app/` — the game itself around the library: the Bevy app, rendering,
  physics, input, file and network I/O, and the float-valued parts (animation
  timing, weighted variant sampling, air densities and forces).
