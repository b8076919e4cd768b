# rust_screeps_code

The verified core of a bot for the game Screeps, written in Verus.

- `src/` is the library, every function of it verified:
  - `heap`: a first-fit allocator over a flat byte memory, with chunk
    headers stored as little-endian words (allocate, release, reallocate);
  - `vec`: a vector whose capacity is fixed when it is made, with an
    insertion sort for `u32` items;
  - `fmemseg`: a small key-value store that can be written out as bytes
    and read back;
  - `room`, `creep`, `structure`: the game's data types;
  - `spawner`: body sizes, costs and build times, the energy a room holds,
    which creep serves a request and which ticks to live new orders inherit;
  - `lib.rs`: return codes, memory keys, roles, and what a gather-and-work
    creep does on a tick.
- `app/` is the game side: the engine's functions, creep orders and memory,
  the floating-point scaling of bodies and priorities of build orders, and
  the per-tick entry points.
- `tests/` runs the library on concrete values.
