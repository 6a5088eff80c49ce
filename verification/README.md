# vge_studio

The entity layer and the studio editor of the Vibe Game Engine, as a verified library.

- `src/` is the library. Every function states what it returns or changes in `requires` and
  `ensures`, and Verus proves it.
  - `src/ecs/` holds entities and their tree, components, animation, audio, particles, physics
    poses, transform propagation, what a frame draws of the world, and the plan by which it is
    drawn.
  - `src/editor/` holds the editor: assets and their import, the console and the other logs,
    the hierarchy and the inspector, undo and redo, play mode, prefabs, overlays, previews,
    text search, the profiler, the session, and the decisions of the window around them.
  - `text`, `paths`, `order`, `picks`, `recent` and `rounding` hold what these share.
- `tests/` runs the library on concrete values.
- `app/` is ordinary Rust around the library: files, windows, panels, and everything that
  computes with floating-point numbers.

Floating-point numbers are kept as their encodings (`ecs::scalar::Scalar`). The library compares
and copies them; arithmetic on them is handed in as a function. Paths are texts with `/` between
their parts. Reading and writing files is left to the caller, who hands in what was read.

Entities live in a `bevy_ecs::world::World`, asset ids are read and written by `uuid`. What is
trusted of these crates and of the standard library is stated where it is called, each time with a
doc comment that names the outside function.
