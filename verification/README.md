# hephae

The verified core of a 2D rendering toolkit for Bevy, written in Verus.

`src/` is the library. Its functions carry contracts that Verus proves,
except the few small wrappers around the outside crates it calls
(`guillotiere`'s packer, `bevy_platform`'s hash map, `syn`'s path parser,
`toml_edit`'s parser and some std calls), whose contracts are believed as
written:

- `locale`: locale format strings (`{0}` arguments, `\` escapes), their
  parsing and rendering back to source, locales keyed by string and
  localization with positional arguments.
- `vec_belt`: a chunked append buffer and the iterators that consume it.
- `atlas`: texture-atlas assembly (sprite ordering, packing into pages with
  padding and edge bleeding, nine-slice cuts from guide pixels), sprite
  lookups, cached lookups and atlas change tracking, and the atlas entries a
  struct declares through field attributes.
- `text`: glyph atlases, the font atlas registry, text span structures and
  the font each entity of a structure is drawn with.
- `render`: the drawers each frame draws, batching of sorted phase items,
  and view shader keys.
- `gui`: the depth of each GUI node in its tree and each tree's total depth.
- `manifest`, `plugins`: reading a crate manifest's dependency tables and
  resolving crate paths in them, and the plugin list of the `hephae!` macro.

`app/` is ordinary Rust around the library: reading atlas and locale files,
the token handling and code generation of the macros, and error messages.
`tests/` holds the tests.

What the library leaves out, and why:

- Floating-point geometry: GUI transforms and corners, the space a
  container shares among its children (`app/layout.rs` holds that
  distribution as plain Rust), UI node measurement and the vertex data of
  the quad shaper. Verus does not reason about floating point.
- Work that only Bevy's engine can do: its ECS systems and queries, GPU
  buffers and image bind groups, and text shaping and glyph layout through
  `cosmic-text`. These are not dependencies of this crate; what they decide
  reaches the library as plain values (atlas sprites, glyph keys, span
  entities, phase items).
- Iterators as sources of a `VecBelt` append: the library takes vectors,
  arrays, boxed and borrowed slices. What is left in a standard iterator is
  known to Verus only as a prophecy, which a batch's contents cannot be
  stated by; collect the iterator into a vector first.
