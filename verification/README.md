# scene_plan

What a window paints in one frame, and the plan by which a GPU draws it.

A window records its frame in a `Scene`: quads, shadows, paths, underlines,
sprites and surfaces, under layers, clip paths and isolated groups. The scene is
put in drawing order and cut into batches, and a renderer turns it into a list
of commands: which pass draws what, into which texture, and how a group's
picture is filtered and laid down. Everything here is computed over whole
numbers, and verified with Verus.

## Layout

- `src/fixed.rs`, `geometry.rs`, `color.rs`, `atlas.rs`, `text.rs`: numbers,
  boxes, colours and names.
- `src/clip_path.rs`: outlines that primitives are clipped to.
- `src/scene/`: recording a scene, ordering it, folding groups away, replaying a
  part of an earlier scene, and cutting runs into batches. `model.rs` says what a
  scene is; `laws.rs` what holds of every scene.
- `src/gradient/`: the texture that a gradient is baked into, and how a position
  finds its colour in it.
- `src/renderer/`: packing clip masks into an atlas, the pools of group targets
  and working textures, filters, the walk over a scene that gives a frame's
  commands, the buffers that instances are written to, and reading images back.
- `tests/`: the library's tests.
- `app/`: ordinary Rust around the library: floating-point input, colour spaces,
  the log, and Metal.

## Numbers

A length, a colour channel or an opacity is an `i64` that counts steps of
1/65536. The numbers of a transformation, and angles, count steps of 2^-32.
Sums and products saturate; products are rounded to the nearest step.
