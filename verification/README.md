# bevy_inochi2d

A renderer of Inochi2D puppets on Bevy, with its logic written and proved in Verus.

## Layout

- `src/` is the library. It knows nothing of entities, assets or the GPU: they are
  integers here, and single-precision numbers are `Scalar`s, given by their bits.
  - `scalar`, `arith`, `root`, `rounding`, `vector`: numbers as IEEE 754 has them.
  - `id_map`, `slots`, `param_values`, `order`, `hierarchy`: maps, orders and trees.
  - `inr`, `inr_names`, `inr_loader`, `inr_nodes`, `file_doc`, `shapes`, `loader`,
    `authored`, `model`: from the bytes of an INR container or an authored file to a puppet.
  - `grid_interpolation`, `controller`, `animation`, `pose`, `mesh_group`,
    `simple_physics`: from params, animations and pendulums to the pose of nodes.
  - `auto_spawn`, `props`, `mesh2d`, `mask_clip`, `draw_order`, `blend`: what is spawned
    and how it is drawn.
  - `composite`, `composite_bbox`, `composite_frame`: groups that are drawn into render
    targets.
  - `pipeline`: the command list of a puppet, its buffers, uniforms and render passes.
- `app/` ties the library to Bevy: loaders, components, systems and plugins.
- `tests/` runs the library on concrete values.

## What is proved

Every function of `src/` states what it returns, and when it fails. Public proof
functions whose names start with `lemma_` state what holds of several functions
together, such as that a container reads back what was written, that render targets
are handed out once, that inner composites are drawn before outer ones, or that a
puppet whose animations are stopped goes back to its defaults.

What Verus takes on trust are the hash maps of `bevy::platform`, the reading of JSON by
`json` and of authored puppets by `inochi2d_parser`, and the bits of single-precision
numbers; each such function says so above its contract. The modes and documents of
`inochi2d_parser` are declared to Verus with their variants and fields.
