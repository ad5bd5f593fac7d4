# vex

The verified core of a vector-graphics 3D engine: line-drawn models whose
visible edges are classified from triangle meshes, and whose meshes double
as invisible occluders and collision geometry.

`src/` is the library, written in Verus; every function there carries a
contract that Verus proves:

- `mesh` — indexed meshes, unique undirected edges of a triangle list,
  index-buffer concatenation, the cube and icosahedron topologies.
- `weld`, `classify` — the converter's core: welding quantized positions,
  dropping degenerate triangles, edge→face adjacency, edge classification
  (boundary, material, crease, coplanar, smooth, non-manifold) and decor
  lines deduplicated against mesh edges.
- `source` — glTF primitive assembly, the material palette, material-name
  styles and buffer resolution (binary chunk or base64 `data:` URI).
- `collide` — the collision grid: cell boxes, per-cell triangle buckets and
  allocation-free, deduplicated candidate gathering.
- `scene` — model-name resolution and the shared per-instance buffers.
- `cli` — the converter's command-line grammar.
- `render` — render-target bookkeeping: bloom chain sizes, buffer growth,
  drawable slices, readback row padding.
- `synth`, `anim` — deterministic noise bits and the animation vocabulary.
- `order` — packing index pairs into sortable integers.

`app/` is ordinary Rust around the library: the `vex-convert` program, glTF
file loading, RON scene and clip parsing, the floating-point geometry of
collision, animation and audio synthesis, and GPU readback.

Not included in `app/`: the GPU render pipelines (line, occluder and post
renderers, camera uniforms), the fly, orbit and first-person camera
controllers, runtime silhouette extraction, and the engine's window shell.
The converter writes its model as RON text rather than in the binary `.vec`
layout.

`tests/` exercise the library on concrete inputs.
