//! Verified core of the vector3d engine: the integer and topological logic
//! behind mesh edges, the glTF converter, collision queries, scene baking,
//! procedural noise and render-target bookkeeping.

pub mod order;
pub mod mesh;
pub mod classify;
pub mod weld;
pub mod collide;
pub mod synth;
pub mod render;
pub mod source;
pub mod scene;
pub mod cli;
pub mod anim;
