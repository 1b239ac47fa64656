//! The batched renderer: a puppet as flat buffers and a list of draw commands.

pub mod collect;
pub mod extract;
pub mod framebuffers;
pub mod node;
pub mod prepare;
pub mod recipes;
pub mod refresh;
pub mod sequence;
pub mod uniforms;
