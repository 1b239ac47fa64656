//! The logic of an Inochi2D puppet renderer on Bevy: the INR container and its
//! document, params and their bindings, animations, physics, mesh groups, masks,
//! composites, draw order and the plan of the render passes.
//!
//! Numbers are [`scalar::Scalar`]s, single-precision floating-point numbers by
//! their bits, with arithmetic that rounds to nearest, ties to even. Entities,
//! assets and GPU objects are plain integers here; the application around the
//! library gives them their meaning.

use vstd::prelude::*;

/// Layers of animations, and the values that they give to params.
pub mod animation;
/// Arithmetic on numbers.
pub mod arith;
/// The modes of an authored puppet.
pub mod authored;
/// What a puppet is spawned as.
pub mod auto_spawn;
/// Blend modes.
pub mod blend;
/// Composite groups and their render targets.
pub mod composite;
/// Boxes around composite groups.
pub mod composite_bbox;
/// What a frame does for composite groups.
pub mod composite_frame;
/// The controller of a puppet's animations.
pub mod controller;
/// The depths at which parts are drawn.
pub mod draw_order;
/// Arithmetic that rounds nothing.
pub mod exact;
/// Documents of the parser of INR files.
pub mod file_doc;
/// Interpolation on the grids of params.
pub mod grid_interpolation;
/// Parents and roots.
pub mod hierarchy;
/// Maps keyed by an id or a name.
pub mod id_map;
/// The INR container and its document.
pub mod inr;
/// From an INR document to a puppet.
pub mod inr_loader;
/// The names in an INR document.
pub mod inr_names;
/// From the nodes of an INR document to those of a puppet.
pub mod inr_nodes;
/// Loader of the authoring formats.
pub mod loader;
/// Masks that clip meshes.
pub mod mask_clip;
/// Meshes and materials of parts.
pub mod mesh2d;
/// Mesh groups, which carry the parts below them along.
pub mod mesh_group;
/// The data of a puppet.
pub mod model;
/// Stable orders.
pub mod order;
/// Values of params.
pub mod param_values;
/// The render pipeline of puppets.
pub mod pipeline;
/// From the values of params to the pose of nodes.
pub mod pose;
/// Pictures attached to a puppet.
pub mod props;
/// Square roots.
pub mod root;
/// How rounding keeps order.
pub mod rounding;
/// Single-precision numbers by their bits.
pub mod scalar;
/// The shapes of the tables of an authored puppet.
pub mod shapes;
/// Pendulums that drive params.
pub mod simple_physics;
/// Values by entity.
pub mod slots;
/// Vectors of two numbers.
pub mod vector;

pub use crate::blend::BlendMode;
pub use crate::controller::{AnimationLayer, FadeState, InxAnimationController};
pub use crate::draw_order::InxZBand;
pub use crate::mesh_group::{InxMeshGroupWarp, MgChildMap};
pub use crate::model::{
    InxAnimation, InxAnimationLane, InxBinding, InxBindingValues, InxDeform, InxFlatDeform,
    InxFlatTransform, InxInterpolation, InxKeyframe, InxMask, InxMaskMode, InxMaterial,
    InxMergeMode, InxMesh, InxMeta, InxNode, InxNodeType, InxParam, InxParamName, InxPhysics,
    InxPuppet, SimplePhysicsConfig,
};
pub use crate::param_values::InxParamState;
pub use crate::pose::{InxBasePose, InxResolvedBindings};
pub use crate::props::{InxProp, InxStructureVersion};

verus! {

} // verus!
