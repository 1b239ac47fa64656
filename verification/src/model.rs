//! The puppet as data: nodes, materials, params and animations.
//!
//! Images, entities and other things that live outside the library are held by
//! number. Floating-point fields are [`Scalar`]s.

use crate::blend::BlendMode;
use crate::composite::InxComposeHint;
use crate::id_map::NameMap;
use crate::scalar::Scalar;
use vstd::prelude::*;

verus! {

/// Type of node in the puppet tree.
#[derive(Debug, Clone, Copy, PartialEq, Eq, Structural)]
pub enum InxNodeType {
    /// Visual node with mesh and textures.
    Part,
    /// Visual container with blend mode and opacity.
    Composite,
    /// Node defining a mask for clipping descendants.
    Mask,
    /// Group of meshes with dynamic deformation.
    MeshGroup,
    /// Camera node (parsed but no runtime effect).
    Camera,
    /// Simulated physics node (pendulum/spring).
    SimplePhysics,
    /// Generic node with no specific data.
    Generic,
}

/// How a mask applies: `Mask` shows only what lies inside the source, `Dodge`
/// only what lies outside.
#[derive(Debug, Clone, Copy, PartialEq, Eq, Structural)]
pub enum InxMaskMode {
    Mask,
    Dodge,
}

impl Default for InxMaskMode {
    fn default() -> (r: InxMaskMode)
        ensures
            r == InxMaskMode::Mask,
    {
        InxMaskMode::Mask
    }
}

/// Reference to a source node that clips a part.
#[derive(Debug, Clone, Copy, PartialEq, Eq, Structural)]
pub struct InxMask {
    /// UUID of the node providing the mask shape.
    pub source_uuid: u32,
    /// How the mask is applied.
    pub mode: InxMaskMode,
}

/// Mesh of a part as authored: vertices in local space, without deform.
#[derive(Debug, Clone)]
pub struct InxMesh {
    /// Vertex positions, local space, before deform.
    pub vertex_buffer: Vec<[Scalar; 2]>,
    /// UV coordinates, one pair per vertex.
    pub uv_buffer: Vec<[Scalar; 2]>,
    /// Triangle indices into `vertex_buffer`.
    pub index_buffer: Vec<u32>,
    /// Texture offset (not the node transform).
    pub origin: [Scalar; 2],
    /// Baked alpha silhouette in UV space, where the part is a mask source and
    /// the file carries one. `None` leaves the triangle outline as the shape.
    pub mask_contour_uv: Option<Vec<Vec<[Scalar; 2]>>>,
}

/// Material of a part or composite.
#[derive(Debug, Clone)]
pub struct InxMaterial {
    /// Part geometry.
    pub mesh: Option<InxMesh>,
    /// Image id of the albedo texture.
    pub texture_albedo: Option<u64>,
    /// Image id of the emissive texture.
    pub texture_emissive: Option<u64>,
    /// Image id of the bump map.
    pub texture_bumpmap: Option<u64>,
    /// Texture indices [albedo, emissive, bump] as authored.
    pub textures: [u32; 3],
    /// Additive RGB tint.
    pub tint: [Scalar; 3],
    /// Screen tint.
    pub screen_tint: [Scalar; 3],
    /// Global opacity.
    pub opacity: Scalar,
    /// Emission strength.
    pub emissive_strength: Scalar,
    /// Alpha clipping threshold.
    pub mask_threshold: Scalar,
    /// Blend mode.
    pub blend_mode: BlendMode,
    /// Masks clipping this part.
    pub masks: Vec<InxMask>,
}

impl Default for InxMaterial {
    /// A material without a mesh, a texture or any color.
    fn default() -> (r: InxMaterial)
        ensures
            r.mesh is None,
            r.texture_albedo is None,
            r.texture_emissive is None,
            r.texture_bumpmap is None,
            r.textures == [0u32, 0u32, 0u32],
            r.tint == [Scalar { bits: 0 }, Scalar { bits: 0 }, Scalar { bits: 0 }],
            r.screen_tint == [Scalar { bits: 0 }, Scalar { bits: 0 }, Scalar { bits: 0 }],
            r.opacity == (Scalar { bits: 0 }),
            r.emissive_strength == (Scalar { bits: 0 }),
            r.mask_threshold == (Scalar { bits: 0 }),
            r.blend_mode == BlendMode::Normal,
            r.masks@ == Seq::<InxMask>::empty(),
    {
        let zero = Scalar { bits: 0 };
        InxMaterial {
            mesh: None,
            texture_albedo: None,
            texture_emissive: None,
            texture_bumpmap: None,
            textures: [0, 0, 0],
            tint: [zero, zero, zero],
            screen_tint: [zero, zero, zero],
            opacity: zero,
            emissive_strength: zero,
            mask_threshold: zero,
            blend_mode: BlendMode::Normal,
            masks: Vec::new(),
        }
    }
}

/// Deformation offsets per vertex.
#[derive(Debug, Clone)]
pub struct InxDeform {
    /// Offset [dx, dy] per vertex.
    pub offsets: Vec<[Scalar; 2]>,
}

/// Local transform of a node. The rotation is in Euler angles, X then Y then Z.
#[derive(Debug, Clone, Copy)]
pub struct NodeTransform {
    pub translation: [Scalar; 3],
    pub rotation: [Scalar; 3],
    pub scale: [Scalar; 3],
}

/// Simulation type of a physics node.
#[derive(Debug, Clone, Copy, PartialEq, Eq, Structural)]
pub enum PhysicsModel {
    /// Rigid pendulum (fixed length).
    Pendulum,
    /// Pendulum on a spring (length varies).
    SpringPendulum,
}

/// How the simulated bob maps to the two components of a param.
#[derive(Debug, Clone, Copy, PartialEq, Eq, Structural)]
pub enum PhysicsMapMode {
    /// X is the angle, Y the length.
    AngleLength,
    /// X and Y are the offset from the anchor.
    XY,
    /// X is the length, Y the angle.
    LengthAngle,
    /// The offset from the anchor, Y first.
    YX,
}

/// Configuration of a `SimplePhysics` node.
#[derive(Debug, Clone, Copy)]
pub struct SimplePhysicsConfig {
    /// UUID of the param this simulation drives.
    pub param_uuid: u32,
    /// Simulation type.
    pub model: PhysicsModel,
    /// How to map angle/length to the output parameter.
    pub map_mode: PhysicsMapMode,
    /// Gravity for this simulation.
    pub gravity: Scalar,
    /// Length of the bone in pixels.
    pub length: Scalar,
    /// Oscillation frequency (Hz).
    pub frequency: Scalar,
    /// Angular damping.
    pub angle_damping: Scalar,
    /// Length damping.
    pub length_damping: Scalar,
    /// Output scale (sx, sy).
    pub output_scale: [Scalar; 2],
    /// If true, physics is relative to the local node, not global.
    pub local_only: bool,
}

/// Node of the puppet tree.
#[derive(Debug, Clone)]
pub struct InxNode {
    /// Authored UUID.
    pub uuid: u32,
    /// Readable node name.
    pub name: String,
    /// Node type (Part, Composite, MeshGroup, etc).
    pub node_type: InxNodeType,
    /// Material data, populated for parts and composites.
    pub material: Option<InxMaterial>,
    /// Mesh of a node that is no part: the warp lattice of a `MeshGroup`.
    pub mesh: Option<InxMesh>,
    /// MeshGroup only: children are warped from their deformed vertices each
    /// frame instead of from their rest pose.
    pub mesh_group_dynamic: bool,
    /// Composite only: whether the warp of an enclosing MeshGroup reaches the
    /// children.
    pub composite_propagate_meshgroup: bool,
    /// Local transform.
    pub transform: NodeTransform,
    /// Authored depth relative to siblings; larger is further back.
    pub zsort: Scalar,
    /// If false, the node and its children are not rendered.
    pub enabled: bool,
    /// Physics config, populated for `SimplePhysics` nodes.
    pub physics_data: Option<SimplePhysicsConfig>,
    /// Baked compositing hint, populated for `Composite` nodes.
    pub compose_hint: Option<InxComposeHint>,
    /// Child nodes, by their position in [`InxPuppet::nodes`].
    pub children: Vec<usize>,
}

/// Authored puppet metadata; does not affect rendering.
#[derive(Debug, Clone)]
pub struct InxMeta {
    pub name: String,
    pub version: String,
    pub rigger: String,
    pub artist: String,
    pub rights: String,
    pub copyright: String,
    pub license_url: String,
    pub contact: String,
    pub reference: String,
    /// Texture ID for UI thumbnail.
    pub thumbnail_id: u32,
    /// If true, preserves pixels during render (no smoothing).
    pub preserve_pixels: bool,
}

/// Global physics parameters of the puppet.
#[derive(Debug, Clone, Copy, PartialEq, Eq, Structural)]
pub struct InxPhysics {
    /// Pixels-per-meter scale used by simulated nodes.
    pub pixels_per_meter: Scalar,
    /// Gravity applied to simulated nodes.
    pub gravity: Scalar,
}

/// An uncompressed RGBA texture.
#[derive(Debug, Clone)]
pub struct InxTexture {
    pub width: u32,
    pub height: u32,
    pub pixels: Vec<u8>,
}

/// A loaded puppet: node tree, params, animations and textures, plus lookups
/// by name. The lookups give positions in the lists.
pub struct InxPuppet {
    /// All nodes, children before their parent; the root is last.
    pub nodes: Vec<InxNode>,
    /// All params, load order.
    pub params: Vec<InxParam>,
    /// All animations, load order.
    pub animations: Vec<InxAnimation>,
    /// All textures, indexed as authored.
    pub textures: Vec<InxTexture>,
    /// Nodes by name; of two with one name, the later one.
    pub named_nodes: NameMap,
    /// Params by name.
    pub named_params: NameMap,
    /// Animations by name.
    pub named_animations: NameMap,
    /// Authored metadata.
    pub meta: InxMeta,
    /// Global physics configuration.
    pub physics: InxPhysics,
}

/// How a param's value combines with others that touch the same field.
#[derive(Debug, Clone, Copy, PartialEq, Eq, Structural)]
pub enum InxMergeMode {
    /// Sums effects.
    Additive,
    /// Multiplies effects.
    Multiply,
    /// Overwrites (last wins).
    Override,
    /// Ignores existing values.
    Forced,
}

/// Interpolation between grid points or keyframes.
#[derive(Debug, Clone, Copy, PartialEq, Eq, Structural)]
pub enum InxInterpolation {
    /// Linear interpolation.
    Linear,
    /// Jumps to the previous value (no smoothing).
    Stepped,
    /// Smooth cubic interpolation.
    Cubic,
}

/// Node field that an [`InxBinding`] affects.
#[derive(Debug, Clone, Copy, PartialEq, Eq, Structural)]
pub enum InxParamName {
    TransformTX,
    TransformTY,
    TransformTZ,
    TransformSX,
    TransformSY,
    TransformRX,
    TransformRY,
    /// Rotation Z (radians, typically the one used).
    TransformRZ,
    /// Mesh deformation.
    Deform,
    /// Node opacity.
    Opacity,
    /// Other unrecognized field.
    Other,
}

/// Flattened 2D grid of scalar values.
#[derive(Debug, Clone)]
pub struct InxFlatTransform {
    /// Flat buffer: data[frame * values_per_frame + y_idx]
    pub data: Vec<Scalar>,
    /// Points on the X axis.
    pub frames: usize,
    /// Points on the Y axis, or 1 if scalar.
    pub values_per_frame: usize,
}

impl InxFlatTransform {
    /// Value at `(frame, index)`, or `None` if out of buffer bounds.
    pub fn get(&self, frame: usize, index: usize) -> (r: Option<Scalar>)
        requires
            frame * self.values_per_frame + index <= usize::MAX,
        ensures
            r == (if frame * self.values_per_frame + index < self.data@.len() {
                Some(self.data@[frame * self.values_per_frame + index])
            } else {
                None
            }),
    {
        assert(frame * self.values_per_frame >= 0) by (nonlinear_arith);
        let idx: usize = frame * self.values_per_frame + index;
        if idx < self.data.len() {
            Some(self.data[idx])
        } else {
            None
        }
    }
}

/// Flattened 2D grid of per-vertex deform offsets.
#[derive(Debug, Clone)]
pub struct InxFlatDeform {
    /// Flat buffer: data[frame * vertices_per_frame + vertex] = [dx, dy]
    pub data: Vec<[Scalar; 2]>,
    /// Points on the X axis.
    pub frames: usize,
    /// Entries per X-axis point (Y-axis points times vertex count).
    pub vertices_per_frame: usize,
}

impl InxFlatDeform {
    /// Offset `[dx, dy]` at `(frame, vertex)`, or `None` if out of range.
    pub fn get(&self, frame: usize, vertex: usize) -> (r: Option<[Scalar; 2]>)
        requires
            frame < self.frames && vertex < self.vertices_per_frame ==> frame
                * self.vertices_per_frame + vertex <= usize::MAX,
        ensures
            r == (if frame < self.frames && vertex < self.vertices_per_frame && frame
                * self.vertices_per_frame + vertex < self.data@.len() {
                Some(self.data@[frame * self.vertices_per_frame + vertex])
            } else {
                None
            }),
    {
        if frame >= self.frames || vertex >= self.vertices_per_frame {
            return None;
        }
        assert(frame * self.vertices_per_frame >= 0) by (nonlinear_arith);
        let idx: usize = frame * self.vertices_per_frame + vertex;
        if idx < self.data.len() {
            Some(self.data[idx])
        } else {
            None
        }
    }
}

/// Sampled data of one binding.
#[derive(Debug, Clone)]
pub enum InxBindingValues {
    /// Scalar values in a 2D grid, for the transform fields and opacity.
    Transform(InxFlatTransform),
    /// Vertex offsets in a 2D grid.
    Deform(InxFlatDeform),
    /// Not parsed.
    Other,
}

/// A param mapped to a field of a node, with its grid of values.
#[derive(Debug, Clone)]
pub struct InxBinding {
    /// UUID of the target node.
    pub node_uuid: u32,
    /// Which field of the target node this binding drives.
    pub param_name: InxParamName,
    /// Interpolation between grid points.
    pub interpolation: InxInterpolation,
    /// Sampled values, shape depends on `param_name`.
    pub values: InxBindingValues,
    /// Grid of explicitly authored points, [x][y].
    pub is_set: Vec<Vec<bool>>,
}

/// Animatable puppet parameter.
#[derive(Debug, Clone)]
pub struct InxParam {
    /// Unique identifier of the parameter.
    pub uuid: u32,
    /// Readable name.
    pub name: String,
    /// If true, a 2D vector (X, Y); if false, a scalar.
    pub is_vec2: bool,
    /// Minimum allowed value.
    pub min: [Scalar; 2],
    /// Maximum allowed value.
    pub max: [Scalar; 2],
    /// Default value at load.
    pub defaults: [Scalar; 2],
    /// Points on the X and Y axes.
    pub axis_points: [Vec<Scalar>; 2],
    /// How multiple bindings affecting the same target are combined.
    pub merge_mode: InxMergeMode,
    /// Nodes and fields this parameter affects.
    pub bindings: Vec<InxBinding>,
}

/// A point of an [`InxAnimationLane`].
#[derive(Debug, Clone, Copy, PartialEq, Eq, Structural)]
pub struct InxKeyframe {
    /// Frame index.
    pub frame: u32,
    /// Value at this frame.
    pub value: Scalar,
    /// Tension for cubic interpolation.
    pub tension: Scalar,
}

/// Keyframe track of an animation, targeting a param.
#[derive(Debug, Clone)]
pub struct InxAnimationLane {
    /// UUID of the target param.
    pub param_uuid: u32,
    /// Param component (0=X, 1=Y for vec2).
    pub target: u8,
    /// Interpolation between keyframes.
    pub interpolation: InxInterpolation,
    /// How this lane combines with other animations.
    pub merge_mode: InxMergeMode,
    /// Keyframes ordered by frame.
    pub keyframes: Vec<InxKeyframe>,
}

/// An animation of a puppet.
#[derive(Debug, Clone)]
pub struct InxAnimation {
    /// Identifier name.
    pub name: String,
    /// Total duration in seconds.
    pub duration: Scalar,
    /// Duration of each frame in seconds.
    pub timestep: Scalar,
    /// Tracks controlling individual parameters.
    pub lanes: Vec<InxAnimationLane>,
}

} // verus!
