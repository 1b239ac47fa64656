//! Documents of the parser of INR files, turned into those of the library.
//!
//! The parser's document is made of plain structures, which are declared to Verus
//! with their fields. Its numbers are singles; each becomes the [`Scalar`] with
//! the same bits.

use inochi2d_parser::inr::{
    Asset as FileAsset,
    BufferView as FileBufferView,
    InrAnimation as FileAnimation,
    InrBinding as FileBinding,
    InrBindingKind as FileBindingKind,
    InrBindingTarget as FileBindingTarget,
    InrBlendMode as FileBlendMode,
    InrColorSpace as FileColorSpace,
    InrComposeHint as FileComposeHint,
    InrComposite as FileComposite,
    InrDoc as FileDoc,
    InrInterpolation as FileInterpolation,
    InrLane as FileLane,
    InrMapMode as FileMapMode,
    InrMask as FileMask,
    InrMaskMode as FileMaskMode,
    InrMergeMode as FileMergeMode,
    InrMesh as FileMesh,
    InrNode as FileNode,
    InrNodeKind as FileNodeKind,
    InrParam as FileParam,
    InrPart as FilePart,
    InrPhysics as FilePhysicsNode,
    InrPhysicsModel as FilePhysicsModel,
    InrTextureFormat as FileTextureFormat,
    Meta as FileMeta,
    Physics as FilePhysics,
    TextureDesc as FileTextureDesc,
};
use vstd::float::FloatBitsProperties;
use vstd::prelude::*;
use vstd::std_specs::iter::IteratorSpec;

use crate::composite::InxComposeHint;
use crate::inr::{
    BufferView, InrAnimation, InrBinding, InrBindingKind, InrBindingTarget, InrBlendMode,
    InrColorSpace, InrComposite, InrDoc, InrInterpolation, InrLane, InrMapMode, InrMask,
    InrMaskMode, InrMergeMode, InrMesh, InrNode, InrNodeKind, InrParam, InrPart, InrPhysics,
    InrPhysicsModel, InrTextureFormat, Meta, Physics, TextureDesc,
};
use crate::scalar::Scalar;

verus! {

/// The node kinds of `inochi2d_parser::inr`, with their variants.
#[verifier::external_type_specification]
pub struct ExFileNodeKind(FileNodeKind);

/// The blend modes of `inochi2d_parser::inr`, with their variants.
#[verifier::external_type_specification]
pub struct ExFileBlendMode(FileBlendMode);

/// The mask modes of `inochi2d_parser::inr`, with their variants.
#[verifier::external_type_specification]
pub struct ExFileMaskMode(FileMaskMode);

/// The physics models of `inochi2d_parser::inr`, with their variants.
#[verifier::external_type_specification]
pub struct ExFilePhysicsModel(FilePhysicsModel);

/// The map modes of `inochi2d_parser::inr`, with their variants.
#[verifier::external_type_specification]
pub struct ExFileMapMode(FileMapMode);

/// The merge modes of `inochi2d_parser::inr`, with their variants.
#[verifier::external_type_specification]
pub struct ExFileMergeMode(FileMergeMode);

/// The interpolations of `inochi2d_parser::inr`, with their variants.
#[verifier::external_type_specification]
pub struct ExFileInterpolation(FileInterpolation);

/// The binding kinds of `inochi2d_parser::inr`, with their variants.
#[verifier::external_type_specification]
pub struct ExFileBindingKind(FileBindingKind);

/// The binding targets of `inochi2d_parser::inr`, with their variants.
#[verifier::external_type_specification]
pub struct ExFileBindingTarget(FileBindingTarget);

/// The texture formats of `inochi2d_parser::inr`, with their variants.
#[verifier::external_type_specification]
pub struct ExFileTextureFormat(FileTextureFormat);

/// The color spaces of `inochi2d_parser::inr`, with their variants.
#[verifier::external_type_specification]
pub struct ExFileColorSpace(FileColorSpace);

/// The compose hints of `inochi2d_parser::inr`, with their variants.
#[verifier::external_type_specification]
pub struct ExFileComposeHint(FileComposeHint);

/// `Asset` of `inochi2d_parser::inr`, with its fields.
#[verifier::external_type_specification]
pub struct ExFileAsset(FileAsset);

/// `BufferView` of `inochi2d_parser::inr`, with its fields.
#[verifier::external_type_specification]
pub struct ExFileBufferView(FileBufferView);

/// `InrAnimation` of `inochi2d_parser::inr`, with its fields.
#[verifier::external_type_specification]
pub struct ExFileAnimation(FileAnimation);

/// `InrBinding` of `inochi2d_parser::inr`, with its fields.
#[verifier::external_type_specification]
pub struct ExFileBinding(FileBinding);

/// `InrComposite` of `inochi2d_parser::inr`, with its fields.
#[verifier::external_type_specification]
pub struct ExFileComposite(FileComposite);

/// `InrDoc` of `inochi2d_parser::inr`, with its fields.
#[verifier::external_type_specification]
pub struct ExFileDoc(FileDoc);

/// `InrLane` of `inochi2d_parser::inr`, with its fields.
#[verifier::external_type_specification]
pub struct ExFileLane(FileLane);

/// `InrMask` of `inochi2d_parser::inr`, with its fields.
#[verifier::external_type_specification]
pub struct ExFileMask(FileMask);

/// `InrMesh` of `inochi2d_parser::inr`, with its fields.
#[verifier::external_type_specification]
pub struct ExFileMesh(FileMesh);

/// `InrNode` of `inochi2d_parser::inr`, with its fields.
#[verifier::external_type_specification]
pub struct ExFileNode(FileNode);

/// `InrParam` of `inochi2d_parser::inr`, with its fields.
#[verifier::external_type_specification]
pub struct ExFileParam(FileParam);

/// `InrPart` of `inochi2d_parser::inr`, with its fields.
#[verifier::external_type_specification]
pub struct ExFilePart(FilePart);

/// `InrPhysics` of `inochi2d_parser::inr`, with its fields.
#[verifier::external_type_specification]
pub struct ExFilePhysicsNode(FilePhysicsNode);

/// `Meta` of `inochi2d_parser::inr`, with its fields.
#[verifier::external_type_specification]
pub struct ExFileMeta(FileMeta);

/// `Physics` of `inochi2d_parser::inr`, with its fields.
#[verifier::external_type_specification]
pub struct ExFilePhysics(FilePhysics);

/// `TextureDesc` of `inochi2d_parser::inr`, with its fields.
#[verifier::external_type_specification]
pub struct ExFileTextureDesc(FileTextureDesc);

pub open spec fn kind_of(value: FileNodeKind) -> InrNodeKind {
    match value {
        FileNodeKind::Part => InrNodeKind::Part,
        FileNodeKind::Composite => InrNodeKind::Composite,
        FileNodeKind::Mask => InrNodeKind::Mask,
        FileNodeKind::MeshGroup => InrNodeKind::MeshGroup,
        FileNodeKind::SimplePhysics => InrNodeKind::SimplePhysics,
        FileNodeKind::Camera => InrNodeKind::Camera,
        FileNodeKind::Node => InrNodeKind::Node,
    }
}

fn kind(value: &FileNodeKind) -> (r: InrNodeKind)
    ensures
        r == kind_of(*value),
{
    match value {
        FileNodeKind::Part => InrNodeKind::Part,
        FileNodeKind::Composite => InrNodeKind::Composite,
        FileNodeKind::Mask => InrNodeKind::Mask,
        FileNodeKind::MeshGroup => InrNodeKind::MeshGroup,
        FileNodeKind::SimplePhysics => InrNodeKind::SimplePhysics,
        FileNodeKind::Camera => InrNodeKind::Camera,
        FileNodeKind::Node => InrNodeKind::Node,
    }
}

pub open spec fn blend_of(value: FileBlendMode) -> InrBlendMode {
    match value {
        FileBlendMode::Multiply => InrBlendMode::Multiply,
        FileBlendMode::Screen => InrBlendMode::Screen,
        FileBlendMode::Overlay => InrBlendMode::Overlay,
        FileBlendMode::Darken => InrBlendMode::Darken,
        FileBlendMode::Lighten => InrBlendMode::Lighten,
        FileBlendMode::ColorDodge => InrBlendMode::ColorDodge,
        FileBlendMode::LinearDodge => InrBlendMode::LinearDodge,
        FileBlendMode::Add => InrBlendMode::Add,
        FileBlendMode::ColorBurn => InrBlendMode::ColorBurn,
        FileBlendMode::HardLight => InrBlendMode::HardLight,
        FileBlendMode::SoftLight => InrBlendMode::SoftLight,
        FileBlendMode::Subtract => InrBlendMode::Subtract,
        FileBlendMode::Difference => InrBlendMode::Difference,
        FileBlendMode::Exclusion => InrBlendMode::Exclusion,
        FileBlendMode::Inverse => InrBlendMode::Inverse,
        FileBlendMode::DestinationIn => InrBlendMode::DestinationIn,
        FileBlendMode::ClipToLower => InrBlendMode::ClipToLower,
        FileBlendMode::SliceFromLower => InrBlendMode::SliceFromLower,
        FileBlendMode::Normal => InrBlendMode::Normal,
    }
}

fn blend(value: &FileBlendMode) -> (r: InrBlendMode)
    ensures
        r == blend_of(*value),
{
    match value {
        FileBlendMode::Multiply => InrBlendMode::Multiply,
        FileBlendMode::Screen => InrBlendMode::Screen,
        FileBlendMode::Overlay => InrBlendMode::Overlay,
        FileBlendMode::Darken => InrBlendMode::Darken,
        FileBlendMode::Lighten => InrBlendMode::Lighten,
        FileBlendMode::ColorDodge => InrBlendMode::ColorDodge,
        FileBlendMode::LinearDodge => InrBlendMode::LinearDodge,
        FileBlendMode::Add => InrBlendMode::Add,
        FileBlendMode::ColorBurn => InrBlendMode::ColorBurn,
        FileBlendMode::HardLight => InrBlendMode::HardLight,
        FileBlendMode::SoftLight => InrBlendMode::SoftLight,
        FileBlendMode::Subtract => InrBlendMode::Subtract,
        FileBlendMode::Difference => InrBlendMode::Difference,
        FileBlendMode::Exclusion => InrBlendMode::Exclusion,
        FileBlendMode::Inverse => InrBlendMode::Inverse,
        FileBlendMode::DestinationIn => InrBlendMode::DestinationIn,
        FileBlendMode::ClipToLower => InrBlendMode::ClipToLower,
        FileBlendMode::SliceFromLower => InrBlendMode::SliceFromLower,
        FileBlendMode::Normal => InrBlendMode::Normal,
    }
}

pub open spec fn mask_mode_of(value: FileMaskMode) -> InrMaskMode {
    match value {
        FileMaskMode::Dodge => InrMaskMode::Dodge,
        FileMaskMode::Mask => InrMaskMode::Mask,
    }
}

fn mask_mode(value: &FileMaskMode) -> (r: InrMaskMode)
    ensures
        r == mask_mode_of(*value),
{
    match value {
        FileMaskMode::Dodge => InrMaskMode::Dodge,
        FileMaskMode::Mask => InrMaskMode::Mask,
    }
}

pub open spec fn model_of(value: FilePhysicsModel) -> InrPhysicsModel {
    match value {
        FilePhysicsModel::SpringPendulum => InrPhysicsModel::SpringPendulum,
        FilePhysicsModel::Pendulum => InrPhysicsModel::Pendulum,
    }
}

fn model(value: &FilePhysicsModel) -> (r: InrPhysicsModel)
    ensures
        r == model_of(*value),
{
    match value {
        FilePhysicsModel::SpringPendulum => InrPhysicsModel::SpringPendulum,
        FilePhysicsModel::Pendulum => InrPhysicsModel::Pendulum,
    }
}

pub open spec fn map_mode_of(value: FileMapMode) -> InrMapMode {
    match value {
        FileMapMode::Xy => InrMapMode::Xy,
        FileMapMode::LengthAngle => InrMapMode::LengthAngle,
        FileMapMode::Yx => InrMapMode::Yx,
        FileMapMode::AngleLength => InrMapMode::AngleLength,
    }
}

fn map_mode(value: &FileMapMode) -> (r: InrMapMode)
    ensures
        r == map_mode_of(*value),
{
    match value {
        FileMapMode::Xy => InrMapMode::Xy,
        FileMapMode::LengthAngle => InrMapMode::LengthAngle,
        FileMapMode::Yx => InrMapMode::Yx,
        FileMapMode::AngleLength => InrMapMode::AngleLength,
    }
}

pub open spec fn merge_of(value: FileMergeMode) -> InrMergeMode {
    match value {
        FileMergeMode::Multiplicative => InrMergeMode::Multiplicative,
        FileMergeMode::Override => InrMergeMode::Override,
        FileMergeMode::Forced => InrMergeMode::Forced,
        FileMergeMode::Additive => InrMergeMode::Additive,
    }
}

fn merge(value: &FileMergeMode) -> (r: InrMergeMode)
    ensures
        r == merge_of(*value),
{
    match value {
        FileMergeMode::Multiplicative => InrMergeMode::Multiplicative,
        FileMergeMode::Override => InrMergeMode::Override,
        FileMergeMode::Forced => InrMergeMode::Forced,
        FileMergeMode::Additive => InrMergeMode::Additive,
    }
}

pub open spec fn interpolation_of(value: FileInterpolation) -> InrInterpolation {
    match value {
        FileInterpolation::Stepped => InrInterpolation::Stepped,
        FileInterpolation::Nearest => InrInterpolation::Nearest,
        FileInterpolation::Cubic => InrInterpolation::Cubic,
        FileInterpolation::Linear => InrInterpolation::Linear,
    }
}

fn interpolation(value: &FileInterpolation) -> (r: InrInterpolation)
    ensures
        r == interpolation_of(*value),
{
    match value {
        FileInterpolation::Stepped => InrInterpolation::Stepped,
        FileInterpolation::Nearest => InrInterpolation::Nearest,
        FileInterpolation::Cubic => InrInterpolation::Cubic,
        FileInterpolation::Linear => InrInterpolation::Linear,
    }
}

pub open spec fn binding_kind_of(value: FileBindingKind) -> InrBindingKind {
    match value {
        FileBindingKind::Scalar => InrBindingKind::Scalar,
        FileBindingKind::Deform => InrBindingKind::Deform,
        FileBindingKind::Other => InrBindingKind::Other,
    }
}

fn binding_kind(value: &FileBindingKind) -> (r: InrBindingKind)
    ensures
        r == binding_kind_of(*value),
{
    match value {
        FileBindingKind::Scalar => InrBindingKind::Scalar,
        FileBindingKind::Deform => InrBindingKind::Deform,
        FileBindingKind::Other => InrBindingKind::Other,
    }
}

pub open spec fn target_of(value: FileBindingTarget) -> InrBindingTarget {
    match value {
        FileBindingTarget::TranslateX => InrBindingTarget::TranslateX,
        FileBindingTarget::TranslateY => InrBindingTarget::TranslateY,
        FileBindingTarget::TranslateZ => InrBindingTarget::TranslateZ,
        FileBindingTarget::RotateX => InrBindingTarget::RotateX,
        FileBindingTarget::RotateY => InrBindingTarget::RotateY,
        FileBindingTarget::RotateZ => InrBindingTarget::RotateZ,
        FileBindingTarget::ScaleX => InrBindingTarget::ScaleX,
        FileBindingTarget::ScaleY => InrBindingTarget::ScaleY,
        FileBindingTarget::Deform => InrBindingTarget::Deform,
        FileBindingTarget::Opacity => InrBindingTarget::Opacity,
        FileBindingTarget::Other(_) => InrBindingTarget::Other,
    }
}

fn target(value: &FileBindingTarget) -> (r: InrBindingTarget)
    ensures
        r == target_of(*value),
{
    match value {
        FileBindingTarget::TranslateX => InrBindingTarget::TranslateX,
        FileBindingTarget::TranslateY => InrBindingTarget::TranslateY,
        FileBindingTarget::TranslateZ => InrBindingTarget::TranslateZ,
        FileBindingTarget::RotateX => InrBindingTarget::RotateX,
        FileBindingTarget::RotateY => InrBindingTarget::RotateY,
        FileBindingTarget::RotateZ => InrBindingTarget::RotateZ,
        FileBindingTarget::ScaleX => InrBindingTarget::ScaleX,
        FileBindingTarget::ScaleY => InrBindingTarget::ScaleY,
        FileBindingTarget::Deform => InrBindingTarget::Deform,
        FileBindingTarget::Opacity => InrBindingTarget::Opacity,
        FileBindingTarget::Other(_) => InrBindingTarget::Other,
    }
}

pub open spec fn format_of(value: FileTextureFormat) -> InrTextureFormat {
    match value {
        FileTextureFormat::Rgba8 => InrTextureFormat::Rgba8,
        FileTextureFormat::Bc7 => InrTextureFormat::Bc7,
        FileTextureFormat::Other => InrTextureFormat::Other,
    }
}

fn format(value: &FileTextureFormat) -> (r: InrTextureFormat)
    ensures
        r == format_of(*value),
{
    match value {
        FileTextureFormat::Rgba8 => InrTextureFormat::Rgba8,
        FileTextureFormat::Bc7 => InrTextureFormat::Bc7,
        FileTextureFormat::Other => InrTextureFormat::Other,
    }
}

pub open spec fn color_space_of(value: FileColorSpace) -> InrColorSpace {
    match value {
        FileColorSpace::Linear => InrColorSpace::Linear,
        FileColorSpace::Srgb => InrColorSpace::Srgb,
    }
}

fn color_space(value: &FileColorSpace) -> (r: InrColorSpace)
    ensures
        r == color_space_of(*value),
{
    match value {
        FileColorSpace::Linear => InrColorSpace::Linear,
        FileColorSpace::Srgb => InrColorSpace::Srgb,
    }
}

pub open spec fn hint_of(value: FileComposeHint) -> InxComposeHint {
    match value {
        FileComposeHint::ChildrenDisjoint => InxComposeHint::ChildrenDisjoint,
        FileComposeHint::ChildrenOverlap => InxComposeHint::ChildrenOverlap,
    }
}

fn hint(value: &FileComposeHint) -> (r: InxComposeHint)
    ensures
        r == hint_of(*value),
{
    match value {
        FileComposeHint::ChildrenDisjoint => InxComposeHint::ChildrenDisjoint,
        FileComposeHint::ChildrenOverlap => InxComposeHint::ChildrenOverlap,
    }
}

/// The number with the bits of a single.
pub open spec fn number<T: FloatBitsProperties<Bits = u32>>(x: T) -> Scalar {
    Scalar { bits: x.to_bits_spec() }
}

pub open spec fn pair<T: FloatBitsProperties<Bits = u32>>(x: [T; 2]) -> [Scalar; 2] {
    [number(x[0]), number(x[1])]
}

pub open spec fn triple<T: FloatBitsProperties<Bits = u32>>(x: [T; 3]) -> [Scalar; 3] {
    [number(x[0]), number(x[1]), number(x[2])]
}

fn scalar(bits: u32) -> (r: Scalar)
    ensures
        r == (Scalar { bits }),
{
    Scalar { bits }
}

/// `to_bits` on the singles of the physics of a document, one after the other.
#[verifier::external_body]
fn world_bits(p: &FilePhysics) -> (r: [u32; 2])
    ensures
        r[0] == p.pixels_per_meter.to_bits_spec(),
        r[1] == p.gravity.to_bits_spec(),
{
    [
        p.pixels_per_meter.to_bits(),
        p.gravity.to_bits(),
    ]
}

/// `to_bits` on the singles of a mesh, one after the other.
#[verifier::external_body]
fn mesh_bits(m: &FileMesh) -> (r: [u32; 2])
    ensures
        r[0] == m.origin[0].to_bits_spec(),
        r[1] == m.origin[1].to_bits_spec(),
{
    [
        m.origin[0].to_bits(),
        m.origin[1].to_bits(),
    ]
}

/// `to_bits` on the singles of a node, one after the other.
#[verifier::external_body]
fn node_bits(n: &FileNode) -> (r: [u32; 9])
    ensures
        r[0] == n.zsort.to_bits_spec(),
        r[1] == n.translation[0].to_bits_spec(),
        r[2] == n.translation[1].to_bits_spec(),
        r[3] == n.translation[2].to_bits_spec(),
        r[4] == n.rotation[0].to_bits_spec(),
        r[5] == n.rotation[1].to_bits_spec(),
        r[6] == n.rotation[2].to_bits_spec(),
        r[7] == n.scale[0].to_bits_spec(),
        r[8] == n.scale[1].to_bits_spec(),
{
    [
        n.zsort.to_bits(),
        n.translation[0].to_bits(),
        n.translation[1].to_bits(),
        n.translation[2].to_bits(),
        n.rotation[0].to_bits(),
        n.rotation[1].to_bits(),
        n.rotation[2].to_bits(),
        n.scale[0].to_bits(),
        n.scale[1].to_bits(),
    ]
}

/// `to_bits` on the singles of a part, one after the other.
#[verifier::external_body]
fn part_bits(p: &FilePart) -> (r: [u32; 9])
    ensures
        r[0] == p.tint[0].to_bits_spec(),
        r[1] == p.tint[1].to_bits_spec(),
        r[2] == p.tint[2].to_bits_spec(),
        r[3] == p.screen_tint[0].to_bits_spec(),
        r[4] == p.screen_tint[1].to_bits_spec(),
        r[5] == p.screen_tint[2].to_bits_spec(),
        r[6] == p.opacity.to_bits_spec(),
        r[7] == p.emission_strength.to_bits_spec(),
        r[8] == p.mask_threshold.to_bits_spec(),
{
    [
        p.tint[0].to_bits(),
        p.tint[1].to_bits(),
        p.tint[2].to_bits(),
        p.screen_tint[0].to_bits(),
        p.screen_tint[1].to_bits(),
        p.screen_tint[2].to_bits(),
        p.opacity.to_bits(),
        p.emission_strength.to_bits(),
        p.mask_threshold.to_bits(),
    ]
}

/// `to_bits` on the singles of a composite, one after the other.
#[verifier::external_body]
fn composite_bits(c: &FileComposite) -> (r: [u32; 8])
    ensures
        r[0] == c.tint[0].to_bits_spec(),
        r[1] == c.tint[1].to_bits_spec(),
        r[2] == c.tint[2].to_bits_spec(),
        r[3] == c.screen_tint[0].to_bits_spec(),
        r[4] == c.screen_tint[1].to_bits_spec(),
        r[5] == c.screen_tint[2].to_bits_spec(),
        r[6] == c.opacity.to_bits_spec(),
        r[7] == c.mask_threshold.to_bits_spec(),
{
    [
        c.tint[0].to_bits(),
        c.tint[1].to_bits(),
        c.tint[2].to_bits(),
        c.screen_tint[0].to_bits(),
        c.screen_tint[1].to_bits(),
        c.screen_tint[2].to_bits(),
        c.opacity.to_bits(),
        c.mask_threshold.to_bits(),
    ]
}

/// `to_bits` on the singles of a physics node, one after the other.
#[verifier::external_body]
fn physics_bits(p: &FilePhysicsNode) -> (r: [u32; 7])
    ensures
        r[0] == p.gravity.to_bits_spec(),
        r[1] == p.length.to_bits_spec(),
        r[2] == p.frequency.to_bits_spec(),
        r[3] == p.angle_damping.to_bits_spec(),
        r[4] == p.length_damping.to_bits_spec(),
        r[5] == p.output_scale[0].to_bits_spec(),
        r[6] == p.output_scale[1].to_bits_spec(),
{
    [
        p.gravity.to_bits(),
        p.length.to_bits(),
        p.frequency.to_bits(),
        p.angle_damping.to_bits(),
        p.length_damping.to_bits(),
        p.output_scale[0].to_bits(),
        p.output_scale[1].to_bits(),
    ]
}

/// `to_bits` on the singles of a param, but for its axes, one after the other.
#[verifier::external_body]
fn param_bits(p: &FileParam) -> (r: [u32; 6])
    ensures
        r[0] == p.min[0].to_bits_spec(),
        r[1] == p.min[1].to_bits_spec(),
        r[2] == p.max[0].to_bits_spec(),
        r[3] == p.max[1].to_bits_spec(),
        r[4] == p.defaults[0].to_bits_spec(),
        r[5] == p.defaults[1].to_bits_spec(),
{
    [
        p.min[0].to_bits(),
        p.min[1].to_bits(),
        p.max[0].to_bits(),
        p.max[1].to_bits(),
        p.defaults[0].to_bits(),
        p.defaults[1].to_bits(),
    ]
}

/// `to_bits` on the singles of an animation, one after the other.
#[verifier::external_body]
fn animation_bits(a: &FileAnimation) -> (r: [u32; 2])
    ensures
        r[0] == a.timestep.to_bits_spec(),
        r[1] == a.weight.to_bits_spec(),
{
    [
        a.timestep.to_bits(),
        a.weight.to_bits(),
    ]
}

/// `to_bits` on a point of an axis of a param.
#[verifier::external_body]
fn axis_bits(p: &FileParam, axis: usize, i: usize) -> (r: u32)
    requires
        axis < 2,
        i < p.axis_points[axis as int]@.len(),
    ensures
        r == p.axis_points[axis as int]@[i as int].to_bits_spec(),
{
    p.axis_points[axis][i].to_bits()
}

/// `to_bits` on the singles of a keyframe.
#[verifier::external_body]
fn keyframe_bits(l: &FileLane, i: usize) -> (r: [u32; 3])
    requires
        i < l.keyframes@.len(),
    ensures
        r[0] == l.keyframes@[i as int][0].to_bits_spec(),
        r[1] == l.keyframes@[i as int][1].to_bits_spec(),
        r[2] == l.keyframes@[i as int][2].to_bits_spec(),
{
    let k = &l.keyframes[i];
    [k[0].to_bits(), k[1].to_bits(), k[2].to_bits()]
}

/// `to_bits` on the singles of a point of a silhouette.
#[verifier::external_body]
fn contour_bits(doc: &FileDoc, uuid: u32, polygon: usize, i: usize) -> (r: [u32; 2])
    requires
        doc.mask_contours@.contains_key(uuid),
        polygon < doc.mask_contours@[uuid]@.len(),
        i < doc.mask_contours@[uuid]@[polygon as int]@.len(),
    ensures
        r[0] == doc.mask_contours@[uuid]@[polygon as int]@[i as int][0].to_bits_spec(),
        r[1] == doc.mask_contours@[uuid]@[polygon as int]@[i as int][1].to_bits_spec(),
{
    let p = &doc.mask_contours[&uuid][polygon][i];
    [p[0].to_bits(), p[1].to_bits()]
}

/// The characters of a text, if there is one.
pub open spec fn text(s: Option<String>) -> Option<Seq<char>> {
    match s {
        Some(t) => Some(t@),
        None => None,
    }
}

fn copied(s: &Option<String>) -> (r: Option<String>)
    ensures
        text(r) == text(*s),
{
    match s {
        Some(t) => Some(t.clone()),
        None => None,
    }
}

/// The same metadata.
pub open spec fn meta_is(f: FileMeta, m: Meta) -> bool {
    &&& text(m.name) == text(f.name)
    &&& text(m.rigger) == text(f.rigger)
    &&& text(m.artist) == text(f.artist)
    &&& text(m.rights) == text(f.rights)
    &&& text(m.copyright) == text(f.copyright)
    &&& text(m.license_url) == text(f.license_url)
    &&& text(m.contact) == text(f.contact)
    &&& text(m.reference) == text(f.reference)
    &&& text(m.source_version) == text(f.source_version)
}

fn meta(f: &FileMeta) -> (r: Meta)
    ensures
        meta_is(*f, r),
{
    Meta {
        name: copied(&f.name),
        rigger: copied(&f.rigger),
        artist: copied(&f.artist),
        rights: copied(&f.rights),
        copyright: copied(&f.copyright),
        license_url: copied(&f.license_url),
        contact: copied(&f.contact),
        reference: copied(&f.reference),
        source_version: copied(&f.source_version),
    }
}

fn world(f: &FilePhysics) -> (r: Physics)
    ensures
        r.pixels_per_meter == number(f.pixels_per_meter),
        r.gravity == number(f.gravity),
{
    let b = world_bits(f);
    Physics { pixels_per_meter: scalar(b[0]), gravity: scalar(b[1]) }
}

pub open spec fn view_of(f: FileBufferView) -> BufferView {
    BufferView { offset: f.offset, length: f.length }
}

pub open spec fn texture_of(f: FileTextureDesc) -> TextureDesc {
    TextureDesc {
        width: f.width,
        height: f.height,
        format: format_of(f.format),
        color_space: color_space_of(f.color_space),
        premultiplied: f.premultiplied,
        view: f.view,
    }
}

pub open spec fn mask_of(f: FileMask) -> InrMask {
    InrMask { node: f.node, mode: mask_mode_of(f.mode) }
}

pub open spec fn mesh_of(f: FileMesh) -> InrMesh {
    InrMesh {
        vertex_count: f.vertex_count,
        positions: f.positions,
        uvs: f.uvs,
        indices: f.indices,
        origin: pair(f.origin),
    }
}

fn mesh(f: &FileMesh) -> (r: InrMesh)
    ensures
        r == mesh_of(*f),
{
    let b = mesh_bits(f);
    InrMesh {
        vertex_count: f.vertex_count,
        positions: f.positions,
        uvs: f.uvs,
        indices: f.indices,
        origin: [scalar(b[0]), scalar(b[1])],
    }
}

pub open spec fn physics_of(f: FilePhysicsNode) -> InrPhysics {
    InrPhysics {
        param: f.param,
        model: model_of(f.model),
        map_mode: map_mode_of(f.map_mode),
        gravity: number(f.gravity),
        length: number(f.length),
        frequency: number(f.frequency),
        angle_damping: number(f.angle_damping),
        length_damping: number(f.length_damping),
        output_scale: pair(f.output_scale),
        local_only: f.local_only,
    }
}

fn physics(f: &FilePhysicsNode) -> (r: InrPhysics)
    ensures
        r == physics_of(*f),
{
    let b = physics_bits(f);
    InrPhysics {
        param: f.param,
        model: model(&f.model),
        map_mode: map_mode(&f.map_mode),
        gravity: scalar(b[0]),
        length: scalar(b[1]),
        frequency: scalar(b[2]),
        angle_damping: scalar(b[3]),
        length_damping: scalar(b[4]),
        output_scale: [scalar(b[5]), scalar(b[6])],
        local_only: f.local_only,
    }
}

fn views(f: &Vec<FileBufferView>) -> (r: Vec<BufferView>)
    ensures
        r@ == f@.map_values(|x: FileBufferView| view_of(x)),
{
    let mut r: Vec<BufferView> = Vec::new();
    let mut i: usize = 0;
    while i < f.len()
        invariant
            i <= f@.len(),
            r@.len() == i,
            forall|j: int| 0 <= j < i ==> #[trigger] r@[j] == view_of(f@[j]),
        decreases f@.len() - i,
    {
        r.push(BufferView { offset: f[i].offset, length: f[i].length });
        i = i + 1;
    }
    assert(r@ =~= f@.map_values(|x: FileBufferView| view_of(x)));
    r
}

fn texture(f: &FileTextureDesc) -> (r: TextureDesc)
    ensures
        r == texture_of(*f),
{
    TextureDesc {
        width: f.width,
        height: f.height,
        format: format(&f.format),
        color_space: color_space(&f.color_space),
        premultiplied: f.premultiplied,
        view: f.view,
    }
}

fn textures(f: &Vec<FileTextureDesc>) -> (r: Vec<TextureDesc>)
    ensures
        r@ == f@.map_values(|x: FileTextureDesc| texture_of(x)),
{
    let mut r: Vec<TextureDesc> = Vec::new();
    let mut i: usize = 0;
    while i < f.len()
        invariant
            i <= f@.len(),
            r@.len() == i,
            forall|j: int| 0 <= j < i ==> #[trigger] r@[j] == texture_of(f@[j]),
        decreases f@.len() - i,
    {
        r.push(texture(&f[i]));
        i = i + 1;
    }
    assert(r@ =~= f@.map_values(|x: FileTextureDesc| texture_of(x)));
    r
}

fn masks(f: &Vec<FileMask>) -> (r: Vec<InrMask>)
    ensures
        r@ == f@.map_values(|x: FileMask| mask_of(x)),
{
    let mut r: Vec<InrMask> = Vec::new();
    let mut i: usize = 0;
    while i < f.len()
        invariant
            i <= f@.len(),
            r@.len() == i,
            forall|j: int| 0 <= j < i ==> #[trigger] r@[j] == mask_of(f@[j]),
        decreases f@.len() - i,
    {
        r.push(InrMask { node: f[i].node, mode: mask_mode(&f[i].mode) });
        i = i + 1;
    }
    assert(r@ =~= f@.map_values(|x: FileMask| mask_of(x)));
    r
}

/// The same part.
pub open spec fn part_is(f: FilePart, p: InrPart) -> bool {
    &&& p.textures == f.textures
    &&& p.blend_mode == blend_of(f.blend_mode)
    &&& p.tint == triple(f.tint)
    &&& p.screen_tint == triple(f.screen_tint)
    &&& p.opacity == number(f.opacity)
    &&& p.emission_strength == number(f.emission_strength)
    &&& p.mask_threshold == number(f.mask_threshold)
    &&& p.masks@ == f.masks@.map_values(|x: FileMask| mask_of(x))
}

fn part(f: &FilePart) -> (r: InrPart)
    ensures
        part_is(*f, r),
{
    let b = part_bits(f);
    InrPart {
        textures: f.textures,
        blend_mode: blend(&f.blend_mode),
        tint: [scalar(b[0]), scalar(b[1]), scalar(b[2])],
        screen_tint: [scalar(b[3]), scalar(b[4]), scalar(b[5])],
        opacity: scalar(b[6]),
        emission_strength: scalar(b[7]),
        mask_threshold: scalar(b[8]),
        masks: masks(&f.masks),
    }
}

/// The same composite.
pub open spec fn composite_is(f: FileComposite, c: InrComposite) -> bool {
    &&& c.blend_mode == blend_of(f.blend_mode)
    &&& c.tint == triple(f.tint)
    &&& c.screen_tint == triple(f.screen_tint)
    &&& c.opacity == number(f.opacity)
    &&& c.mask_threshold == number(f.mask_threshold)
    &&& c.masks@ == f.masks@.map_values(|x: FileMask| mask_of(x))
    &&& c.compose_hint == (match f.compose_hint {
        Some(h) => Some(hint_of(h)),
        None => None,
    })
    &&& c.propagate_meshgroup == f.propagate_meshgroup
}

fn composite(f: &FileComposite) -> (r: InrComposite)
    ensures
        composite_is(*f, r),
{
    let b = composite_bits(f);
    InrComposite {
        blend_mode: blend(&f.blend_mode),
        tint: [scalar(b[0]), scalar(b[1]), scalar(b[2])],
        screen_tint: [scalar(b[3]), scalar(b[4]), scalar(b[5])],
        opacity: scalar(b[6]),
        mask_threshold: scalar(b[7]),
        masks: masks(&f.masks),
        compose_hint: match &f.compose_hint {
            Some(h) => Some(hint(h)),
            None => None,
        },
        propagate_meshgroup: f.propagate_meshgroup,
    }
}

/// The same node.
pub open spec fn node_is(f: FileNode, n: InrNode) -> bool {
    &&& n.name@ == f.name@
    &&& n.uuid == f.uuid
    &&& n.parent == f.parent
    &&& n.kind == kind_of(f.kind)
    &&& n.enabled == f.enabled
    &&& n.zsort == number(f.zsort)
    &&& n.lock_to_root == f.lock_to_root
    &&& n.translation == triple(f.translation)
    &&& n.rotation == triple(f.rotation)
    &&& n.scale == pair(f.scale)
    &&& n.mesh == (match f.mesh {
        Some(m) => Some(mesh_of(m)),
        None => None,
    })
    &&& match f.part {
        Some(p) => n.part matches Some(own) && part_is(p, own),
        None => n.part is None,
    }
    &&& match f.composite {
        Some(c) => n.composite matches Some(own) && composite_is(c, own),
        None => n.composite is None,
    }
    &&& n.physics == (match f.physics {
        Some(p) => Some(physics_of(p)),
        None => None,
    })
    &&& n.mesh_group_dynamic == f.mesh_group_dynamic
}

fn node(f: &FileNode) -> (r: InrNode)
    ensures
        node_is(*f, r),
{
    let b = node_bits(f);
    InrNode {
        name: f.name.clone(),
        uuid: f.uuid,
        parent: f.parent,
        kind: kind(&f.kind),
        enabled: f.enabled,
        zsort: scalar(b[0]),
        lock_to_root: f.lock_to_root,
        translation: [scalar(b[1]), scalar(b[2]), scalar(b[3])],
        rotation: [scalar(b[4]), scalar(b[5]), scalar(b[6])],
        scale: [scalar(b[7]), scalar(b[8])],
        mesh: match &f.mesh {
            Some(m) => Some(mesh(m)),
            None => None,
        },
        part: match &f.part {
            Some(p) => Some(part(p)),
            None => None,
        },
        composite: match &f.composite {
            Some(c) => Some(composite(c)),
            None => None,
        },
        physics: match &f.physics {
            Some(p) => Some(physics(p)),
            None => None,
        },
        mesh_group_dynamic: f.mesh_group_dynamic,
    }
}

/// The same nodes, in the same order.
pub open spec fn nodes_are(f: Seq<FileNode>, r: Seq<InrNode>) -> bool {
    &&& r.len() == f.len()
    &&& forall|j: int| 0 <= j < r.len() ==> node_is(f[j], #[trigger] r[j])
}

fn nodes(f: &Vec<FileNode>) -> (r: Vec<InrNode>)
    ensures
        nodes_are(f@, r@),
{
    let mut r: Vec<InrNode> = Vec::new();
    let mut i: usize = 0;
    while i < f.len()
        invariant
            i <= f@.len(),
            r@.len() == i,
            forall|j: int| 0 <= j < i ==> node_is(f@[j], #[trigger] r@[j]),
        decreases f@.len() - i,
    {
        r.push(node(&f[i]));
        i = i + 1;
    }
    r
}

fn flags(f: &Vec<bool>) -> (r: Vec<bool>)
    ensures
        r@ == f@,
{
    let mut r: Vec<bool> = Vec::new();
    let mut i: usize = 0;
    while i < f.len()
        invariant
            i <= f@.len(),
            r@ == f@.take(i as int),
        decreases f@.len() - i,
    {
        r.push(f[i]);
        i = i + 1;
        assert(r@ =~= f@.take(i as int));
    }
    assert(r@ =~= f@);
    r
}

/// The same binding.
pub open spec fn binding_is(f: FileBinding, b: InrBinding) -> bool {
    &&& b.node == f.node
    &&& b.target == target_of(f.target)
    &&& b.interpolation == interpolation_of(f.interpolation)
    &&& b.x_count == f.x_count
    &&& b.y_count == f.y_count
    &&& b.is_set@ == f.is_set@
    &&& b.kind == binding_kind_of(f.kind)
    &&& b.view == f.view
}

fn binding(f: &FileBinding) -> (r: InrBinding)
    ensures
        binding_is(*f, r),
{
    InrBinding {
        node: f.node,
        target: target(&f.target),
        interpolation: interpolation(&f.interpolation),
        x_count: f.x_count,
        y_count: f.y_count,
        is_set: flags(&f.is_set),
        kind: binding_kind(&f.kind),
        view: f.view,
    }
}

/// The same bindings, in the same order.
pub open spec fn bindings_are(f: Seq<FileBinding>, r: Seq<InrBinding>) -> bool {
    &&& r.len() == f.len()
    &&& forall|j: int| 0 <= j < r.len() ==> binding_is(f[j], #[trigger] r[j])
}

fn bindings(f: &Vec<FileBinding>) -> (r: Vec<InrBinding>)
    ensures
        bindings_are(f@, r@),
{
    let mut r: Vec<InrBinding> = Vec::new();
    let mut i: usize = 0;
    while i < f.len()
        invariant
            i <= f@.len(),
            r@.len() == i,
            forall|j: int| 0 <= j < i ==> binding_is(f@[j], #[trigger] r@[j]),
        decreases f@.len() - i,
    {
        r.push(binding(&f[i]));
        i = i + 1;
    }
    r
}

/// The same points on an axis.
pub open spec fn axis_is<T: FloatBitsProperties<Bits = u32>>(f: Seq<T>, r: Seq<Scalar>) -> bool {
    &&& r.len() == f.len()
    &&& forall|j: int| 0 <= j < r.len() ==> #[trigger] r[j] == number(f[j])
}

fn axis_points(f: &FileParam, axis: usize) -> (r: Vec<Scalar>)
    requires
        axis < 2,
    ensures
        axis_is(f.axis_points[axis as int]@, r@),
{
    let mut r: Vec<Scalar> = Vec::new();
    let mut i: usize = 0;
    while i < f.axis_points[axis].len()
        invariant
            axis < 2,
            i <= f.axis_points[axis as int]@.len(),
            r@.len() == i,
            forall|j: int|
                0 <= j < i ==> #[trigger] r@[j] == number(f.axis_points[axis as int]@[j]),
        decreases f.axis_points[axis as int]@.len() - i,
    {
        r.push(scalar(axis_bits(f, axis, i)));
        i = i + 1;
    }
    r
}

/// The same param.
pub open spec fn param_is(f: FileParam, p: InrParam) -> bool {
    &&& p.name@ == f.name@
    &&& p.uuid == f.uuid
    &&& p.is_vec2 == f.is_vec2
    &&& p.min == pair(f.min)
    &&& p.max == pair(f.max)
    &&& p.defaults == pair(f.defaults)
    &&& axis_is(f.axis_points[0]@, p.axis_points[0]@)
    &&& axis_is(f.axis_points[1]@, p.axis_points[1]@)
    &&& p.merge_mode == merge_of(f.merge_mode)
    &&& bindings_are(f.bindings@, p.bindings@)
}

fn param(f: &FileParam) -> (r: InrParam)
    ensures
        param_is(*f, r),
{
    let b = param_bits(f);
    InrParam {
        name: f.name.clone(),
        uuid: f.uuid,
        is_vec2: f.is_vec2,
        min: [scalar(b[0]), scalar(b[1])],
        max: [scalar(b[2]), scalar(b[3])],
        defaults: [scalar(b[4]), scalar(b[5])],
        axis_points: [axis_points(f, 0), axis_points(f, 1)],
        merge_mode: merge(&f.merge_mode),
        bindings: bindings(&f.bindings),
    }
}

/// The same params, in the same order.
pub open spec fn params_are(f: Seq<FileParam>, r: Seq<InrParam>) -> bool {
    &&& r.len() == f.len()
    &&& forall|j: int| 0 <= j < r.len() ==> param_is(f[j], #[trigger] r[j])
}

fn params(f: &Vec<FileParam>) -> (r: Vec<InrParam>)
    ensures
        params_are(f@, r@),
{
    let mut r: Vec<InrParam> = Vec::new();
    let mut i: usize = 0;
    while i < f.len()
        invariant
            i <= f@.len(),
            r@.len() == i,
            forall|j: int| 0 <= j < i ==> param_is(f@[j], #[trigger] r@[j]),
        decreases f@.len() - i,
    {
        r.push(param(&f[i]));
        i = i + 1;
    }
    r
}

/// The same lane.
pub open spec fn lane_is(f: FileLane, l: InrLane) -> bool {
    &&& l.param == f.param
    &&& l.target == f.target
    &&& l.interpolation == interpolation_of(f.interpolation)
    &&& l.merge_mode == merge_of(f.merge_mode)
    &&& l.keyframes@.len() == f.keyframes@.len()
    &&& forall|j: int|
        0 <= j < l.keyframes@.len() ==> #[trigger] l.keyframes@[j] == triple(f.keyframes@[j])
}

fn lane(f: &FileLane) -> (r: InrLane)
    ensures
        lane_is(*f, r),
{
    let mut keyframes: Vec<[Scalar; 3]> = Vec::new();
    let mut i: usize = 0;
    while i < f.keyframes.len()
        invariant
            i <= f.keyframes@.len(),
            keyframes@.len() == i,
            forall|j: int| 0 <= j < i ==> #[trigger] keyframes@[j] == triple(f.keyframes@[j]),
        decreases f.keyframes@.len() - i,
    {
        let b = keyframe_bits(f, i);
        keyframes.push([scalar(b[0]), scalar(b[1]), scalar(b[2])]);
        i = i + 1;
    }
    InrLane {
        param: f.param,
        target: f.target,
        interpolation: interpolation(&f.interpolation),
        merge_mode: merge(&f.merge_mode),
        keyframes,
    }
}

/// The same lanes, in the same order.
pub open spec fn lanes_are(f: Seq<FileLane>, r: Seq<InrLane>) -> bool {
    &&& r.len() == f.len()
    &&& forall|j: int| 0 <= j < r.len() ==> lane_is(f[j], #[trigger] r[j])
}

fn lanes(f: &Vec<FileLane>) -> (r: Vec<InrLane>)
    ensures
        lanes_are(f@, r@),
{
    let mut r: Vec<InrLane> = Vec::new();
    let mut i: usize = 0;
    while i < f.len()
        invariant
            i <= f@.len(),
            r@.len() == i,
            forall|j: int| 0 <= j < i ==> lane_is(f@[j], #[trigger] r@[j]),
        decreases f@.len() - i,
    {
        r.push(lane(&f[i]));
        i = i + 1;
    }
    r
}

/// The same animation.
pub open spec fn animation_is(f: FileAnimation, a: InrAnimation) -> bool {
    &&& a.name@ == f.name@
    &&& a.timestep == number(f.timestep)
    &&& a.additive == f.additive
    &&& a.length == f.length
    &&& a.lead_in == f.lead_in
    &&& a.lead_out == f.lead_out
    &&& a.weight == number(f.weight)
    &&& lanes_are(f.lanes@, a.lanes@)
}

fn animation(f: &FileAnimation) -> (r: InrAnimation)
    ensures
        animation_is(*f, r),
{
    let b = animation_bits(f);
    InrAnimation {
        name: f.name.clone(),
        timestep: scalar(b[0]),
        additive: f.additive,
        length: f.length,
        lead_in: f.lead_in,
        lead_out: f.lead_out,
        weight: scalar(b[1]),
        lanes: lanes(&f.lanes),
    }
}

/// The same animations, in the same order.
pub open spec fn animations_are(f: Seq<FileAnimation>, r: Seq<InrAnimation>) -> bool {
    &&& r.len() == f.len()
    &&& forall|j: int| 0 <= j < r.len() ==> animation_is(f[j], #[trigger] r[j])
}

fn animations(f: &Vec<FileAnimation>) -> (r: Vec<InrAnimation>)
    ensures
        animations_are(f@, r@),
{
    let mut r: Vec<InrAnimation> = Vec::new();
    let mut i: usize = 0;
    while i < f.len()
        invariant
            i <= f@.len(),
            r@.len() == i,
            forall|j: int| 0 <= j < i ==> animation_is(f@[j], #[trigger] r@[j]),
        decreases f@.len() - i,
    {
        r.push(animation(&f[i]));
        i = i + 1;
    }
    r
}

/// The same silhouette.
pub open spec fn contours_are<T: FloatBitsProperties<Bits = u32>>(
    f: Seq<Vec<[T; 2]>>,
    r: Seq<Vec<[Scalar; 2]>>,
) -> bool {
    &&& r.len() == f.len()
    &&& forall|p: int|
        #![trigger r[p]]
        0 <= p < r.len() ==> r[p]@.len() == f[p]@.len() && forall|i: int|
            0 <= i < r[p]@.len() ==> #[trigger] r[p]@[i] == pair(f[p]@[i])
}

fn contours(doc: &FileDoc, uuid: u32, sizes: &Vec<usize>) -> (r: Vec<Vec<[Scalar; 2]>>)
    requires
        doc.mask_contours@.contains_key(uuid),
        sizes@.len() == doc.mask_contours@[uuid]@.len(),
        forall|p: int|
            0 <= p < sizes@.len() ==> #[trigger] sizes@[p] == doc.mask_contours@[uuid]@[p]@.len(),
    ensures
        contours_are(doc.mask_contours@[uuid]@, r@),
{
    let ghost f = doc.mask_contours@[uuid]@;
    let mut r: Vec<Vec<[Scalar; 2]>> = Vec::new();
    let mut p: usize = 0;
    while p < sizes.len()
        invariant
            f == doc.mask_contours@[uuid]@,
            doc.mask_contours@.contains_key(uuid),
            sizes@.len() == f.len(),
            forall|q: int| 0 <= q < sizes@.len() ==> #[trigger] sizes@[q] == f[q]@.len(),
            p <= sizes@.len(),
            r@.len() == p,
            forall|q: int|
                #![trigger r@[q]]
                0 <= q < p ==> r@[q]@.len() == f[q]@.len() && forall|i: int|
                    0 <= i < r@[q]@.len() ==> #[trigger] r@[q]@[i] == pair(f[q]@[i]),
        decreases sizes@.len() - p,
    {
        let size: usize = sizes[p];
        let mut polygon: Vec<[Scalar; 2]> = Vec::new();
        let mut i: usize = 0;
        while i < size
            invariant
                f == doc.mask_contours@[uuid]@,
                doc.mask_contours@.contains_key(uuid),
                p < f.len(),
                size == f[p as int]@.len(),
                i <= size,
                polygon@.len() == i,
                forall|j: int| 0 <= j < i ==> #[trigger] polygon@[j] == pair(f[p as int]@[j]),
            decreases size - i,
        {
            let b = contour_bits(doc, uuid, p, i);
            polygon.push([scalar(b[0]), scalar(b[1])]);
            i = i + 1;
        }
        r.push(polygon);
        p = p + 1;
    }
    r
}

/// The same silhouettes: each of the map once.
pub open spec fn silhouettes_are<T: FloatBitsProperties<Bits = u32>>(
    f: Map<u32, Vec<Vec<[T; 2]>>>,
    r: Seq<(u32, Vec<Vec<[Scalar; 2]>>)>,
) -> bool {
    &&& forall|j: int|
        0 <= j < r.len() ==> f.contains_key((#[trigger] r[j]).0) && contours_are(
            f[r[j].0]@,
            r[j].1@,
        )
    &&& forall|i: int, j: int| 0 <= i < j < r.len() ==> (#[trigger] r[i]).0 != (#[trigger] r[j]).0
    &&& forall|k: u32| #[trigger]
        f.contains_key(k) ==> exists|j: int| 0 <= j < r.len() && (#[trigger] r[j]).0 == k
}

fn silhouettes(doc: &FileDoc) -> (r: Vec<(u32, Vec<Vec<[Scalar; 2]>>)>)
    ensures
        silhouettes_are(doc.mask_contours@, r@),
{
    broadcast use vstd::std_specs::btree::group_btree_axioms;

    let ghost f = doc.mask_contours@;
    let mut r: Vec<(u32, Vec<Vec<[Scalar; 2]>>)> = Vec::new();
    let entries = doc.mask_contours.iter();
    let ghost order = entries.remaining();
    for entry in it: entries
        invariant
            f == doc.mask_contours@,
            it.seq() == order,
            r@.len() == it.index(),
            forall|j: int|
                0 <= j < order.len() ==> f.contains_key(*(#[trigger] order[j]).0)
                    && f[*order[j].0] == *order[j].1,
            forall|j: int|
                0 <= j < r@.len() ==> (#[trigger] r@[j]).0 == *it.seq()[j].0 && f.contains_key(
                    r@[j].0,
                ) && contours_are(f[r@[j].0]@, r@[j].1@),
    {
        let (uuid, polygons) = entry;
        let mut sizes: Vec<usize> = Vec::new();
        let mut p: usize = 0;
        while p < polygons.len()
            invariant
                p <= polygons@.len(),
                sizes@.len() == p,
                forall|q: int| 0 <= q < p ==> #[trigger] sizes@[q] == polygons@[q]@.len(),
            decreases polygons@.len() - p,
        {
            sizes.push(polygons[p].len());
            p = p + 1;
        }
        assert(f.contains_key(*uuid) && f[*uuid] == *polygons);
        r.push((*uuid, contours(doc, *uuid, &sizes)));
    }
    proof {
        assert(r@.len() == order.len());
        assert forall|i: int, j: int| 0 <= i < j < r@.len() implies (#[trigger] r@[i]).0 != (
        #[trigger] r@[j]).0 by {
            if r@[i].0 == r@[j].0 {
                assert(order[i] == order[j]);
            }
        }
        assert forall|k: u32| #[trigger] f.contains_key(k) implies exists|j: int|
            0 <= j < r@.len() && (#[trigger] r@[j]).0 == k by {
            assert(order.contains((&k, &f[k])));
            let j = order.index_of((&k, &f[k]));
            assert(r@[j].0 == k);
        }
    }
    r
}

/// The same document. Who wrote the file is not kept.
pub open spec fn document_is(f: FileDoc, d: InrDoc) -> bool {
    &&& meta_is(f.meta, d.meta)
    &&& d.physics.pixels_per_meter == number(f.physics.pixels_per_meter)
    &&& d.physics.gravity == number(f.physics.gravity)
    &&& d.buffer_views@ == f.buffer_views@.map_values(|x: FileBufferView| view_of(x))
    &&& d.textures@ == f.textures@.map_values(|x: FileTextureDesc| texture_of(x))
    &&& nodes_are(f.nodes@, d.nodes@)
    &&& params_are(f.params@, d.params@)
    &&& animations_are(f.animations@, d.animations@)
    &&& silhouettes_are(f.mask_contours@, d.mask_contours@)
}

/// Turns a document of the parser into one of the library.
pub fn document(f: &FileDoc) -> (r: InrDoc)
    ensures
        document_is(*f, r),
{
    InrDoc {
        meta: meta(&f.meta),
        physics: world(&f.physics),
        buffer_views: views(&f.buffer_views),
        textures: textures(&f.textures),
        nodes: nodes(&f.nodes),
        params: params(&f.params),
        animations: animations(&f.animations),
        mask_contours: silhouettes(f),
    }
}

} // verus!
