//! The modes of an authored puppet, turned into those of the library.
//!
//! The modes are enumerations of `inochi2d_parser::owned`. Each mode goes to the
//! one of the same meaning; of the interpolations, the nearest and the stepped
//! one are both stepped here.

use inochi2d_parser::owned::{
    BlendMode as AuthoredBlendMode, Interpolation as AuthoredInterpolation,
    MaskMode as AuthoredMaskMode, MergeMode as AuthoredMergeMode,
    PhysicsMapMode as AuthoredMapMode, PhysicsModelType as AuthoredPhysicsModel,
};
use vstd::prelude::*;
use vstd::std_specs::convert::FromSpecImpl;

use crate::blend::BlendMode;
use crate::model::{InxInterpolation, InxMaskMode, InxMergeMode, PhysicsMapMode, PhysicsModel};

verus! {

/// The blend modes of `inochi2d_parser::owned`, with their variants.
#[verifier::external_type_specification]
pub struct ExAuthoredBlendMode(AuthoredBlendMode);

/// The mask modes of `inochi2d_parser::owned`, with their variants.
#[verifier::external_type_specification]
pub struct ExAuthoredMaskMode(AuthoredMaskMode);

/// The merge modes of `inochi2d_parser::owned`, with their variants.
#[verifier::external_type_specification]
pub struct ExAuthoredMergeMode(AuthoredMergeMode);

/// The interpolations of `inochi2d_parser::owned`, with their variants.
#[verifier::external_type_specification]
pub struct ExAuthoredInterpolation(AuthoredInterpolation);

/// The models of pendulums of `inochi2d_parser::owned`, with their variants.
#[verifier::external_type_specification]
pub struct ExAuthoredPhysicsModel(AuthoredPhysicsModel);

/// The map modes of pendulums of `inochi2d_parser::owned`, with their variants.
#[verifier::external_type_specification]
pub struct ExAuthoredMapMode(AuthoredMapMode);

impl From<AuthoredBlendMode> for BlendMode {
    fn from(mode: AuthoredBlendMode) -> (r: BlendMode) {
        match mode {
            AuthoredBlendMode::Normal => BlendMode::Normal,
            AuthoredBlendMode::Multiply => BlendMode::Multiply,
            AuthoredBlendMode::Screen => BlendMode::Screen,
            AuthoredBlendMode::Overlay => BlendMode::Overlay,
            AuthoredBlendMode::Darken => BlendMode::Darken,
            AuthoredBlendMode::Lighten => BlendMode::Lighten,
            AuthoredBlendMode::ColorDodge => BlendMode::ColorDodge,
            AuthoredBlendMode::LinearDodge => BlendMode::LinearDodge,
            AuthoredBlendMode::Add => BlendMode::Add,
            AuthoredBlendMode::ColorBurn => BlendMode::ColorBurn,
            AuthoredBlendMode::HardLight => BlendMode::HardLight,
            AuthoredBlendMode::SoftLight => BlendMode::SoftLight,
            AuthoredBlendMode::Subtract => BlendMode::Subtract,
            AuthoredBlendMode::Difference => BlendMode::Difference,
            AuthoredBlendMode::Exclusion => BlendMode::Exclusion,
            AuthoredBlendMode::Inverse => BlendMode::Inverse,
            AuthoredBlendMode::DestinationIn => BlendMode::DestinationIn,
            AuthoredBlendMode::ClipToLower => BlendMode::ClipToLower,
            AuthoredBlendMode::SliceFromLower => BlendMode::SliceFromLower,
        }
    }
}

impl FromSpecImpl<AuthoredBlendMode> for BlendMode {
    open spec fn obeys_from_spec() -> bool {
        true
    }

    open spec fn from_spec(mode: AuthoredBlendMode) -> BlendMode {
        match mode {
            AuthoredBlendMode::Normal => BlendMode::Normal,
            AuthoredBlendMode::Multiply => BlendMode::Multiply,
            AuthoredBlendMode::Screen => BlendMode::Screen,
            AuthoredBlendMode::Overlay => BlendMode::Overlay,
            AuthoredBlendMode::Darken => BlendMode::Darken,
            AuthoredBlendMode::Lighten => BlendMode::Lighten,
            AuthoredBlendMode::ColorDodge => BlendMode::ColorDodge,
            AuthoredBlendMode::LinearDodge => BlendMode::LinearDodge,
            AuthoredBlendMode::Add => BlendMode::Add,
            AuthoredBlendMode::ColorBurn => BlendMode::ColorBurn,
            AuthoredBlendMode::HardLight => BlendMode::HardLight,
            AuthoredBlendMode::SoftLight => BlendMode::SoftLight,
            AuthoredBlendMode::Subtract => BlendMode::Subtract,
            AuthoredBlendMode::Difference => BlendMode::Difference,
            AuthoredBlendMode::Exclusion => BlendMode::Exclusion,
            AuthoredBlendMode::Inverse => BlendMode::Inverse,
            AuthoredBlendMode::DestinationIn => BlendMode::DestinationIn,
            AuthoredBlendMode::ClipToLower => BlendMode::ClipToLower,
            AuthoredBlendMode::SliceFromLower => BlendMode::SliceFromLower,
        }
    }
}

impl From<AuthoredMaskMode> for InxMaskMode {
    fn from(mode: AuthoredMaskMode) -> (r: InxMaskMode) {
        match mode {
            AuthoredMaskMode::Mask => InxMaskMode::Mask,
            AuthoredMaskMode::Dodge => InxMaskMode::Dodge,
        }
    }
}

impl FromSpecImpl<AuthoredMaskMode> for InxMaskMode {
    open spec fn obeys_from_spec() -> bool {
        true
    }

    open spec fn from_spec(mode: AuthoredMaskMode) -> InxMaskMode {
        match mode {
            AuthoredMaskMode::Mask => InxMaskMode::Mask,
            AuthoredMaskMode::Dodge => InxMaskMode::Dodge,
        }
    }
}

impl From<AuthoredMergeMode> for InxMergeMode {
    fn from(mode: AuthoredMergeMode) -> (r: InxMergeMode) {
        match mode {
            AuthoredMergeMode::Additive => InxMergeMode::Additive,
            AuthoredMergeMode::Multiplicative => InxMergeMode::Multiply,
            AuthoredMergeMode::Override => InxMergeMode::Override,
            AuthoredMergeMode::Forced => InxMergeMode::Forced,
        }
    }
}

impl FromSpecImpl<AuthoredMergeMode> for InxMergeMode {
    open spec fn obeys_from_spec() -> bool {
        true
    }

    open spec fn from_spec(mode: AuthoredMergeMode) -> InxMergeMode {
        match mode {
            AuthoredMergeMode::Additive => InxMergeMode::Additive,
            AuthoredMergeMode::Multiplicative => InxMergeMode::Multiply,
            AuthoredMergeMode::Override => InxMergeMode::Override,
            AuthoredMergeMode::Forced => InxMergeMode::Forced,
        }
    }
}

impl From<AuthoredInterpolation> for InxInterpolation {
    fn from(mode: AuthoredInterpolation) -> (r: InxInterpolation) {
        match mode {
            AuthoredInterpolation::Linear => InxInterpolation::Linear,
            AuthoredInterpolation::Stepped => InxInterpolation::Stepped,
            AuthoredInterpolation::Nearest => InxInterpolation::Stepped,
            AuthoredInterpolation::Cubic => InxInterpolation::Cubic,
        }
    }
}

impl FromSpecImpl<AuthoredInterpolation> for InxInterpolation {
    open spec fn obeys_from_spec() -> bool {
        true
    }

    open spec fn from_spec(mode: AuthoredInterpolation) -> InxInterpolation {
        match mode {
            AuthoredInterpolation::Linear => InxInterpolation::Linear,
            AuthoredInterpolation::Stepped => InxInterpolation::Stepped,
            AuthoredInterpolation::Nearest => InxInterpolation::Stepped,
            AuthoredInterpolation::Cubic => InxInterpolation::Cubic,
        }
    }
}

impl From<AuthoredPhysicsModel> for PhysicsModel {
    fn from(mode: AuthoredPhysicsModel) -> (r: PhysicsModel) {
        match mode {
            AuthoredPhysicsModel::Pendulum => PhysicsModel::Pendulum,
            AuthoredPhysicsModel::SpringPendulum => PhysicsModel::SpringPendulum,
        }
    }
}

impl FromSpecImpl<AuthoredPhysicsModel> for PhysicsModel {
    open spec fn obeys_from_spec() -> bool {
        true
    }

    open spec fn from_spec(mode: AuthoredPhysicsModel) -> PhysicsModel {
        match mode {
            AuthoredPhysicsModel::Pendulum => PhysicsModel::Pendulum,
            AuthoredPhysicsModel::SpringPendulum => PhysicsModel::SpringPendulum,
        }
    }
}

impl From<AuthoredMapMode> for PhysicsMapMode {
    fn from(mode: AuthoredMapMode) -> (r: PhysicsMapMode) {
        match mode {
            AuthoredMapMode::AngleLength => PhysicsMapMode::AngleLength,
            AuthoredMapMode::XY => PhysicsMapMode::XY,
            AuthoredMapMode::LengthAngle => PhysicsMapMode::LengthAngle,
            AuthoredMapMode::YX => PhysicsMapMode::YX,
        }
    }
}

impl FromSpecImpl<AuthoredMapMode> for PhysicsMapMode {
    open spec fn obeys_from_spec() -> bool {
        true
    }

    open spec fn from_spec(mode: AuthoredMapMode) -> PhysicsMapMode {
        match mode {
            AuthoredMapMode::AngleLength => PhysicsMapMode::AngleLength,
            AuthoredMapMode::XY => PhysicsMapMode::XY,
            AuthoredMapMode::LengthAngle => PhysicsMapMode::LengthAngle,
            AuthoredMapMode::YX => PhysicsMapMode::YX,
        }
    }
}

} // verus!
