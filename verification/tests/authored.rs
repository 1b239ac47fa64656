use bevy_inochi2d::model::{
    InxInterpolation, InxMaskMode, InxMergeMode, PhysicsMapMode, PhysicsModel,
};
use bevy_inochi2d::BlendMode;
use inochi2d_parser::owned;

#[test]
fn authored_blend_modes_keep_their_names() {
    assert_eq!(BlendMode::from(owned::BlendMode::Normal), BlendMode::Normal);
    assert_eq!(BlendMode::from(owned::BlendMode::LinearDodge), BlendMode::LinearDodge);
    assert_eq!(BlendMode::from(owned::BlendMode::Add), BlendMode::Add);
    assert_eq!(BlendMode::from(owned::BlendMode::SliceFromLower), BlendMode::SliceFromLower);
}

#[test]
fn authored_masks_and_merges() {
    assert_eq!(InxMaskMode::from(owned::MaskMode::Mask), InxMaskMode::Mask);
    assert_eq!(InxMaskMode::from(owned::MaskMode::Dodge), InxMaskMode::Dodge);
    assert_eq!(InxMergeMode::from(owned::MergeMode::Additive), InxMergeMode::Additive);
    assert_eq!(InxMergeMode::from(owned::MergeMode::Multiplicative), InxMergeMode::Multiply);
    assert_eq!(InxMergeMode::from(owned::MergeMode::Override), InxMergeMode::Override);
    assert_eq!(InxMergeMode::from(owned::MergeMode::Forced), InxMergeMode::Forced);
}

#[test]
fn nearest_interpolation_is_stepped() {
    assert_eq!(InxInterpolation::from(owned::Interpolation::Linear), InxInterpolation::Linear);
    assert_eq!(InxInterpolation::from(owned::Interpolation::Stepped), InxInterpolation::Stepped);
    assert_eq!(InxInterpolation::from(owned::Interpolation::Nearest), InxInterpolation::Stepped);
    assert_eq!(InxInterpolation::from(owned::Interpolation::Cubic), InxInterpolation::Cubic);
}

#[test]
fn authored_pendulums() {
    assert_eq!(PhysicsModel::from(owned::PhysicsModelType::Pendulum), PhysicsModel::Pendulum);
    assert_eq!(
        PhysicsModel::from(owned::PhysicsModelType::SpringPendulum),
        PhysicsModel::SpringPendulum
    );
    assert_eq!(
        PhysicsMapMode::from(owned::PhysicsMapMode::LengthAngle),
        PhysicsMapMode::LengthAngle
    );
    assert_eq!(PhysicsMapMode::from(owned::PhysicsMapMode::YX), PhysicsMapMode::YX);
}
