use bevy_inochi2d::blend::{BlendComponent, BlendFactor, BlendMode, BlendOperation};

fn sum(src_factor: BlendFactor, dst_factor: BlendFactor) -> BlendComponent {
    BlendComponent { src_factor, dst_factor, operation: BlendOperation::Add }
}

#[test]
fn modes_without_an_equivalent_blend_as_normal() {
    let normal = BlendMode::Normal.blend_state();
    assert_eq!(normal.color.src_factor, BlendFactor::One);
    for mode in [
        BlendMode::ColorBurn,
        BlendMode::HardLight,
        BlendMode::SoftLight,
        BlendMode::Difference,
        BlendMode::Exclusion,
        BlendMode::Inverse,
    ] {
        assert_eq!(mode.blend_state(), normal);
    }
}

#[test]
fn states_have_the_factors_of_their_mode() {
    let normal = BlendMode::Normal.blend_state();
    assert_eq!(normal.color, sum(BlendFactor::One, BlendFactor::OneMinusSrcAlpha));
    assert_eq!(normal.alpha, sum(BlendFactor::One, BlendFactor::OneMinusSrcAlpha));
    let multiply = BlendMode::Multiply.blend_state();
    assert_eq!(multiply.color, sum(BlendFactor::Dst, BlendFactor::OneMinusSrcAlpha));
    let screen = BlendMode::Screen.blend_state();
    assert_eq!(screen.color, sum(BlendFactor::One, BlendFactor::OneMinusSrc));
    assert_eq!(BlendMode::Darken.blend_state().color.operation, BlendOperation::Min);
    assert_eq!(BlendMode::Lighten.blend_state().color.operation, BlendOperation::Max);
    let subtract = BlendMode::Subtract.blend_state();
    assert_eq!(subtract.color.operation, BlendOperation::ReverseSubtract);
    let dodge = BlendMode::LinearDodge.blend_state();
    assert_eq!(dodge.alpha, sum(BlendFactor::Zero, BlendFactor::One));
    assert_eq!(dodge, BlendMode::Add.blend_state());
    let clip = BlendMode::ClipToLower.blend_state();
    assert_eq!(clip.color, sum(BlendFactor::DstAlpha, BlendFactor::OneMinusSrcAlpha));
    let slice = BlendMode::SliceFromLower.blend_state();
    assert_eq!(slice.alpha, sum(BlendFactor::Zero, BlendFactor::OneMinusSrcAlpha));
    let within = BlendMode::DestinationIn.blend_state();
    assert_eq!(within.color, sum(BlendFactor::Zero, BlendFactor::SrcAlpha));
}

#[test]
fn all_modes_are_listed_once() {
    let all = BlendMode::all();
    assert_eq!(all[0], BlendMode::default());
    assert_eq!(all[18], BlendMode::SliceFromLower);
    for i in 0..19 {
        for j in 0..i {
            assert!(all[i] != all[j]);
        }
    }
}
