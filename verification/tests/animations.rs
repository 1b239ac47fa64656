use bevy_inochi2d::animation::{
    blend_params, evaluate_lane, evaluate_param, is_playable, tick_layers,
    update_animation_controller,
};
use bevy_inochi2d::controller::{
    AnimationLayer, FadeState, InxAnimationController, NO_ANIMATION,
};
use bevy_inochi2d::model::{
    InxAnimation, InxAnimationLane, InxInterpolation, InxKeyframe, InxMergeMode,
};
use bevy_inochi2d::param_values::{InxParamState, ParamValues};
use bevy_inochi2d::scalar::Scalar;

fn s(x: f32) -> Scalar {
    Scalar { bits: x.to_bits() }
}

fn f(x: Scalar) -> f32 {
    f32::from_bits(x.bits)
}

fn p(x: f32, y: f32) -> [Scalar; 2] {
    [s(x), s(y)]
}

fn floats(v: [Scalar; 2]) -> [f32; 2] {
    [f(v[0]), f(v[1])]
}

fn lane(uuid: u32, target: u8, mode: InxInterpolation, kfs: &[(u32, f32)]) -> InxAnimationLane {
    InxAnimationLane {
        param_uuid: uuid,
        target,
        interpolation: mode,
        merge_mode: InxMergeMode::Override,
        keyframes: kfs
            .iter()
            .map(|(frame, value)| InxKeyframe { frame: *frame, value: s(*value), tension: s(0.5) })
            .collect(),
    }
}

fn clip(duration: f32, timestep: f32, lanes: Vec<InxAnimationLane>) -> InxAnimation {
    InxAnimation {
        name: String::from("clip"),
        duration: s(duration),
        timestep: s(timestep),
        lanes,
    }
}

fn state(uuid: u32, v: [Scalar; 2]) -> InxParamState {
    InxParamState { values: ParamValues::new().insert(uuid, v) }
}

#[test]
fn lanes_hold_their_ends_and_interpolate_between() {
    let linear = lane(1, 0, InxInterpolation::Linear, &[(0, 1.0), (10, 3.0), (20, 3.5)]);
    assert_eq!(f(evaluate_lane(&linear, s(-5.0))), 1.0);
    assert_eq!(f(evaluate_lane(&linear, s(0.0))), 1.0);
    assert_eq!(f(evaluate_lane(&linear, s(5.0))), 2.0);
    assert_eq!(f(evaluate_lane(&linear, s(15.0))), 3.25);
    assert_eq!(f(evaluate_lane(&linear, s(99.0))), 3.5);
    let stepped = lane(1, 0, InxInterpolation::Stepped, &[(0, 1.0), (10, 3.0)]);
    assert_eq!(f(evaluate_lane(&stepped, s(9.0))), 1.0);
    let cubic = lane(1, 0, InxInterpolation::Cubic, &[(0, 0.0), (2, 1.0)]);
    assert_eq!(f(evaluate_lane(&cubic, s(1.0))), 0.5);
    let empty = lane(1, 0, InxInterpolation::Linear, &[]);
    assert_eq!(f(evaluate_lane(&empty, s(1.0))), 0.0);
    let single = lane(1, 0, InxInterpolation::Linear, &[(3, 7.0)]);
    assert_eq!(f(evaluate_lane(&single, s(1.0))), 7.0);
}

#[test]
fn playing_fades_the_other_actions_out() {
    let mut c = InxAnimationController::new();
    assert!(c.layers.is_empty() && !c.paused);
    c.set_idle(4);
    assert_eq!(c.layers.len(), 1);
    assert_eq!(c.layers[0].animation, 4);
    assert!(c.layers[0].looping && c.layers[0].playing);
    assert_eq!(f(c.layers[0].weight), 1.0);
    let first = c.play(5, s(0.0));
    assert_eq!(f(c.layers[first].weight), 1.0);
    let second = c.play(6, s(0.5));
    assert!(second != first);
    assert!(matches!(c.layers[first].fade, FadeState::FadingOut { .. }));
    assert!(matches!(c.layers[second].fade, FadeState::FadingIn { .. }));
    assert!(!c.layers[second].looping);
    // The idle layer keeps playing.
    assert!(matches!(c.layers[0].fade, FadeState::Steady));
    c.play_looped(7, s(0.0));
    assert!(c.layers.iter().any(|l| l.animation == 7 && l.looping));
}

#[test]
fn an_action_leaves_room_for_the_idle_layer() {
    let mut c = InxAnimationController::new();
    assert_eq!(c.play(5, s(0.3)), 1);
    assert_eq!(c.layers.len(), 2);
    assert_eq!(c.layers[0].animation, NO_ANIMATION);
    assert!(!c.layers[0].playing);
    assert_eq!(c.layers[1].animation, 5);
    let mut c = InxAnimationController::new();
    c.play_looped(6, s(0.0));
    assert_eq!(c.layers.len(), 2);
    assert!(c.layers[1].looping && !c.layers[0].looping);
}

#[test]
fn an_action_that_fades_in_is_stopped() {
    let mut c = InxAnimationController::new();
    c.set_idle(4);
    c.play(5, s(0.3));
    c.stop_actions(s(0.0));
    assert!(!c.layers[1].playing);
    assert!(c.layers[0].playing);
    c.play(6, s(0.3));
    c.stop_actions(s(0.5));
    assert!(matches!(c.layers[2].fade, FadeState::FadingOut { .. }));
}

#[test]
fn the_idle_layer_outlives_everything() {
    let animations = vec![clip(2.0, 0.1, Vec::new()), clip(2.0, 0.1, Vec::new())];
    let mut c = InxAnimationController::new();
    c.set_idle(0);
    c.play(1, s(0.0));
    c.stop_all();
    let (_, _) = update_animation_controller(&mut c, &animations, state(1, p(0.0, 0.0)), s(0.1));
    assert_eq!(c.layers.len(), 1);
    assert_eq!(c.layers[0].animation, 0);
}

#[test]
fn a_far_layer_is_reached_over_silent_ones() {
    let mut c = InxAnimationController::new();
    c.play_on_layer(2, 9, false, s(0.0));
    assert_eq!(c.layers.len(), 3);
    assert_eq!(c.layers[0].animation, NO_ANIMATION);
    assert!(!c.layers[1].playing);
    assert_eq!(c.layers[2].animation, 9);
}

#[test]
fn stopping_silences_actions_or_all() {
    let mut c = InxAnimationController::new();
    c.set_idle(1);
    c.play_on_layer(1, 2, true, s(0.0));
    c.stop_actions(s(0.5));
    assert!(matches!(c.layers[1].fade, FadeState::FadingOut { .. }));
    assert!(c.layers[0].playing);
    c.stop_actions(s(0.0));
    assert!(!c.layers[1].playing);
    assert_eq!(f(c.layers[1].weight), 0.0);
    assert!(c.layers[0].playing);
    c.stop_all();
    assert!(c.layers.iter().all(|l| !l.playing && f(l.weight) == 0.0));
}

#[test]
fn time_loops_or_stops_at_the_end() {
    let animations = vec![clip(2.0, 0.1, Vec::new())];
    let mut c = InxAnimationController::new();
    c.play_on_layer(0, 0, true, s(0.0));
    tick_layers(&mut c, &animations, s(2.5));
    assert_eq!(f(c.layers[0].time), 0.5);
    assert!(c.layers[0].playing);
    let mut c = InxAnimationController::new();
    c.play_on_layer(0, 0, false, s(0.0));
    tick_layers(&mut c, &animations, s(2.5));
    assert_eq!(f(c.layers[0].time), 2.0);
    assert!(!c.layers[0].playing);
}

#[test]
fn fades_run_by_smoothstep_and_end() {
    let animations = vec![clip(100.0, 0.1, Vec::new())];
    let mut c = InxAnimationController::new();
    c.play_on_layer(0, 0, true, s(0.0));
    // A layer that plays fades out, and the new one fades in beside it.
    c.play_on_layer(0, 0, true, s(1.0));
    assert_eq!(c.layers.len(), 2);
    tick_layers(&mut c, &animations, s(0.25));
    assert_eq!(f(c.layers[0].weight), 0.84375);
    assert_eq!(f(c.layers[1].weight), 0.15625);
    tick_layers(&mut c, &animations, s(1.0));
    // The idle layer stays, though it has faded out.
    assert_eq!(c.layers.len(), 2);
    assert!(!c.layers[0].playing);
    assert_eq!(f(c.layers[1].weight), 1.0);
    assert!(matches!(c.layers[1].fade, FadeState::Steady));
    // Another layer that has faded out is dropped.
    c.stop_actions(s(1.0));
    tick_layers(&mut c, &animations, s(0.5));
    assert_eq!(f(c.layers[1].weight), 0.5);
    tick_layers(&mut c, &animations, s(0.5));
    assert_eq!(c.layers.len(), 1);
}

#[test]
fn a_paused_controller_stands_still() {
    let animations = vec![clip(2.0, 0.1, Vec::new())];
    let mut c = InxAnimationController::new();
    c.play_on_layer(0, 0, true, s(0.0));
    c.pause();
    assert!(c.paused);
    tick_layers(&mut c, &animations, s(0.5));
    assert_eq!(f(c.layers[0].time), 0.0);
    c.resume();
    tick_layers(&mut c, &animations, s(0.5));
    assert_eq!(f(c.layers[0].time), 0.5);
}

fn playing(animation: u64, weight: f32) -> AnimationLayer {
    AnimationLayer {
        animation,
        time: s(1.0),
        weight: s(weight),
        playing: true,
        looping: true,
        speed: s(1.0),
        fade: FadeState::Steady,
    }
}

#[test]
fn layers_blend_over_each_other() {
    let animations = vec![
        clip(10.0, 0.5, vec![lane(1, 0, InxInterpolation::Linear, &[(0, 0.0), (4, 8.0)])]),
        clip(10.0, 0.5, vec![lane(1, 1, InxInterpolation::Linear, &[(0, 2.0)])]),
    ];
    // Time 1 at half a second per frame is frame 2.
    let layers = vec![playing(0, 1.0), playing(1, 0.5)];
    assert!(is_playable(&layers, &animations));
    let v = evaluate_param(&layers, &animations, p(9.0, 9.0), 1);
    assert_eq!(floats(v), [2.0, 1.0]);
    // A param that no lane drives stays at its default.
    let v = evaluate_param(&layers, &animations, p(9.0, 8.0), 2);
    assert_eq!(floats(v), [9.0, 8.0]);
    // Layers that are too quiet are not heard.
    let v = evaluate_param(&vec![playing(0, 0.0001)], &animations, p(9.0, 8.0), 1);
    assert_eq!(floats(v), [9.0, 8.0]);
    let bad = vec![clip(1.0, 0.5, vec![lane(1, 2, InxInterpolation::Linear, &[])])];
    assert!(!is_playable(&vec![playing(0, 1.0)], &bad));
}

#[test]
fn params_without_a_layer_go_to_their_default() {
    let mut c = InxAnimationController::new();
    c.param_defaults = ParamValues::new().insert(1, p(0.5, 0.25));
    let (after, changed) = blend_params(&c, &Vec::new(), state(1, p(3.0, 3.0)));
    assert!(changed);
    assert_eq!(after.values.get(1).map(floats), Some([0.5, 0.25]));
    // Written once, it is not written again.
    let (again, changed) = blend_params(&c, &Vec::new(), after);
    assert!(!changed);
    assert_eq!(again.values.get(1).map(floats), Some([0.5, 0.25]));
}

#[test]
fn stopping_everything_resets_the_params() {
    let lanes = vec![lane(1, 0, InxInterpolation::Linear, &[(0, 7.0)])];
    let animations = vec![clip(5.0, 0.5, lanes)];
    let mut c = InxAnimationController::new();
    c.param_defaults = ParamValues::new().insert(1, p(0.5, 0.5));
    c.set_idle(0);
    c.play(0, s(0.0));
    let (state, _) = update_animation_controller(&mut c, &animations, state(1, p(0.0, 0.0)), s(0.1));
    assert_eq!(state.values.get(1).map(floats), Some([7.0, 0.0]));
    // A pause keeps the values.
    c.pause();
    let (state, changed) = update_animation_controller(&mut c, &animations, state, s(9.0));
    assert!(!changed);
    assert_eq!(state.values.get(1).map(floats), Some([7.0, 0.0]));
    c.resume();
    assert!(!c.paused);
    c.stop_all();
    let (state, _) = update_animation_controller(&mut c, &animations, state, s(0.1));
    assert_eq!(state.values.get(1).map(floats), Some([0.5, 0.5]));
}

#[test]
fn a_frame_moves_time_and_writes_params() {
    let lanes = vec![lane(1, 0, InxInterpolation::Linear, &[(0, 0.0), (10, 10.0)])];
    let animations = vec![clip(5.0, 0.5, lanes)];
    let mut c = InxAnimationController::new();
    c.param_defaults = ParamValues::new().insert(1, p(0.0, 0.0));
    c.play_on_layer(0, 0, true, s(0.0));
    let (after, changed) =
        update_animation_controller(&mut c, &animations, state(2, p(4.0, 4.0)), s(1.0));
    assert!(changed);
    assert_eq!(f(c.layers[0].time), 1.0);
    assert_eq!(after.values.get(1).map(floats), Some([2.0, 0.0]));
    assert_eq!(after.values.get(2).map(floats), Some([4.0, 4.0]));
}
