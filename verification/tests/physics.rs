use bevy_inochi2d::model::{InxPhysics, PhysicsMapMode, PhysicsModel, SimplePhysicsConfig};
use bevy_inochi2d::param_values::{InxParamState, ParamValues};
use bevy_inochi2d::scalar::Scalar;
use bevy_inochi2d::simple_physics::{
    anchor_of, frame_time, gravity_of, map_output, physics_enabled, simple_physics_system,
    simulate, step, write_param, Driven, InxPhysicsState, InxPuppetPhysicsEnabled,
    InxSimplePhysics, PhysicsEnabled,
};

fn s(x: f32) -> Scalar {
    Scalar { bits: x.to_bits() }
}

fn f(x: Scalar) -> f32 {
    f32::from_bits(x.bits)
}

fn p(x: f32, y: f32) -> [Scalar; 2] {
    [s(x), s(y)]
}

fn floats(v: [Scalar; 2]) -> [f32; 2] {
    [f(v[0]), f(v[1])]
}

fn sin(x: Scalar) -> Scalar {
    s(f(x).sin())
}

fn cos(x: Scalar) -> Scalar {
    s(f(x).cos())
}

fn atan2(y: Scalar, x: Scalar) -> Scalar {
    s(f(y).atan2(f(x)))
}

fn config(model: PhysicsModel, map_mode: PhysicsMapMode) -> InxSimplePhysics {
    InxSimplePhysics::from_config(&SimplePhysicsConfig {
        param_uuid: 5,
        model,
        map_mode,
        gravity: s(1.0),
        length: s(100.0),
        frequency: s(1.5),
        angle_damping: s(0.5),
        length_damping: s(0.25),
        output_scale: p(2.0, 3.0),
        local_only: true,
    })
}

fn swinging() -> InxPhysicsState {
    InxPhysicsState {
        bob: p(40.0, 95.0),
        velocity: p(3.0, -2.0),
        angle: s(0.2),
        d_angle: s(-0.7),
        initialized: true,
    }
}

/// A pendulum's tick by the hardware's arithmetic.
fn pendulum(bob: [f32; 2], d_angle: f32, h: f32, g: f32) -> ([f32; 2], f32, f32) {
    let (l, damping) = (100.0f32, 0.5f32);
    let th0 = bob[0].atan2(bob[1]);
    let lr = g / l;
    let crit = 2.0 * lr.max(0.0).sqrt();
    let deriv = |th: f32, w: f32| (w, -lr * th.sin() - w * damping * crit);
    let w0 = d_angle;
    let (k1t, k1w) = deriv(th0, w0);
    let (k2t, k2w) = deriv(th0 + k1t * h * 0.5, w0 + k1w * h * 0.5);
    let (k3t, k3w) = deriv(th0 + k2t * h * 0.5, w0 + k2w * h * 0.5);
    let (k4t, k4w) = deriv(th0 + k3t * h, w0 + k3w * h);
    let th = th0 + (h / 6.0) * (k1t + 2.0 * k2t + 2.0 * k3t + k4t);
    let w = w0 + (h / 6.0) * (k1w + 2.0 * k2w + 2.0 * k3w + k4w);
    ([0.0 + th.sin() * l, 0.0 + th.cos() * l], th, w)
}

#[test]
fn a_pendulum_ticks_by_fourth_order_steps() {
    let c = config(PhysicsModel::Pendulum, PhysicsMapMode::AngleLength);
    let after = step(&c, &swinging(), p(0.0, 0.0), s(0.01), s(980.0), &sin, &cos, &atan2);
    let (bob, angle, d_angle) = pendulum([40.0, 95.0], -0.7, 0.01, 980.0);
    assert_eq!(floats(after.bob), bob);
    assert_eq!(f(after.angle), angle);
    assert_eq!(f(after.d_angle), d_angle);
}

#[test]
fn a_pendulum_at_rest_stays_at_rest() {
    let c = config(PhysicsModel::Pendulum, PhysicsMapMode::AngleLength);
    let rest = InxPhysicsState {
        bob: p(0.0, 100.0),
        velocity: p(0.0, 0.0),
        angle: s(0.0),
        d_angle: s(0.0),
        initialized: true,
    };
    let after = simulate(&c, &rest, p(0.0, 0.0), s(0.5), s(980.0), &sin, &cos, &atan2);
    assert_eq!(floats(after.bob), [0.0, 100.0]);
    assert_eq!(f(after.d_angle), 0.0);
}

/// A spring pendulum's tick by the hardware's arithmetic.
fn spring(b0: [f32; 2], v0: [f32; 2], h: f32, g: f32) -> ([f32; 2], [f32; 2]) {
    let l = 100.0f32;
    let k_sqrt = 2.0 * std::f32::consts::PI * 1.5;
    let k = (k_sqrt * k_sqrt).max(1e-6);
    let rest = l - g / k;
    let crit_angle = 2.0 * (g / l).max(0.0).sqrt();
    let crit_length = 2.0 * k_sqrt;
    let add = |a: [f32; 2], b: [f32; 2]| [a[0] + b[0], a[1] + b[1]];
    let mul = |a: [f32; 2], k: f32| [a[0] * k, a[1] * k];
    let deriv = |bob: [f32; 2], vel: [f32; 2]| {
        let dist = (bob[0] * bob[0] + bob[1] * bob[1]).sqrt();
        let n = if dist > 1e-5 { [bob[0] / dist, bob[1] / dist] } else { [0.0, 1.0] };
        let pull = mul(mul(n, dist - rest), k);
        let force = [0.0 - pull[0], g - pull[1]];
        let d = [vel[0] * n[1] + vel[1] * n[0], vel[1] * n[1] - vel[0] * n[0]];
        let dd = [-d[0] * 0.5 * crit_angle, -d[1] * 0.25 * crit_length];
        let damp = [dd[0] * n[1] - d[1] * n[0], dd[1] * n[1] + d[0] * n[0]];
        (vel, add(force, damp))
    };
    let (k1b, k1v) = deriv(b0, v0);
    let (k2b, k2v) = deriv(add(b0, mul(mul(k1b, h), 0.5)), add(v0, mul(mul(k1v, h), 0.5)));
    let (k3b, k3v) = deriv(add(b0, mul(mul(k2b, h), 0.5)), add(v0, mul(mul(k2v, h), 0.5)));
    let (k4b, k4v) = deriv(add(b0, mul(k3b, h)), add(v0, mul(k3v, h)));
    let sum = |a, b, c, d| add(add(add(a, mul(b, 2.0)), mul(c, 2.0)), d);
    (
        add(b0, mul(sum(k1b, k2b, k3b, k4b), h / 6.0)),
        add(v0, mul(sum(k1v, k2v, k3v, k4v), h / 6.0)),
    )
}

#[test]
fn a_spring_ticks_by_fourth_order_steps() {
    let c = config(PhysicsModel::SpringPendulum, PhysicsMapMode::XY);
    let after = step(&c, &swinging(), p(0.0, 0.0), s(0.01), s(980.0), &sin, &cos, &atan2);
    let (bob, velocity) = spring([40.0, 95.0], [3.0, -2.0], 0.01, 980.0);
    assert_eq!(floats(after.bob), bob);
    assert_eq!(floats(after.velocity), velocity);
}

#[test]
fn time_without_a_length_changes_nothing() {
    let c = config(PhysicsModel::SpringPendulum, PhysicsMapMode::XY);
    let after = step(&c, &swinging(), p(0.0, 0.0), s(0.0), s(980.0), &sin, &cos, &atan2);
    assert_eq!(floats(after.bob), [40.0, 95.0]);
    assert_eq!(floats(after.velocity), [3.0, -2.0]);
}

#[test]
fn an_exploding_spring_is_left_as_it_was() {
    let c = config(PhysicsModel::SpringPendulum, PhysicsMapMode::XY);
    let mut wild = swinging();
    wild.velocity = p(f32::MAX, f32::MAX);
    let after = step(&c, &wild, p(0.0, 0.0), s(0.01), s(980.0), &sin, &cos, &atan2);
    assert_eq!(floats(after.bob), [40.0, 95.0]);
    assert_eq!(floats(after.velocity), [f32::MAX, f32::MAX]);
}

#[test]
fn long_frames_run_in_ticks() {
    let c = config(PhysicsModel::SpringPendulum, PhysicsMapMode::XY);
    let once = simulate(&c, &swinging(), p(0.0, 0.0), s(0.025), s(980.0), &sin, &cos, &atan2);
    let tick = |st: &InxPhysicsState, h: f32| {
        step(&c, st, p(0.0, 0.0), s(h), s(980.0), &sin, &cos, &atan2)
    };
    let rest = 0.025f32 - 0.01 - 0.01;
    let by_hand = tick(&tick(&tick(&swinging(), 0.01), 0.01), rest);
    assert_eq!(floats(once.bob), floats(by_hand.bob));
    assert_eq!(floats(once.velocity), floats(by_hand.velocity));
}

#[test]
fn frames_are_capped_and_must_go_forward() {
    assert_eq!(frame_time(s(0.5)).map(f), Some(0.5));
    assert_eq!(frame_time(s(60.0)).map(f), Some(10.0));
    assert_eq!(frame_time(s(0.0)).map(f), None);
    assert_eq!(frame_time(s(-1.0)).map(f), None);
}

#[test]
fn a_puppet_can_overrule_the_global_switch() {
    assert!(physics_enabled(None, None));
    assert!(PhysicsEnabled::default().0);
    assert!(!physics_enabled(Some(PhysicsEnabled(false)), None));
    assert!(physics_enabled(Some(PhysicsEnabled(false)), Some(InxPuppetPhysicsEnabled(true))));
    assert!(!physics_enabled(Some(PhysicsEnabled(true)), Some(InxPuppetPhysicsEnabled(false))));
}

#[test]
fn gravity_scales_with_the_puppet() {
    let c = config(PhysicsModel::Pendulum, PhysicsMapMode::AngleLength);
    let puppet = InxPhysics { pixels_per_meter: s(100.0), gravity: s(2.0) };
    assert_eq!(f(gravity_of(&c, Some(puppet))), 200.0);
    assert_eq!(f(gravity_of(&c, None)), 9.8 * 1000.0);
}

#[test]
fn the_anchor_is_local_or_global_with_y_down() {
    let mut c = config(PhysicsModel::Pendulum, PhysicsMapMode::AngleLength);
    assert_eq!(floats(anchor_of(&c, p(1.0, 2.0), p(3.0, 4.0))), [1.0, -2.0]);
    c.local_only = false;
    assert_eq!(floats(anchor_of(&c, p(1.0, 2.0), p(3.0, 4.0))), [3.0, -4.0]);
}

#[test]
fn a_simulation_begins_at_rest_and_stops_when_disabled() {
    let c = config(PhysicsModel::Pendulum, PhysicsMapMode::AngleLength);
    let mut st = InxPhysicsState::default();
    assert!(!st.initialized);
    let run = |st: &mut InxPhysicsState, on: bool| {
        simple_physics_system(&c, st, on, p(3.0, 4.0), s(0.01), s(980.0), &sin, &cos, &atan2)
    };
    assert!(matches!(run(&mut st, true), Driven::Begun));
    assert_eq!(floats(st.bob), [3.0, 104.0]);
    assert!(st.initialized);
    assert!(matches!(run(&mut st, true), Driven::Moved));
    assert!(matches!(run(&mut st, false), Driven::Stopped));
    assert!(!st.initialized);
}

#[test]
fn the_output_maps_to_two_numbers() {
    let st = InxPhysicsState {
        bob: p(0.0, 50.0),
        velocity: p(0.0, 0.0),
        angle: s(0.0),
        d_angle: s(0.0),
        initialized: true,
    };
    let out = |mode| {
        let c = config(PhysicsModel::Pendulum, mode);
        floats(map_output(&c, &st, p(0.0, 0.0), p(0.0, 50.0), &atan2))
    };
    // Straight down, at half the length; scaled by 2 and 3.
    assert_eq!(out(PhysicsMapMode::AngleLength)[1], 1.5);
    assert_eq!(out(PhysicsMapMode::AngleLength)[0].abs(), 0.0);
    assert_eq!(out(PhysicsMapMode::LengthAngle)[0], 1.0);
    assert_eq!(out(PhysicsMapMode::XY), [0.0, 1.5]);
    assert_eq!(out(PhysicsMapMode::YX), [1.0, 0.0]);
}

#[test]
fn a_param_is_written_when_it_changes() {
    let state = InxParamState { values: ParamValues::new().insert(1, p(1.0, 1.0)) };
    let (state, changed) = write_param(state, 5, p(0.5, 0.25));
    assert!(changed);
    assert_eq!(state.values.get(5).map(floats), Some([0.5, 0.25]));
    assert_eq!(state.values.get(1).map(floats), Some([1.0, 1.0]));
    let (state, changed) = write_param(state, 5, p(0.5, 0.25));
    assert!(!changed);
    // The two zeros are equal numbers.
    let (state, _) = write_param(state, 5, p(0.0, 0.0));
    let (_, changed) = write_param(state, 5, p(-0.0, 0.0));
    assert!(!changed);
}
