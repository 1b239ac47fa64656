//! Pendulums that drive params: hair, accessories, whatever swings.

use crate::animation;
use crate::arith;
use crate::exact;
use crate::id_map;
use crate::model::{InxPhysics, PhysicsMapMode, PhysicsModel, SimplePhysicsConfig};
use crate::param_values::InxParamState;
use crate::rounding;
use crate::scalar;
use crate::scalar::{Scalar, MICRO, ONE};
use crate::vector;
use crate::vector::{add2, div2, is_finite2, length, length_squared, mul2, sub2};
use vstd::arithmetic::power2::pow2;
use vstd::prelude::*;

verus! {

/// The circle constant.
pub const PI: u32 = 0x4049_0fdb;

/// 1e-5, below which a direction is lost.
pub const SHORT: u32 = 0x3727_c5ac;

/// 0.01 s, the longest step of a simulation.
pub const TICK: u32 = 0x3c23_d70a;

/// 10 s, the longest time that is simulated at once.
pub const LONGEST: u32 = 0x4120_0000;

/// 6.
pub const SIX: u32 = 0x40c0_0000;

/// Configuration of a simulation.
#[derive(Debug, Clone, Copy)]
pub struct InxSimplePhysics {
    /// UUID of the param this simulation drives.
    pub param_uuid: u32,
    /// Simulation type.
    pub model: PhysicsModel,
    /// How to map angle and length to the param.
    pub map_mode: PhysicsMapMode,
    /// Gravity for this simulation.
    pub gravity: Scalar,
    /// Length of the bone in pixels.
    pub length: Scalar,
    /// Oscillation frequency (Hz).
    pub frequency: Scalar,
    /// Angular damping.
    pub angle_damping: Scalar,
    /// Length damping.
    pub length_damping: Scalar,
    /// Output scale (sx, sy).
    pub output_scale: [Scalar; 2],
    /// If true, only the motion of the node itself counts.
    pub local_only: bool,
}

impl InxSimplePhysics {
    /// The simulation of a node.
    pub fn from_config(config: &SimplePhysicsConfig) -> (r: InxSimplePhysics)
        ensures
            r == (InxSimplePhysics {
                param_uuid: config.param_uuid,
                model: config.model,
                map_mode: config.map_mode,
                gravity: config.gravity,
                length: config.length,
                frequency: config.frequency,
                angle_damping: config.angle_damping,
                length_damping: config.length_damping,
                output_scale: config.output_scale,
                local_only: config.local_only,
            }),
    {
        InxSimplePhysics {
            param_uuid: config.param_uuid,
            model: config.model,
            map_mode: config.map_mode,
            gravity: config.gravity,
            length: config.length,
            frequency: config.frequency,
            angle_damping: config.angle_damping,
            length_damping: config.length_damping,
            output_scale: config.output_scale,
            local_only: config.local_only,
        }
    }
}

/// Whether simulations run, unless a puppet says otherwise.
#[derive(Debug, Clone, Copy, PartialEq, Eq, Structural)]
pub struct PhysicsEnabled(pub bool);

impl Default for PhysicsEnabled {
    fn default() -> (r: PhysicsEnabled)
        ensures
            r == PhysicsEnabled(true),
    {
        PhysicsEnabled(true)
    }
}

/// Whether the simulations of one puppet run.
#[derive(Debug, Clone, Copy, PartialEq, Eq, Structural)]
pub struct InxPuppetPhysicsEnabled(pub bool);

/// State of a simulation, in puppet space, where Y points down. At rest the bob
/// hangs below the anchor.
#[derive(Debug, Clone, Copy)]
pub struct InxPhysicsState {
    pub bob: [Scalar; 2],
    pub velocity: [Scalar; 2],
    pub angle: Scalar,
    pub d_angle: Scalar,
    pub initialized: bool,
}

impl Default for InxPhysicsState {
    /// A simulation that has not started.
    fn default() -> (r: InxPhysicsState)
        ensures
            r == (InxPhysicsState {
                bob: [arith::num(0), arith::num(0)],
                velocity: [arith::num(0), arith::num(0)],
                angle: arith::num(0),
                d_angle: arith::num(0),
                initialized: false,
            }),
    {
        let zero = Scalar { bits: 0 };
        InxPhysicsState {
            bob: [zero, zero],
            velocity: [zero, zero],
            angle: zero,
            d_angle: zero,
            initialized: false,
        }
    }
}

/// The length of the bone; 1 at least.
pub open spec fn bone(config: InxSimplePhysics) -> Scalar {
    config.length.larger(arith::num(ONE))
}

/// Twice the square root of a ratio, the critical damping; 0 for a negative one.
#[verifier::opaque]
pub open spec fn critical(ratio: Scalar) -> Scalar {
    arith::num(arith::TWO).times(ratio.larger(arith::num(0)).root())
}

/// What a spring pendulum is subject to.
#[derive(Debug, Clone, Copy)]
pub struct Spring {
    pub anchor: [Scalar; 2],
    pub gravity: Scalar,
    pub stiffness: Scalar,
    pub rest_length: Scalar,
    pub angle_damping: Scalar,
    pub crit_angle: Scalar,
    pub length_damping: Scalar,
    pub crit_length: Scalar,
}

/// The spring of a configuration. Gravity stretches it: at rest the bob hangs at
/// the length of the bone.
pub open spec fn spring_of(config: InxSimplePhysics, anchor: [Scalar; 2], g: Scalar) -> Spring {
    let l = bone(config);
    let two = arith::num(arith::TWO);
    let k_sqrt = two.times(arith::num(PI)).times(config.frequency);
    let k = k_sqrt.times(k_sqrt).larger(arith::num(MICRO));
    Spring {
        anchor,
        gravity: g,
        stiffness: k,
        rest_length: l.minus(g.over(k)),
        angle_damping: config.angle_damping,
        crit_angle: critical(g.over(l)),
        length_damping: config.length_damping,
        crit_length: two.times(k_sqrt),
    }
}

/// The direction from the anchor to the bob; down if they are too close.
pub open spec fn axis_of(off: [Scalar; 2]) -> [Scalar; 2] {
    let dist = vector::length2(off);
    if arith::num(SHORT).less(dist) {
        vector::over2(off, dist)
    } else {
        [arith::num(0), arith::num(ONE)]
    }
}

/// The acceleration of the bob of a spring pendulum.
pub open spec fn spring_pull(s: Spring, bob: [Scalar; 2], vel: [Scalar; 2]) -> [Scalar; 2] {
    let off = vector::minus2(bob, s.anchor);
    let dist = vector::length2(off);
    let n = axis_of(off);
    let pull = vector::times2(
        vector::times2(n, dist.minus(s.rest_length)),
        s.stiffness,
    );
    let force = vector::minus2([arith::num(0), s.gravity], pull);
    let turned = [
        vel[0].times(n[1]).plus(vel[1].times(n[0])),
        vel[1].times(n[1]).minus(vel[0].times(n[0])),
    ];
    let damped = [
        turned[0].negated().times(s.angle_damping).times(s.crit_angle),
        turned[1].negated().times(s.length_damping).times(s.crit_length),
    ];
    let back = [
        damped[0].times(n[1]).minus(turned[1].times(n[0])),
        damped[1].times(n[1]).plus(turned[0].times(n[0])),
    ];
    vector::plus2(force, back)
}

/// `a + (k * h) * 0.5`.
pub open spec fn halfway2(a: [Scalar; 2], k: [Scalar; 2], h: Scalar) -> [Scalar; 2] {
    vector::plus2(a, vector::times2(vector::times2(k, h), arith::num(arith::HALF)))
}

/// `a + (k1 + 2 k2 + 2 k3 + k4) * (h / 6)`.
pub open spec fn weighted2(
    a: [Scalar; 2],
    k1: [Scalar; 2],
    k2: [Scalar; 2],
    k3: [Scalar; 2],
    k4: [Scalar; 2],
    h: Scalar,
) -> [Scalar; 2] {
    let two = arith::num(arith::TWO);
    let sum = vector::plus2(
        vector::plus2(vector::plus2(k1, vector::times2(k2, two)), vector::times2(k3, two)),
        k4,
    );
    vector::plus2(a, vector::times2(sum, h.over(arith::num(SIX))))
}

/// A spring pendulum after one step of the classic fourth-order method. A result
/// that is not finite is dropped.
pub open spec fn spring_stepped(
    config: InxSimplePhysics,
    state: InxPhysicsState,
    anchor: [Scalar; 2],
    h: Scalar,
    g: Scalar,
) -> InxPhysicsState {
    let s = spring_of(config, anchor, g);
    let (b0, v0) = (state.bob, state.velocity);
    let (k1b, k1v) = (v0, spring_pull(s, b0, v0));
    let v1 = halfway2(v0, k1v, h);
    let (k2b, k2v) = (v1, spring_pull(s, halfway2(b0, k1b, h), v1));
    let v2 = halfway2(v0, k2v, h);
    let (k3b, k3v) = (v2, spring_pull(s, halfway2(b0, k2b, h), v2));
    let v3 = vector::plus2(v0, vector::times2(k3v, h));
    let (k4b, k4v) = (v3, spring_pull(s, vector::plus2(b0, vector::times2(k3b, h)), v3));
    let b = weighted2(b0, k1b, k2b, k3b, k4b, h);
    let v = weighted2(v0, k1v, k2v, k3v, k4v, h);
    if vector::finite2(b) && vector::finite2(v) {
        InxPhysicsState { bob: b, velocity: v, ..state }
    } else {
        state
    }
}

fn bone_of(config: &InxSimplePhysics) -> (r: Scalar)
    ensures
        r == bone(*config),
{
    config.length.max(Scalar { bits: ONE })
}

fn critical_of(ratio: Scalar) -> (r: Scalar)
    ensures
        r == critical(ratio),
{
    proof {
        reveal(critical);
    }
    Scalar { bits: arith::TWO }.mul(ratio.max(Scalar { bits: 0 }).sqrt())
}

fn make_spring(config: &InxSimplePhysics, anchor: [Scalar; 2], g: Scalar) -> (r: Spring)
    ensures
        r == spring_of(*config, anchor, g),
{
    let l = bone_of(config);
    let two = Scalar { bits: arith::TWO };
    let k_sqrt = two.mul(Scalar { bits: PI }).mul(config.frequency);
    let k = k_sqrt.mul(k_sqrt).max(Scalar { bits: MICRO });
    Spring {
        anchor,
        gravity: g,
        stiffness: k,
        rest_length: l.sub(g.div(k)),
        angle_damping: config.angle_damping,
        crit_angle: critical_of(g.div(l)),
        length_damping: config.length_damping,
        crit_length: two.mul(k_sqrt),
    }
}

fn pull_spring(s: &Spring, bob: [Scalar; 2], vel: [Scalar; 2]) -> (r: [Scalar; 2])
    ensures
        r == spring_pull(*s, bob, vel),
{
    let off = sub2(bob, s.anchor);
    let dist = length(off);
    let n = if (Scalar { bits: SHORT }).lt(dist) {
        div2(off, dist)
    } else {
        [Scalar { bits: 0 }, Scalar { bits: ONE }]
    };
    let pull = mul2(mul2(n, dist.sub(s.rest_length)), s.stiffness);
    let force = sub2([Scalar { bits: 0 }, s.gravity], pull);
    let turned = [
        vel[0].mul(n[1]).add(vel[1].mul(n[0])),
        vel[1].mul(n[1]).sub(vel[0].mul(n[0])),
    ];
    let damped = [
        turned[0].neg().mul(s.angle_damping).mul(s.crit_angle),
        turned[1].neg().mul(s.length_damping).mul(s.crit_length),
    ];
    let back = [
        damped[0].mul(n[1]).sub(turned[1].mul(n[0])),
        damped[1].mul(n[1]).add(turned[0].mul(n[0])),
    ];
    add2(force, back)
}

fn halfway(a: [Scalar; 2], k: [Scalar; 2], h: Scalar) -> (r: [Scalar; 2])
    ensures
        r == halfway2(a, k, h),
{
    add2(a, mul2(mul2(k, h), Scalar { bits: arith::HALF }))
}

fn weigh(
    a: [Scalar; 2],
    k1: [Scalar; 2],
    k2: [Scalar; 2],
    k3: [Scalar; 2],
    k4: [Scalar; 2],
    h: Scalar,
) -> (r: [Scalar; 2])
    ensures
        r == weighted2(a, k1, k2, k3, k4, h),
{
    let two = Scalar { bits: arith::TWO };
    let sum = add2(add2(add2(k1, mul2(k2, two)), mul2(k3, two)), k4);
    add2(a, mul2(sum, h.div(Scalar { bits: SIX })))
}

fn step_spring(
    config: &InxSimplePhysics,
    state: &InxPhysicsState,
    anchor: [Scalar; 2],
    h: Scalar,
    g: Scalar,
) -> (r: InxPhysicsState)
    ensures
        r == spring_stepped(*config, *state, anchor, h, g),
{
    let s = make_spring(config, anchor, g);
    let b0 = state.bob;
    let v0 = state.velocity;
    let k1v = pull_spring(&s, b0, v0);
    let v1 = halfway(v0, k1v, h);
    let k2v = pull_spring(&s, halfway(b0, v0, h), v1);
    let v2 = halfway(v0, k2v, h);
    let k3v = pull_spring(&s, halfway(b0, v1, h), v2);
    let v3 = add2(v0, mul2(k3v, h));
    let k4v = pull_spring(&s, add2(b0, mul2(v2, h)), v3);
    let b = weigh(b0, v0, v1, v2, v3, h);
    let v = weigh(v0, k1v, k2v, k3v, k4v, h);
    if is_finite2(b) && is_finite2(v) {
        InxPhysicsState { bob: b, velocity: v, ..*state }
    } else {
        *state
    }
}

/// What a rigid pendulum is subject to.
#[derive(Debug, Clone, Copy)]
pub struct Swing {
    /// Gravity over length.
    pub ratio: Scalar,
    pub damping: Scalar,
    pub critical: Scalar,
}

pub open spec fn swing_of(config: InxSimplePhysics, g: Scalar) -> Swing {
    let ratio = g.over(bone(config));
    Swing { ratio, damping: config.angle_damping, critical: critical(ratio) }
}

/// The angular acceleration of a pendulum, from the sine of its angle.
#[verifier::opaque]
pub open spec fn swing_pull(p: Swing, sine: Scalar, w: Scalar) -> Scalar {
    p.ratio.negated().times(sine).minus(w.times(p.damping).times(p.critical))
}

/// `a + (k * h) * 0.5`.
#[verifier::opaque]
pub open spec fn halfway1(a: Scalar, k: Scalar, h: Scalar) -> Scalar {
    a.plus(k.times(h).times(arith::num(arith::HALF)))
}

/// `a + k * h`.
#[verifier::opaque]
pub open spec fn ahead1(a: Scalar, k: Scalar, h: Scalar) -> Scalar {
    a.plus(k.times(h))
}

/// `a + (h / 6) * (k1 + 2 k2 + 2 k3 + k4)`.
#[verifier::opaque]
pub open spec fn weighted1(
    a: Scalar,
    k1: Scalar,
    k2: Scalar,
    k3: Scalar,
    k4: Scalar,
    h: Scalar,
) -> Scalar {
    let two = arith::num(arith::TWO);
    a.plus(
        h.over(arith::num(SIX)).times(k1.plus(two.times(k2)).plus(two.times(k3)).plus(k4)),
    )
}

/// The speeds at the four stages of a step, from the sines of the angles there.
pub open spec fn stage_speeds(p: Swing, w0: Scalar, h: Scalar, s: [Scalar; 4]) -> [Scalar; 4] {
    let w1 = halfway1(w0, swing_pull(p, s[0], w0), h);
    let w2 = halfway1(w0, swing_pull(p, s[1], w1), h);
    let w3 = ahead1(w0, swing_pull(p, s[2], w2), h);
    [w0, w1, w2, w3]
}

/// The angles at the four stages of a step.
pub open spec fn stage_angles(th0: Scalar, w: [Scalar; 4], h: Scalar) -> [Scalar; 4] {
    [th0, halfway1(th0, w[0], h), halfway1(th0, w[1], h), ahead1(th0, w[2], h)]
}

/// The angle and the speed after a step.
pub open spec fn swung(
    p: Swing,
    th0: Scalar,
    w0: Scalar,
    h: Scalar,
    s: [Scalar; 4],
) -> (Scalar, Scalar) {
    let w = stage_speeds(p, w0, h, s);
    (
        weighted1(th0, w[0], w[1], w[2], w[3], h),
        weighted1(
            w0,
            swing_pull(p, s[0], w[0]),
            swing_pull(p, s[1], w[1]),
            swing_pull(p, s[2], w[2]),
            swing_pull(p, s[3], w[3]),
            h,
        ),
    )
}

/// A rigid pendulum after one step, given the angle that its bob is at, the sines
/// that the step takes, and the direction of its new angle. A result that is not
/// finite is dropped.
pub open spec fn pendulum_stepped(
    config: InxSimplePhysics,
    state: InxPhysicsState,
    anchor: [Scalar; 2],
    h: Scalar,
    g: Scalar,
    th0: Scalar,
    s: [Scalar; 4],
    direction: [Scalar; 2],
) -> InxPhysicsState {
    let (th, w) = swung(swing_of(config, g), th0, state.d_angle, h, s);
    let ok = th.finite() && w.finite();
    InxPhysicsState {
        bob: vector::plus2(anchor, vector::times2(direction, bone(config))),
        angle: if ok {
            th
        } else {
            th0
        },
        d_angle: if ok {
            w
        } else {
            state.d_angle
        },
        ..state
    }
}

/// The angle, the sines and the direction of a step are what the functions give.
pub open spec fn measured<
    S: Fn(Scalar) -> Scalar,
    C: Fn(Scalar) -> Scalar,
    A: Fn(Scalar, Scalar) -> Scalar,
>(
    sin: &S,
    cos: &C,
    atan2: &A,
    config: InxSimplePhysics,
    state: InxPhysicsState,
    anchor: [Scalar; 2],
    h: Scalar,
    g: Scalar,
    th0: Scalar,
    s: [Scalar; 4],
    direction: [Scalar; 2],
) -> bool {
    let d = vector::minus2(state.bob, anchor);
    let p = swing_of(config, g);
    let angles = stage_angles(th0, stage_speeds(p, state.d_angle, h, s), h);
    let next = pendulum_stepped(config, state, anchor, h, g, th0, s, direction);
    &&& if arith::num(MICRO).less(vector::square2(d)) {
        atan2.ensures((d[0], d[1]), th0)
    } else {
        th0 == state.angle
    }
    &&& sin.ensures((angles[0],), s[0])
    &&& sin.ensures((angles[1],), s[1])
    &&& sin.ensures((angles[2],), s[2])
    &&& sin.ensures((angles[3],), s[3])
    &&& sin.ensures((next.angle,), direction[0])
    &&& cos.ensures((next.angle,), direction[1])
}

/// One step of a simulation. Without time there is no step.
pub open spec fn steps<
    S: Fn(Scalar) -> Scalar,
    C: Fn(Scalar) -> Scalar,
    A: Fn(Scalar, Scalar) -> Scalar,
>(
    sin: &S,
    cos: &C,
    atan2: &A,
    config: InxSimplePhysics,
    state: InxPhysicsState,
    anchor: [Scalar; 2],
    h: Scalar,
    g: Scalar,
    next: InxPhysicsState,
) -> bool {
    if h.less(arith::num(0)) || h.same(arith::num(0)) {
        next == state
    } else {
        match config.model {
            PhysicsModel::SpringPendulum => next == spring_stepped(config, state, anchor, h, g),
            PhysicsModel::Pendulum => exists|th0: Scalar, s: [Scalar; 4], direction: [Scalar; 2]|
                #[trigger] measured(
                    sin,
                    cos,
                    atan2,
                    config,
                    state,
                    anchor,
                    h,
                    g,
                    th0,
                    s,
                    direction,
                ) && next == pendulum_stepped(config, state, anchor, h, g, th0, s, direction),
        }
    }
}

fn pull_swing(p: &Swing, sine: Scalar, w: Scalar) -> (r: Scalar)
    ensures
        r == swing_pull(*p, sine, w),
{
    proof {
        reveal(swing_pull);
    }
    p.ratio.neg().mul(sine).sub(w.mul(p.damping).mul(p.critical))
}

fn half1(a: Scalar, k: Scalar, h: Scalar) -> (r: Scalar)
    ensures
        r == halfway1(a, k, h),
{
    proof {
        reveal(halfway1);
    }
    a.add(k.mul(h).mul(Scalar { bits: arith::HALF }))
}

fn add1(a: Scalar, k: Scalar, h: Scalar) -> (r: Scalar)
    ensures
        r == ahead1(a, k, h),
{
    proof {
        reveal(ahead1);
    }
    a.add(k.mul(h))
}

fn weigh1(a: Scalar, k1: Scalar, k2: Scalar, k3: Scalar, k4: Scalar, h: Scalar) -> (r: Scalar)
    ensures
        r == weighted1(a, k1, k2, k3, k4, h),
{
    proof {
        reveal(weighted1);
    }
    let two = Scalar { bits: arith::TWO };
    a.add(h.div(Scalar { bits: SIX }).mul(k1.add(two.mul(k2)).add(two.mul(k3)).add(k4)))
}

/// One step of a simulation in puppet space. The anchor may have moved since the
/// last step: a rigid pendulum takes its angle from where its bob is.
pub fn step<
    S: Fn(Scalar) -> Scalar,
    C: Fn(Scalar) -> Scalar,
    A: Fn(Scalar, Scalar) -> Scalar,
>(
    config: &InxSimplePhysics,
    state: &InxPhysicsState,
    anchor: [Scalar; 2],
    h: Scalar,
    g: Scalar,
    sin: &S,
    cos: &C,
    atan2: &A,
) -> (r: InxPhysicsState)
    requires
        forall|x: Scalar| #[trigger] sin.requires((x,)),
        forall|x: Scalar| #[trigger] cos.requires((x,)),
        forall|y: Scalar, x: Scalar| #[trigger] atan2.requires((y, x)),
    ensures
        steps(sin, cos, atan2, *config, *state, anchor, h, g, r),
{
    if h.le(Scalar { bits: 0 }) {
        return *state;
    }
    match config.model {
        PhysicsModel::SpringPendulum => step_spring(config, state, anchor, h, g),
        PhysicsModel::Pendulum => {
            let d = sub2(state.bob, anchor);
            let th0 = if (Scalar { bits: MICRO }).lt(length_squared(d)) {
                atan2(d[0], d[1])
            } else {
                state.angle
            };
            let l = bone_of(config);
            let ratio = g.div(l);
            let p = Swing { ratio, damping: config.angle_damping, critical: critical_of(ratio) };
            let w0 = state.d_angle;
            let s1 = sin(th0);
            let k1w = pull_swing(&p, s1, w0);
            let w1 = half1(w0, k1w, h);
            let s2 = sin(half1(th0, w0, h));
            let k2w = pull_swing(&p, s2, w1);
            let w2 = half1(w0, k2w, h);
            let s3 = sin(half1(th0, w1, h));
            let k3w = pull_swing(&p, s3, w2);
            let w3 = add1(w0, k3w, h);
            let s4 = sin(add1(th0, w2, h));
            let k4w = pull_swing(&p, s4, w3);
            let th = weigh1(th0, w0, w1, w2, w3, h);
            let w = weigh1(w0, k1w, k2w, k3w, k4w, h);
            let (angle, d_angle) = if th.is_finite() && w.is_finite() {
                (th, w)
            } else {
                (th0, w0)
            };
            let direction = [sin(angle), cos(angle)];
            let r = InxPhysicsState {
                bob: add2(anchor, mul2(direction, l)),
                angle,
                d_angle,
                ..*state
            };
            proof {
                let s = [s1, s2, s3, s4];
                assert(measured(
                    sin,
                    cos,
                    atan2,
                    *config,
                    *state,
                    anchor,
                    h,
                    g,
                    th0,
                    s,
                    direction,
                ));
            }
            r
        },
    }
}

/// A time that can be simulated.
pub open spec fn simulable(h: Scalar) -> bool {
    !h.nan() && !h.negative() && h.value() <= arith::num(LONGEST).value()
}

/// A tick off a longer time leaves less.
pub proof fn lemma_tick(h: Scalar)
    requires
        simulable(h),
        arith::num(TICK).less(h),
    ensures
        simulable(h.minus(arith::num(TICK))),
        h.minus(arith::num(TICK)).value() < h.value(),
        h.minus(arith::num(TICK)).value() >= 0,
{
    let c = arith::num(TICK);
    let top = arith::num(LONGEST);
    scalar::lemma_value_order(h, top);
    scalar::lemma_value_order(c, h);
    let m = h.mag();
    let e = (m - 1) / 0x80_0000;
    let (q, s) = if e == 0 {
        (m - 1, 0)
    } else {
        ((m - 1) % 0x80_0000 + 0x80_0000, e - 1)
    };
    arith::lemma_packs(q, s, m - 1);
    arith::lemma_packs(0xa3_d70a, 119, TICK as int);
    vstd::arithmetic::power2::lemma2_to64();
    vstd::arithmetic::power2::lemma_pow2_adds(10, 119);
    vstd::arithmetic::power2::lemma_pow2_pos(119);
    if s < 129 {
        vstd::arithmetic::power2::lemma_pow2_strictly_increases(s as nat, 129);
    }
    let p = pow2(s as nat) as int;
    assert((q + 1) * p - q * p == p) by (nonlinear_arith);
    rounding::lemma_minus_decreases(h, c);
}

/// The steps that make up a time: ticks, and what is left.
pub open spec fn substeps(h: Scalar) -> Seq<Scalar>
    decreases h.value(),
    when simulable(h)
{
    if arith::num(TICK).less(h) {
        proof {
            lemma_tick(h);
        }
        seq![arith::num(TICK)] + substeps(h.minus(arith::num(TICK)))
    } else {
        seq![h]
    }
}

/// Each state follows from the one before by a step.
pub open spec fn follows<
    S: Fn(Scalar) -> Scalar,
    C: Fn(Scalar) -> Scalar,
    A: Fn(Scalar, Scalar) -> Scalar,
>(
    sin: &S,
    cos: &C,
    atan2: &A,
    config: InxSimplePhysics,
    anchor: [Scalar; 2],
    g: Scalar,
    hs: Seq<Scalar>,
    states: Seq<InxPhysicsState>,
) -> bool {
    &&& states.len() == hs.len() + 1
    &&& forall|i: int|
        0 <= i < hs.len() ==> steps(
            sin,
            cos,
            atan2,
            config,
            states[i],
            anchor,
            #[trigger] hs[i],
            g,
            states[i + 1],
        )
}

/// A simulation over a time, in steps.
pub open spec fn simulates<
    S: Fn(Scalar) -> Scalar,
    C: Fn(Scalar) -> Scalar,
    A: Fn(Scalar, Scalar) -> Scalar,
>(
    sin: &S,
    cos: &C,
    atan2: &A,
    config: InxSimplePhysics,
    state: InxPhysicsState,
    anchor: [Scalar; 2],
    dt: Scalar,
    g: Scalar,
    next: InxPhysicsState,
) -> bool {
    exists|states: Seq<InxPhysicsState>| #[trigger]
        follows(sin, cos, atan2, config, anchor, g, substeps(dt), states) && states[0] == state
            && states.last() == next
}

/// Simulates a time in steps of at most a tick.
pub fn simulate<
    S: Fn(Scalar) -> Scalar,
    C: Fn(Scalar) -> Scalar,
    A: Fn(Scalar, Scalar) -> Scalar,
>(
    config: &InxSimplePhysics,
    state: &InxPhysicsState,
    anchor: [Scalar; 2],
    dt: Scalar,
    g: Scalar,
    sin: &S,
    cos: &C,
    atan2: &A,
) -> (r: InxPhysicsState)
    requires
        simulable(dt),
        forall|x: Scalar| #[trigger] sin.requires((x,)),
        forall|x: Scalar| #[trigger] cos.requires((x,)),
        forall|y: Scalar, x: Scalar| #[trigger] atan2.requires((y, x)),
    ensures
        simulates(sin, cos, atan2, *config, *state, anchor, dt, g, r),
{
    let tick = Scalar { bits: TICK };
    let mut h = dt;
    let mut r = *state;
    let ghost mut done: Seq<Scalar> = Seq::empty();
    let ghost mut states: Seq<InxPhysicsState> = seq![*state];
    assert(done + substeps(h) =~= substeps(dt));
    while tick.lt(h)
        invariant
            tick == arith::num(TICK),
            simulable(h),
            forall|x: Scalar| #[trigger] sin.requires((x,)),
            forall|x: Scalar| #[trigger] cos.requires((x,)),
            forall|y: Scalar, x: Scalar| #[trigger] atan2.requires((y, x)),
            done + substeps(h) == substeps(dt),
            follows(sin, cos, atan2, *config, anchor, g, done, states),
            states[0] == *state,
            states.last() == r,
        decreases h.value(),
    {
        let next = step(config, &r, anchor, tick, g, sin, cos, atan2);
        proof {
            lemma_tick(h);
            let before = states;
            let had = done;
            states = before.push(next);
            done = had.push(tick);
            assert forall|i: int| 0 <= i < done.len() implies steps(
                sin,
                cos,
                atan2,
                *config,
                states[i],
                anchor,
                #[trigger] done[i],
                g,
                states[i + 1],
            ) by {
                if i < had.len() {
                    assert(done[i] == had[i]);
                    assert(states[i] == before[i] && states[i + 1] == before[i + 1]);
                } else {
                    assert(states[i] == before.last());
                }
            }
            assert(done + substeps(h.minus(tick)) =~= had + substeps(h));
        }
        r = next;
        h = h.sub(tick);
    }
    let next = step(config, &r, anchor, h, g, sin, cos, atan2);
    proof {
        let all = states.push(next);
        let hs = done.push(h);
        assert(hs =~= substeps(dt));
        assert forall|i: int| 0 <= i < hs.len() implies steps(
            sin,
            cos,
            atan2,
            *config,
            all[i],
            anchor,
            #[trigger] hs[i],
            g,
            all[i + 1],
        ) by {
            if i < done.len() {
                assert(hs[i] == done[i]);
                assert(all[i] == states[i] && all[i + 1] == states[i + 1]);
            } else {
                assert(all[i] == states.last());
            }
        }
        assert(follows(sin, cos, atan2, *config, anchor, g, substeps(dt), all));
        assert(all[0] == states[0]);
    }
    next
}

/// The time to simulate in a frame, if there is any; no more than 10 s.
pub fn frame_time(delta: Scalar) -> (r: Option<Scalar>)
    ensures
        ({
            let dt = delta.smaller(arith::num(LONGEST));
            r == if dt.less(arith::num(0)) || dt.same(arith::num(0)) {
                None::<Scalar>
            } else {
                Some(dt)
            }
        }),
        r matches Some(dt) ==> simulable(dt),
        !delta.nan() ==> (r is Some <==> delta.value() > 0),
        !delta.nan() ==> (r matches Some(dt) ==> dt.value() == if delta.value() < arith::num(
            LONGEST,
        ).value() {
            delta.value()
        } else {
            arith::num(LONGEST).value()
        }),
{
    let dt = delta.min(Scalar { bits: LONGEST });
    proof {
        scalar::lemma_value_order(arith::num(0), dt);
        scalar::lemma_value_order(dt, arith::num(LONGEST));
        scalar::lemma_value_order(delta, arith::num(LONGEST));
        scalar::lemma_value_order(arith::num(LONGEST), delta);
        arith::lemma_packs(0, 0, 0);
        arith::lemma_magnitudes(0, arith::num(LONGEST).mag());
    }
    if dt.le(Scalar { bits: 0 }) {
        None
    } else {
        Some(dt)
    }
}

/// Whether the simulations of a puppet run: as the puppet says, or else as the
/// global setting says, or else they do.
pub fn physics_enabled(
    global: Option<PhysicsEnabled>,
    local: Option<InxPuppetPhysicsEnabled>,
) -> (r: bool)
    ensures
        r == (match (local, global) {
            (Some(o), _) => o.0,
            (None, Some(e)) => e.0,
            (None, None) => true,
        }),
{
    match local {
        Some(o) => o.0,
        None => match global {
            Some(e) => e.0,
            None => true,
        },
    }
}

/// Gravity in a simulation of a puppet.
pub open spec fn gravity_in(config: InxSimplePhysics, puppet: InxPhysics) -> Scalar {
    config.gravity.times(puppet.gravity).times(puppet.pixels_per_meter)
}

/// Gravity in a simulation: that of the node, times that of the puppet, in pixels.
/// A puppet that is not there counts as 1000 pixels per meter on earth.
pub fn gravity_of(config: &InxSimplePhysics, puppet: Option<InxPhysics>) -> (r: Scalar)
    ensures
        r == (match puppet {
            Some(p) => config.gravity.times(p.gravity).times(p.pixels_per_meter),
            None => config.gravity.times(arith::num(0x411c_cccd)).times(arith::num(0x447a_0000)),
        }),
        puppet matches Some(p) ==> r == gravity_in(*config, p),
{
    let (ppm, puppet_gravity) = match puppet {
        Some(p) => (p.pixels_per_meter, p.gravity),
        None => (Scalar { bits: 0x447a_0000 }, Scalar { bits: 0x411c_cccd }),
    };
    config.gravity.mul(puppet_gravity).mul(ppm)
}

/// The anchor of a simulation in puppet space: where the node is in its parent, or
/// else in the world. Y is turned down.
pub fn anchor_of(config: &InxSimplePhysics, local: [Scalar; 2], world: [Scalar; 2]) -> (r: [Scalar;
    2])
    ensures
        r == (if config.local_only {
            [local[0], local[1].negated()]
        } else {
            [world[0], world[1].negated()]
        }),
        config.local_only ==> r[0] == local[0] && r[1].value() + local[1].value() == 0,
        !config.local_only ==> r[0] == world[0] && r[1].value() + world[1].value() == 0,
{
    proof {
        scalar::lemma_negated(local[1]);
        scalar::lemma_negated(world[1]);
    }
    if config.local_only {
        [local[0], local[1].neg()]
    } else {
        [world[0], world[1].neg()]
    }
}

/// What a frame does to a simulation.
#[derive(Debug, Clone, Copy, PartialEq, Eq, Structural)]
pub enum Driven {
    /// It is off; its param goes to zero.
    Stopped,
    /// It has just begun, at rest; its param stays.
    Begun,
    /// It has moved; its param follows.
    Moved,
}

/// The bob at rest below the anchor.
pub open spec fn at_rest(config: InxSimplePhysics, anchor: [Scalar; 2]) -> InxPhysicsState {
    InxPhysicsState {
        bob: vector::plus2(anchor, [arith::num(0), config.length]),
        velocity: [arith::num(0), arith::num(0)],
        angle: arith::num(0),
        d_angle: arith::num(0),
        initialized: true,
    }
}

/// Drives a simulation for a frame.
pub fn simple_physics_system<
    S: Fn(Scalar) -> Scalar,
    C: Fn(Scalar) -> Scalar,
    A: Fn(Scalar, Scalar) -> Scalar,
>(
    config: &InxSimplePhysics,
    state: &mut InxPhysicsState,
    enabled: bool,
    anchor: [Scalar; 2],
    dt: Scalar,
    g: Scalar,
    sin: &S,
    cos: &C,
    atan2: &A,
) -> (r: Driven)
    requires
        simulable(dt),
        forall|x: Scalar| #[trigger] sin.requires((x,)),
        forall|x: Scalar| #[trigger] cos.requires((x,)),
        forall|y: Scalar, x: Scalar| #[trigger] atan2.requires((y, x)),
    ensures
        r == (if !enabled {
            Driven::Stopped
        } else if !old(state).initialized {
            Driven::Begun
        } else {
            Driven::Moved
        }),
        r == Driven::Stopped ==> *final(state) == (InxPhysicsState {
            initialized: false,
            ..*old(state)
        }),
        r == Driven::Begun ==> *final(state) == at_rest(*config, anchor),
        r == Driven::Moved ==> simulates(
            sin,
            cos,
            atan2,
            *config,
            *old(state),
            anchor,
            dt,
            g,
            *final(state),
        ),
{
    if !enabled {
        state.initialized = false;
        return Driven::Stopped;
    }
    if !state.initialized {
        let zero = Scalar { bits: 0 };
        *state =
        InxPhysicsState {
            bob: add2(anchor, [zero, config.length]),
            velocity: [zero, zero],
            angle: zero,
            d_angle: zero,
            initialized: true,
        };
        return Driven::Begun;
    }
    *state = simulate(config, state, anchor, dt, g, sin, cos, atan2);
    Driven::Moved
}

/// A vector of length 1 in the same direction; down if there is none.
pub open spec fn direction_of(v: [Scalar; 2]) -> [Scalar; 2] {
    let rcp = arith::num(ONE).over(vector::length2(v));
    if rcp.finite() && arith::num(0).less(rcp) {
        vector::times2(v, rcp)
    } else {
        [arith::num(0), arith::num(ONE)]
    }
}

/// The output of a simulation before it is scaled, from the direction and the
/// relative length of the pendulum and its angle as a part of a half turn.
pub open spec fn output_of(
    mode: PhysicsMapMode,
    dir: [Scalar; 2],
    rel: Scalar,
    angle: Scalar,
) -> [Scalar; 2] {
    let p = vector::minus2(vector::times2(dir, rel), [arith::num(0), arith::num(ONE)]);
    match mode {
        PhysicsMapMode::AngleLength => [angle, rel],
        PhysicsMapMode::LengthAngle => [rel, angle],
        PhysicsMapMode::XY => [p[0], p[1].negated()],
        PhysicsMapMode::YX => [p[1].negated(), p[0]],
    }
}

/// Both components scaled.
pub open spec fn scaled(v: [Scalar; 2], scale: [Scalar; 2]) -> [Scalar; 2] {
    [v[0].times(scale[0]), v[1].times(scale[1])]
}

fn scale_output(v: [Scalar; 2], scale: [Scalar; 2]) -> (r: [Scalar; 2])
    ensures
        r == scaled(v, scale),
{
    [v[0].mul(scale[0]), v[1].mul(scale[1])]
}

fn map_mode_output(mode: PhysicsMapMode, dir: [Scalar; 2], rel: Scalar, angle: Scalar) -> (r: [Scalar;
    2])
    ensures
        r == output_of(mode, dir, rel, angle),
{
    let p = sub2(mul2(dir, rel), [Scalar { bits: 0 }, Scalar { bits: ONE }]);
    match mode {
        PhysicsMapMode::AngleLength => [angle, rel],
        PhysicsMapMode::LengthAngle => [rel, angle],
        PhysicsMapMode::XY => [p[0], p[1].neg()],
        PhysicsMapMode::YX => [p[1].neg(), p[0]],
    }
}

/// How far the bob is out to the side, and how far above its rest, are told in
/// units of the bone.
proof fn lemma_output_sides(dir: [Scalar; 2], rel: Scalar, scale: [Scalar; 2])
    ensures
        exact::alike2(
            scaled(output_of(PhysicsMapMode::XY, dir, rel, arith::num(0)), scale),
            [
                dir[0].times(rel).times(scale[0]),
                arith::num(ONE).minus(dir[1].times(rel)).times(scale[1]),
            ],
        ),
        exact::alike2(
            scaled(output_of(PhysicsMapMode::YX, dir, rel, arith::num(0)), scale),
            [
                arith::num(ONE).minus(dir[1].times(rel)).times(scale[0]),
                dir[0].times(rel).times(scale[1]),
            ],
        ),
{
    let side = dir[0].times(rel);
    let down = dir[1].times(rel);
    let one = arith::num(ONE);
    let flat = side.minus(arith::num(0));
    if !side.nan() {
        exact::lemma_plus_zero(side, arith::num(0));
        exact::lemma_times_alike(flat, side, scale[0], scale[0]);
        exact::lemma_times_alike(flat, side, scale[1], scale[1]);
    }
    let up = one.minus(down);
    let turned = down.minus(one).negated();
    exact::lemma_minus_turned(down, one);
    if !up.nan() {
        exact::lemma_times_alike(turned, up, scale[0], scale[0]);
        exact::lemma_times_alike(turned, up, scale[1], scale[1]);
    }
}

/// The output of a simulation that tells the angle of the pendulum.
pub open spec fn turned_output<A: Fn(Scalar, Scalar) -> Scalar>(
    config: InxSimplePhysics,
    dir: [Scalar; 2],
    rel: Scalar,
    atan2: &A,
    r: [Scalar; 2],
) -> bool {
    exists|a: Scalar| #[trigger]
        atan2.ensures((dir[0].negated(), dir[1]), a) && r == scaled(
            output_of(config.map_mode, dir, rel, a.over(arith::num(PI))),
            config.output_scale,
        )
}

/// Maps a simulation to the value of its param. `seen` is where the bob is in the
/// space of the node, Y down; it does not count where only the motion of the node
/// does.
pub fn map_output<A: Fn(Scalar, Scalar) -> Scalar>(
    config: &InxSimplePhysics,
    state: &InxPhysicsState,
    anchor: [Scalar; 2],
    seen: [Scalar; 2],
    atan2: &A,
) -> (r: [Scalar; 2])
    requires
        forall|y: Scalar, x: Scalar| #[trigger] atan2.requires((y, x)),
    ensures
        ({
            let local = if config.local_only {
                vector::minus2(state.bob, anchor)
            } else {
                seen
            };
            let dir = direction_of(local);
            let rel = vector::length2(vector::minus2(state.bob, anchor)).over(bone(*config));
            if config.map_mode == PhysicsMapMode::AngleLength || config.map_mode
                == PhysicsMapMode::LengthAngle {
                turned_output(*config, dir, rel, atan2, r)
            } else {
                r == scaled(
                    output_of(config.map_mode, dir, rel, arith::num(0)),
                    config.output_scale,
                )
            }
        }),
        ({
            let arm = vector::minus2(state.bob, anchor);
            let local = if config.local_only {
                arm
            } else {
                seen
            };
            let dir = direction_of(local);
            let rel = vector::length2(arm).over(bone(*config));
            let angled = |part: Scalar, scale: Scalar|
                exists|a: Scalar| #[trigger]
                    atan2.ensures((dir[0].negated(), dir[1]), a) && part == a.over(
                        arith::num(PI),
                    ).times(scale);
            match config.map_mode {
                PhysicsMapMode::AngleLength => angled(r[0], config.output_scale[0]) && r[1]
                    == rel.times(config.output_scale[1]),
                PhysicsMapMode::LengthAngle => angled(r[1], config.output_scale[1]) && r[0]
                    == rel.times(config.output_scale[0]),
                PhysicsMapMode::XY => exact::alike2(
                    r,
                    [
                        dir[0].times(rel).times(config.output_scale[0]),
                        arith::num(ONE).minus(dir[1].times(rel)).times(config.output_scale[1]),
                    ],
                ),
                PhysicsMapMode::YX => exact::alike2(
                    r,
                    [
                        arith::num(ONE).minus(dir[1].times(rel)).times(config.output_scale[0]),
                        dir[0].times(rel).times(config.output_scale[1]),
                    ],
                ),
            }
        }),
{
    let l = bone_of(config);
    let one = Scalar { bits: ONE };
    let zero = Scalar { bits: 0 };
    let local = if config.local_only {
        sub2(state.bob, anchor)
    } else {
        seen
    };
    let rcp = one.div(length(local));
    let dir = if rcp.is_finite() && zero.lt(rcp) {
        mul2(local, rcp)
    } else {
        [zero, one]
    };
    let rel = length(sub2(state.bob, anchor)).div(l);
    assert(dir == direction_of(local));
    match config.map_mode {
        PhysicsMapMode::AngleLength | PhysicsMapMode::LengthAngle => {
            let a = atan2(dir[0].neg(), dir[1]);
            let angle = a.div(Scalar { bits: PI });
            let out = map_mode_output(config.map_mode, dir, rel, angle);
            let r = scale_output(out, config.output_scale);
            assert(atan2.ensures((dir[0].negated(), dir[1]), a));
            assert(turned_output(*config, dir, rel, atan2, r));
            r
        },
        _ => {
            proof {
                lemma_output_sides(dir, rel, config.output_scale);
            }
            scale_output(map_mode_output(config.map_mode, dir, rel, zero), config.output_scale)
        },
    }
}

/// Writes the value of a param unless it is there already, and says whether that
/// was necessary.
pub fn write_param(state: InxParamState, uuid: u32, value: [Scalar; 2]) -> (r: (InxParamState, bool))
    ensures
        r.0.values@ == state.values@.insert(
            uuid,
            animation::written(id_map::found(state.values@, uuid), value),
        ),
        r.1 == !(id_map::found(state.values@, uuid) matches Some(v) && animation::same_pair(
            v,
            value,
        )),
{
    let equal = match state.values.get(uuid) {
        Some(v) => v[0].num_eq(value[0]) && v[1].num_eq(value[1]),
        None => false,
    };
    if equal {
        assert(state.values@ =~= state.values@.insert(uuid, state.values@[uuid]));
        (state, false)
    } else {
        (InxParamState { values: state.values.insert(uuid, value) }, true)
    }
}

/// In the modes that tell the angle, the component that the mode names is the angle
/// that was measured, as a part of a half turn and scaled; the other is the relative
/// length, scaled.
pub proof fn lemma_angle_is_told<A: Fn(Scalar, Scalar) -> Scalar>(
    config: InxSimplePhysics,
    dir: [Scalar; 2],
    rel: Scalar,
    atan2: &A,
    r: [Scalar; 2],
)
    requires
        turned_output(config, dir, rel, atan2, r),
    ensures
        config.map_mode == PhysicsMapMode::AngleLength ==> {
            &&& exists|a: Scalar| #[trigger]
                atan2.ensures((dir[0].negated(), dir[1]), a) && r[0] == a.over(
                    arith::num(PI),
                ).times(config.output_scale[0])
            &&& r[1] == rel.times(config.output_scale[1])
        },
        config.map_mode == PhysicsMapMode::LengthAngle ==> {
            &&& exists|a: Scalar| #[trigger]
                atan2.ensures((dir[0].negated(), dir[1]), a) && r[1] == a.over(
                    arith::num(PI),
                ).times(config.output_scale[1])
            &&& r[0] == rel.times(config.output_scale[0])
        },
{
}

/// Unlike angles give unlike outputs: with the same scale, outputs of the modes that
/// tell the angle differ only where angles do, and the larger angle is never told as
/// the smaller number.
pub proof fn lemma_angle_rises(a: Scalar, b: Scalar, scale: Scalar, dir: [Scalar; 2], rel: Scalar)
    requires
        a.finite(),
        b.finite(),
        !a.negative(),
        !b.negative(),
        a.value() <= b.value(),
        scale.finite(),
        !scale.negative(),
        a.over(arith::num(PI)).finite(),
        b.over(arith::num(PI)).finite(),
    ensures
        ({
            let p = arith::num(PI);
            let (x, y) = (a.over(p), b.over(p));
            let one = arith::num(ONE);
            &&& scaled(output_of(PhysicsMapMode::AngleLength, dir, rel, x), [scale, one])[0].value()
                <= scaled(output_of(PhysicsMapMode::AngleLength, dir, rel, y), [scale, one])[0].value()
            &&& scaled(output_of(PhysicsMapMode::LengthAngle, dir, rel, x), [one, scale])[1].value()
                <= scaled(output_of(PhysicsMapMode::LengthAngle, dir, rel, y), [one, scale])[1].value()
            &&& a == p ==> exact::alike(
                scaled(output_of(PhysicsMapMode::AngleLength, dir, rel, x), [scale, one])[0],
                scale,
            )
        }),
{
    let p = arith::num(PI);
    exact::lemma_zero_value(arith::num(0));
    scalar::lemma_value_order(arith::num(0), p);
    exact::lemma_over_ordered(a, b, p);
    exact::lemma_over_ordered(b, b, p);
    rounding::lemma_times_ordered(a.over(p), b.over(p), scale);
    if a == p {
        exact::lemma_over_self(p);
        exact::lemma_one_times(scale);
    }
}

/// Two vectors are mirror images, left and right.
pub open spec fn mirrored2(a: [Scalar; 2], b: [Scalar; 2]) -> bool {
    exact::opposite(a[0], b[0]) && exact::matching(a[1], b[1])
}

proof fn lemma_mirrored_sums(a: [Scalar; 2], b: [Scalar; 2], c: [Scalar; 2], d: [Scalar; 2])
    requires
        mirrored2(a, b),
        mirrored2(c, d),
    ensures
        mirrored2(vector::plus2(a, c), vector::plus2(b, d)),
        mirrored2(vector::minus2(a, c), vector::minus2(b, d)),
{
    exact::lemma_plus_mirrored(a[0], b[0], c[0], d[0]);
    exact::lemma_plus_mirrored(a[1], b[1], c[1], d[1]);
    exact::lemma_minus_mirrored(a[0], b[0], c[0], d[0]);
    exact::lemma_minus_mirrored(a[1], b[1], c[1], d[1]);
}

proof fn lemma_mirrored_times(a: [Scalar; 2], b: [Scalar; 2], k: Scalar, l: Scalar)
    requires
        mirrored2(a, b),
        exact::matching(k, l),
    ensures
        mirrored2(vector::times2(a, k), vector::times2(b, l)),
{
    exact::lemma_times_mirrored(a[0], b[0], k, l);
    exact::lemma_times_mirrored(a[1], b[1], k, l);
}

proof fn lemma_mirrored_length(a: [Scalar; 2], b: [Scalar; 2])
    requires
        mirrored2(a, b),
    ensures
        exact::matching(vector::length2(a), vector::length2(b)),
        vector::length2(a).mag() != 0 && !vector::length2(a).nan() ==> vector::length2(a)
            == vector::length2(b),
        vector::length2(a).nan() == vector::length2(b).nan(),
{
    exact::lemma_times_mirrored(a[0], b[0], a[0], b[0]);
    exact::lemma_times_mirrored(a[1], b[1], a[1], b[1]);
    exact::lemma_plus_mirrored(
        a[0].times(a[0]),
        b[0].times(b[0]),
        a[1].times(a[1]),
        b[1].times(b[1]),
    );
    let (x, y) = (vector::square2(a), vector::square2(b));
    if x.nan() || y.nan() {
        assert(x.nan() && y.nan()) by {
            exact::lemma_alike_same(x, y);
        }
    }
}

/// The direction of a mirrored vector is mirrored.
pub proof fn lemma_direction_mirrored(a: [Scalar; 2], b: [Scalar; 2])
    requires
        mirrored2(a, b),
    ensures
        mirrored2(direction_of(a), direction_of(b)),
{
    let one = arith::num(ONE);
    lemma_mirrored_length(a, b);
    let (l, m) = (vector::length2(a), vector::length2(b));
    let (x, y) = (one.over(l), one.over(m));
    exact::lemma_alike_same(l, m);
    exact::lemma_zero_value(l);
    exact::lemma_zero_value(m);
    exact::lemma_small();
    exact::lemma_sign(one, 1, 149);
    if l.mag() == 0 || l.nan() {
        assert(!x.finite() && !y.finite());
    } else {
        assert(x == y);
        lemma_mirrored_times(a, b, x, y);
    }
    exact::lemma_negated_mirrored(arith::num(0), arith::num(0));
}

/// A direction points to the same sides as its vector.
pub proof fn lemma_direction_keeps_sides(v: [Scalar; 2])
    requires
        v[0].finite(),
        v[1].finite(),
        arith::num(ONE).over(vector::length2(v)).finite(),
        arith::num(0).less(arith::num(ONE).over(vector::length2(v))),
    ensures
        direction_of(v)[0].negative() == v[0].negative(),
        direction_of(v)[1].negative() == v[1].negative(),
        v[0].mag() == 0 ==> direction_of(v)[0].mag() == 0,
        v[1].mag() == 0 ==> direction_of(v)[1].mag() == 0,
{
    let rcp = arith::num(ONE).over(vector::length2(v));
    exact::lemma_zero_value(arith::num(0));
    exact::lemma_zero_value(rcp);
    arith::lemma_magnitudes(0, rcp.mag());
    exact::lemma_one();
    let (p, q, r) = (
        arith::absolute(v[0].value()),
        arith::absolute(v[1].value()),
        arith::absolute(rcp.value()),
    );
    assert(p * r >= 0 && q * r >= 0) by (nonlinear_arith)
        requires
            p >= 0,
            q >= 0,
            r >= 0,
    ;
    rounding::lemma_nearest_exists(p * r, scalar::unit());
    rounding::lemma_nearest_exists(q * r, scalar::unit());
    if v[0].mag() == 0 {
        exact::lemma_times_zero(rcp, v[0]);
    }
    if v[1].mag() == 0 {
        exact::lemma_times_zero(rcp, v[1]);
    }
}

/// A bob that has swung as far to the other side is told as far to the other side, and
/// as high, in the modes that tell where the bob is.
pub proof fn lemma_sides_are_told(a: [Scalar; 2], b: [Scalar; 2], rel: Scalar)
    requires
        mirrored2(a, b),
    ensures
        ({
            let (d, e) = (direction_of(a), direction_of(b));
            let zero = arith::num(0);
            let (x, y) = (
                output_of(PhysicsMapMode::XY, d, rel, zero),
                output_of(PhysicsMapMode::XY, e, rel, zero),
            );
            let (u, v) = (
                output_of(PhysicsMapMode::YX, d, rel, zero),
                output_of(PhysicsMapMode::YX, e, rel, zero),
            );
            &&& exact::opposite(x[0], y[0]) && exact::matching(x[1], y[1])
            &&& exact::matching(u[0], v[0]) && exact::opposite(u[1], v[1])
        }),
{
    let (d, e) = (direction_of(a), direction_of(b));
    let zero = arith::num(0);
    let one = arith::num(ONE);
    lemma_direction_mirrored(a, b);
    lemma_mirrored_times(d, e, rel, rel);
    let (x, y) = (vector::times2(d, rel), vector::times2(e, rel));
    exact::lemma_minus_mirrored(x[0], y[0], zero, zero);
    exact::lemma_minus_mirrored(x[1], y[1], one, one);
    exact::lemma_negated_mirrored(x[1].minus(one), y[1].minus(one));
}

/// The pull of a spring, mirrored.
proof fn lemma_pull_mirrored(
    s: Spring,
    t: Spring,
    bob: [Scalar; 2],
    bob2: [Scalar; 2],
    vel: [Scalar; 2],
    vel2: [Scalar; 2],
)
    requires
        mirrored2(s.anchor, t.anchor),
        s == (Spring { anchor: s.anchor, ..t }),
        mirrored2(bob, bob2),
        mirrored2(vel, vel2),
    ensures
        mirrored2(spring_pull(s, bob, vel), spring_pull(t, bob2, vel2)),
{
    let zero = arith::num(0);
    lemma_mirrored_sums(bob, bob2, s.anchor, t.anchor);
    let (off, off2) = (vector::minus2(bob, s.anchor), vector::minus2(bob2, t.anchor));
    lemma_mirrored_length(off, off2);
    let (dist, dist2) = (vector::length2(off), vector::length2(off2));
    let (n, n2) = (axis_of(off), axis_of(off2));
    lemma_axis_mirrored(off, off2);
    exact::lemma_minus_mirrored(dist, dist2, s.rest_length, t.rest_length);
    let (e, e2) = (dist.minus(s.rest_length), dist2.minus(t.rest_length));
    lemma_mirrored_times(n, n2, e, e2);
    lemma_mirrored_times(vector::times2(n, e), vector::times2(n2, e2), s.stiffness, t.stiffness);
    let pull = vector::times2(vector::times2(n, e), s.stiffness);
    let pull2 = vector::times2(vector::times2(n2, e2), t.stiffness);
    exact::lemma_negated_mirrored(zero, zero);
    assert(mirrored2([zero, s.gravity], [zero, t.gravity]));
    lemma_mirrored_sums([zero, s.gravity], [zero, t.gravity], pull, pull2);
    lemma_brake_mirrored(s, t, n, n2, vel, vel2);
    let force = vector::minus2([zero, s.gravity], pull);
    let force2 = vector::minus2([zero, t.gravity], pull2);
    lemma_mirrored_sums(force, force2, brake(s, n, vel), brake(t, n2, vel2));
}

proof fn lemma_axis_mirrored(off: [Scalar; 2], off2: [Scalar; 2])
    requires
        mirrored2(off, off2),
    ensures
        mirrored2(axis_of(off), axis_of(off2)),
{
    lemma_mirrored_length(off, off2);
    let (dist, dist2) = (vector::length2(off), vector::length2(off2));
    exact::lemma_alike_same(dist, dist2);
    exact::lemma_zero_value(dist);
    scalar::lemma_value_order(arith::num(0), arith::num(SHORT));
    exact::lemma_zero_value(arith::num(0));
    if arith::num(SHORT).less(dist) {
        exact::lemma_over_mirrored(off[0], off2[0], dist);
        exact::lemma_over_mirrored(off[1], off2[1], dist);
    }
}

/// What damping adds to the acceleration of a spring pendulum that points along `n`.
spec fn brake(s: Spring, n: [Scalar; 2], vel: [Scalar; 2]) -> [Scalar; 2] {
    let turned = [
        vel[0].times(n[1]).plus(vel[1].times(n[0])),
        vel[1].times(n[1]).minus(vel[0].times(n[0])),
    ];
    let damped = [
        turned[0].negated().times(s.angle_damping).times(s.crit_angle),
        turned[1].negated().times(s.length_damping).times(s.crit_length),
    ];
    [
        damped[0].times(n[1]).minus(turned[1].times(n[0])),
        damped[1].times(n[1]).plus(turned[0].times(n[0])),
    ]
}

proof fn lemma_brake_mirrored(
    s: Spring,
    t: Spring,
    n: [Scalar; 2],
    m: [Scalar; 2],
    vel: [Scalar; 2],
    vel2: [Scalar; 2],
)
    requires
        s == (Spring { anchor: s.anchor, ..t }),
        mirrored2(n, m),
        mirrored2(vel, vel2),
    ensures
        mirrored2(brake(s, n, vel), brake(t, m, vel2)),
{
    exact::lemma_times_mirrored(vel[0], vel2[0], n[1], m[1]);
    exact::lemma_times_mirrored(vel[1], vel2[1], n[0], m[0]);
    exact::lemma_times_mirrored(vel[1], vel2[1], n[1], m[1]);
    exact::lemma_times_mirrored(vel[0], vel2[0], n[0], m[0]);
    exact::lemma_plus_mirrored(
        vel[0].times(n[1]),
        vel2[0].times(m[1]),
        vel[1].times(n[0]),
        vel2[1].times(m[0]),
    );
    exact::lemma_minus_mirrored(
        vel[1].times(n[1]),
        vel2[1].times(m[1]),
        vel[0].times(n[0]),
        vel2[0].times(m[0]),
    );
    let (a, a2) = (
        vel[0].times(n[1]).plus(vel[1].times(n[0])),
        vel2[0].times(m[1]).plus(vel2[1].times(m[0])),
    );
    let (b, b2) = (
        vel[1].times(n[1]).minus(vel[0].times(n[0])),
        vel2[1].times(m[1]).minus(vel2[0].times(m[0])),
    );
    exact::lemma_negated_mirrored(a, a2);
    exact::lemma_negated_mirrored(b, b2);
    exact::lemma_times_mirrored(a.negated(), a2.negated(), s.angle_damping, t.angle_damping);
    exact::lemma_times_mirrored(b.negated(), b2.negated(), s.length_damping, t.length_damping);
    let (c, c2) = (a.negated().times(s.angle_damping), a2.negated().times(t.angle_damping));
    let (d, d2) = (b.negated().times(s.length_damping), b2.negated().times(t.length_damping));
    exact::lemma_times_mirrored(c, c2, s.crit_angle, t.crit_angle);
    exact::lemma_times_mirrored(d, d2, s.crit_length, t.crit_length);
    let (e, e2) = (c.times(s.crit_angle), c2.times(t.crit_angle));
    let (f, f2) = (d.times(s.crit_length), d2.times(t.crit_length));
    exact::lemma_times_mirrored(e, e2, n[1], m[1]);
    exact::lemma_times_mirrored(b, b2, n[0], m[0]);
    exact::lemma_times_mirrored(f, f2, n[1], m[1]);
    exact::lemma_times_mirrored(a, a2, n[0], m[0]);
    exact::lemma_minus_mirrored(e.times(n[1]), e2.times(m[1]), b.times(n[0]), b2.times(m[0]));
    exact::lemma_plus_mirrored(f.times(n[1]), f2.times(m[1]), a.times(n[0]), a2.times(m[0]));
}

proof fn lemma_ahead_mirrored(
    a: [Scalar; 2],
    b: [Scalar; 2],
    k: [Scalar; 2],
    l: [Scalar; 2],
    h: Scalar,
)
    requires
        mirrored2(a, b),
        mirrored2(k, l),
    ensures
        mirrored2(halfway2(a, k, h), halfway2(b, l, h)),
        mirrored2(
            vector::plus2(a, vector::times2(k, h)),
            vector::plus2(b, vector::times2(l, h)),
        ),
{
    let half = arith::num(arith::HALF);
    lemma_mirrored_times(k, l, h, h);
    lemma_mirrored_times(vector::times2(k, h), vector::times2(l, h), half, half);
    lemma_mirrored_sums(
        a,
        b,
        vector::times2(vector::times2(k, h), half),
        vector::times2(vector::times2(l, h), half),
    );
    lemma_mirrored_sums(a, b, vector::times2(k, h), vector::times2(l, h));
}

proof fn lemma_weighted_mirrored(
    a: [Scalar; 2],
    b: [Scalar; 2],
    k1: [Scalar; 2],
    k2: [Scalar; 2],
    k3: [Scalar; 2],
    k4: [Scalar; 2],
    l1: [Scalar; 2],
    l2: [Scalar; 2],
    l3: [Scalar; 2],
    l4: [Scalar; 2],
    h: Scalar,
)
    requires
        mirrored2(a, b),
        mirrored2(k1, l1),
        mirrored2(k2, l2),
        mirrored2(k3, l3),
        mirrored2(k4, l4),
    ensures
        mirrored2(weighted2(a, k1, k2, k3, k4, h), weighted2(b, l1, l2, l3, l4, h)),
{
    let two = arith::num(arith::TWO);
    let six = h.over(arith::num(SIX));
    lemma_mirrored_times(k2, l2, two, two);
    lemma_mirrored_times(k3, l3, two, two);
    let (p, q) = (
        vector::plus2(k1, vector::times2(k2, two)),
        vector::plus2(l1, vector::times2(l2, two)),
    );
    lemma_mirrored_sums(k1, l1, vector::times2(k2, two), vector::times2(l2, two));
    let (r, t) = (
        vector::plus2(p, vector::times2(k3, two)),
        vector::plus2(q, vector::times2(l3, two)),
    );
    lemma_mirrored_sums(p, q, vector::times2(k3, two), vector::times2(l3, two));
    lemma_mirrored_sums(r, t, k4, l4);
    let (u, v) = (vector::plus2(r, k4), vector::plus2(t, l4));
    lemma_mirrored_times(u, v, six, six);
    lemma_mirrored_sums(a, b, vector::times2(u, six), vector::times2(v, six));
}

/// A spring pendulum swings the same to both sides: the mirror image of a simulation
/// is a simulation of the mirror image. So one that hangs straight below its anchor
/// and does not move to the side never begins to.
pub proof fn lemma_spring_swings_both_ways(
    config: InxSimplePhysics,
    state: InxPhysicsState,
    other: InxPhysicsState,
    anchor: [Scalar; 2],
    anchor2: [Scalar; 2],
    h: Scalar,
    g: Scalar,
)
    requires
        mirrored2(state.bob, other.bob),
        mirrored2(state.velocity, other.velocity),
        mirrored2(anchor, anchor2),
    ensures
        mirrored2(
            spring_stepped(config, state, anchor, h, g).bob,
            spring_stepped(config, other, anchor2, h, g).bob,
        ),
        mirrored2(
            spring_stepped(config, state, anchor, h, g).velocity,
            spring_stepped(config, other, anchor2, h, g).velocity,
        ),
{
    let s = spring_of(config, anchor, g);
    let t = spring_of(config, anchor2, g);
    let (b0, v0) = (state.bob, state.velocity);
    let (c0, w0) = (other.bob, other.velocity);
    let (k1, l1) = (spring_pull(s, b0, v0), spring_pull(t, c0, w0));
    lemma_pull_mirrored(s, t, b0, c0, v0, w0);
    lemma_ahead_mirrored(v0, w0, k1, l1, h);
    let (v1, w1) = (halfway2(v0, k1, h), halfway2(w0, l1, h));
    lemma_ahead_mirrored(b0, c0, v0, w0, h);
    let (b1, c1) = (halfway2(b0, v0, h), halfway2(c0, w0, h));
    let (k2, l2) = (spring_pull(s, b1, v1), spring_pull(t, c1, w1));
    lemma_pull_mirrored(s, t, b1, c1, v1, w1);
    lemma_ahead_mirrored(v0, w0, k2, l2, h);
    let (v2, w2) = (halfway2(v0, k2, h), halfway2(w0, l2, h));
    lemma_ahead_mirrored(b0, c0, v1, w1, h);
    let (b2, c2) = (halfway2(b0, v1, h), halfway2(c0, w1, h));
    let (k3, l3) = (spring_pull(s, b2, v2), spring_pull(t, c2, w2));
    lemma_pull_mirrored(s, t, b2, c2, v2, w2);
    lemma_ahead_mirrored(v0, w0, k3, l3, h);
    let (v3, w3) = (
        vector::plus2(v0, vector::times2(k3, h)),
        vector::plus2(w0, vector::times2(l3, h)),
    );
    lemma_ahead_mirrored(b0, c0, v2, w2, h);
    let (b3, c3) = (
        vector::plus2(b0, vector::times2(v2, h)),
        vector::plus2(c0, vector::times2(w2, h)),
    );
    let (k4, l4) = (spring_pull(s, b3, v3), spring_pull(t, c3, w3));
    lemma_pull_mirrored(s, t, b3, c3, v3, w3);
    lemma_weighted_mirrored(b0, c0, v0, v1, v2, v3, w0, w1, w2, w3, h);
    lemma_weighted_mirrored(v0, w0, k1, k2, k3, k4, l1, l2, l3, l4, h);
    lemma_finite_mirrored(
        weighted2(b0, v0, v1, v2, v3, h),
        weighted2(c0, w0, w1, w2, w3, h),
    );
    lemma_finite_mirrored(
        weighted2(v0, k1, k2, k3, k4, h),
        weighted2(w0, l1, l2, l3, l4, h),
    );
}

proof fn lemma_finite_mirrored(a: [Scalar; 2], b: [Scalar; 2])
    requires
        mirrored2(a, b),
    ensures
        vector::finite2(a) == vector::finite2(b),
{
    scalar::lemma_negated(b[0]);
    exact::lemma_alike_same(a[1], b[1]);
    exact::lemma_alike_same(a[0], b[0].negated());
}

/// What damping does to a spring pendulum that hangs straight down.
proof fn lemma_brake_hanging(s: Spring, n: [Scalar; 2], vel: [Scalar; 2])
    requires
        n[0].mag() == 0,
        n[1] == arith::num(ONE),
        vel[0].finite(),
        vel[1].finite(),
        vel[0].negated().times(s.angle_damping).times(s.crit_angle).finite(),
        vel[1].negated().times(s.length_damping).times(s.crit_length).finite(),
    ensures
        exact::alike2(
            brake(s, n, vel),
            [
                vel[0].negated().times(s.angle_damping).times(s.crit_angle),
                vel[1].negated().times(s.length_damping).times(s.crit_length),
            ],
        ),
{
    exact::lemma_one_times(vel[0]);
    exact::lemma_one_times(vel[1]);
    exact::lemma_times_zero(vel[0], n[0]);
    exact::lemma_times_zero(vel[1], n[0]);
    exact::lemma_plus_zero(vel[0], vel[1].times(n[0]));
    exact::lemma_plus_zero(vel[1], vel[0].times(n[0]));
    let t0 = vel[0].times(n[1]).plus(vel[1].times(n[0]));
    let t1 = vel[1].times(n[1]).minus(vel[0].times(n[0]));
    exact::lemma_alike_same(t0, vel[0]);
    exact::lemma_alike_same(t1, vel[1]);
    lemma_damped(t0, vel[0], s.angle_damping, s.crit_angle);
    lemma_damped(t1, vel[1], s.length_damping, s.crit_length);
    let d0 = t0.negated().times(s.angle_damping).times(s.crit_angle);
    let d1 = t1.negated().times(s.length_damping).times(s.crit_length);
    exact::lemma_one_times(d0);
    exact::lemma_one_times(d1);
    exact::lemma_times_zero(t1, n[0]);
    exact::lemma_times_zero(t0, n[0]);
    exact::lemma_plus_zero(d0, t1.times(n[0]));
    exact::lemma_plus_zero(d1, t0.times(n[0]));
}

proof fn lemma_damped(a: Scalar, b: Scalar, damping: Scalar, critical: Scalar)
    requires
        exact::alike(a, b),
        b.negated().times(damping).times(critical).finite(),
    ensures
        exact::alike(
            a.negated().times(damping).times(critical),
            b.negated().times(damping).times(critical),
        ),
        a.negated().times(damping).times(critical).finite(),
{
    exact::lemma_negated_alike(a, b);
    exact::lemma_times_alike(a.negated(), b.negated(), damping, damping);
    let (p, q) = (a.negated().times(damping), b.negated().times(damping));
    exact::lemma_times_alike(p, q, critical, critical);
    exact::lemma_alike_same(p.times(critical), q.times(critical));
}

/// Hanging straight below its anchor, a spring pendulum is braked against its motion:
/// by the damping of the angle to the side, and by that of the length up and down,
/// where gravity and the spring pull too.
pub proof fn lemma_hanging_spring_is_braked(s: Spring, bob: [Scalar; 2], vel: [Scalar; 2])
    requires
        axis_of(vector::minus2(bob, s.anchor))[0].mag() == 0,
        axis_of(vector::minus2(bob, s.anchor))[1] == arith::num(ONE),
        ({
            let e = vector::length2(vector::minus2(bob, s.anchor)).minus(s.rest_length);
            &&& e.finite()
            &&& s.stiffness.finite()
            &&& s.gravity.minus(e.times(s.stiffness)).finite()
        }),
        vel[0].finite(),
        vel[1].finite(),
        vel[0].negated().times(s.angle_damping).times(s.crit_angle).finite(),
        vel[1].negated().times(s.length_damping).times(s.crit_length).finite(),
    ensures
        ({
            let e = vector::length2(vector::minus2(bob, s.anchor)).minus(s.rest_length);
            exact::alike2(
                spring_pull(s, bob, vel),
                [
                    vel[0].negated().times(s.angle_damping).times(s.crit_angle),
                    s.gravity.minus(e.times(s.stiffness)).plus(
                        vel[1].negated().times(s.length_damping).times(s.crit_length),
                    ),
                ],
            )
        }),
{
    let zero = arith::num(0);
    let off = vector::minus2(bob, s.anchor);
    let e = vector::length2(off).minus(s.rest_length);
    let n = axis_of(off);
    lemma_brake_hanging(s, n, vel);
    let back = brake(s, n, vel);
    exact::lemma_times_zero(e, n[0]);
    exact::lemma_one_times(e);
    exact::lemma_times_zero(s.stiffness, n[0].times(e));
    let pull = vector::times2(vector::times2(n, e), s.stiffness);
    exact::lemma_plus_zero(zero, pull[0]);
    let force = vector::minus2([zero, s.gravity], pull);
    let side = vel[0].negated().times(s.angle_damping).times(s.crit_angle);
    let down = vel[1].negated().times(s.length_damping).times(s.crit_length);
    exact::lemma_alike_same(back[0], side);
    exact::lemma_plus_zero(back[0], force[0]);
    exact::lemma_plus_alike(force[1], force[1], back[1], down);
    assert(spring_pull(s, bob, vel) == vector::plus2(force, back));
}

/// A spring pendulum that does not move is pulled along the spring, the more the
/// further it is from its rest length, and down by gravity.
pub proof fn lemma_spring_pulls_along(s: Spring, bob: [Scalar; 2])
    requires
        ({
            let off = vector::minus2(bob, s.anchor);
            let e = vector::length2(off).minus(s.rest_length);
            let n = axis_of(off);
            &&& n[0].finite() && n[1].finite()
            &&& n[0].times(e).times(s.stiffness).finite()
            &&& s.gravity.minus(n[1].times(e).times(s.stiffness)).finite()
            &&& s.angle_damping.finite() && s.crit_angle.finite()
            &&& s.length_damping.finite() && s.crit_length.finite()
        }),
    ensures
        ({
            let off = vector::minus2(bob, s.anchor);
            let e = vector::length2(off).minus(s.rest_length);
            let n = axis_of(off);
            exact::alike2(
                spring_pull(s, bob, [arith::num(0), arith::num(0)]),
                [
                    n[0].times(e).times(s.stiffness).negated(),
                    s.gravity.minus(n[1].times(e).times(s.stiffness)),
                ],
            )
        }),
{
    let zero = arith::num(0);
    let vel = [zero, zero];
    let off = vector::minus2(bob, s.anchor);
    let e = vector::length2(off).minus(s.rest_length);
    let n = axis_of(off);
    exact::lemma_times_zero(n[0], zero);
    exact::lemma_times_zero(n[1], zero);
    let (a, b) = (zero.times(n[1]), zero.times(n[0]));
    exact::lemma_plus_zero(a, b);
    let (t0, t1) = (a.plus(b), a.minus(b));
    exact::lemma_times_zero(s.angle_damping, t0.negated());
    exact::lemma_times_zero(s.length_damping, t1.negated());
    let (c, d) = (t0.negated().times(s.angle_damping), t1.negated().times(s.length_damping));
    exact::lemma_times_zero(s.crit_angle, c);
    exact::lemma_times_zero(s.crit_length, d);
    let (f, g) = (c.times(s.crit_angle), d.times(s.crit_length));
    exact::lemma_times_zero(n[1], f);
    exact::lemma_times_zero(n[1], g);
    exact::lemma_times_zero(n[0], t1);
    exact::lemma_times_zero(n[0], t0);
    exact::lemma_plus_zero(f.times(n[1]), t1.times(n[0]));
    exact::lemma_plus_zero(g.times(n[1]), t0.times(n[0]));
    let back = [f.times(n[1]).minus(t1.times(n[0])), g.times(n[1]).plus(t0.times(n[0]))];
    assert(back[0].mag() == 0 && back[1].mag() == 0);
    let pull = [n[0].times(e).times(s.stiffness), n[1].times(e).times(s.stiffness)];
    let force = [zero.minus(pull[0]), s.gravity.minus(pull[1])];
    exact::lemma_plus_zero(pull[0].negated(), zero);
    exact::lemma_alike_same(force[0], pull[0].negated());
    exact::lemma_plus_zero(force[0], back[0]);
    exact::lemma_plus_zero(force[1], back[1]);
    assert(spring_pull(s, bob, vel) == vector::plus2(force, back));
}

/// A rigid pendulum that does not move is pulled back to where it hangs: against the
/// side it is at. One that hangs is braked against its motion.
pub proof fn lemma_pendulum_is_pulled_back(p: Swing, sine: Scalar, w: Scalar)
    requires
        p.ratio.finite(),
        arith::num(0).less(p.ratio),
        sine.finite(),
        w.finite(),
        p.damping.finite(),
        p.critical.finite(),
        w.times(p.damping).finite(),
        w.times(p.damping).times(p.critical).finite(),
    ensures
        w.mag() == 0 ==> exact::alike(swing_pull(p, sine, w), p.ratio.times(sine).negated()),
        w.mag() == 0 && sine.value() > 0 ==> swing_pull(p, sine, w).value() <= 0,
        w.mag() == 0 && sine.value() < 0 ==> swing_pull(p, sine, w).value() >= 0,
        sine.mag() == 0 ==> exact::alike(
            swing_pull(p, sine, w),
            w.times(p.damping).times(p.critical).negated(),
        ),
{
    reveal(swing_pull);
    let drag = w.times(p.damping).times(p.critical);
    let turn = p.ratio.negated().times(sine);
    exact::lemma_times_turned(p.ratio, sine);
    scalar::lemma_negated(p.ratio.times(sine));
    exact::lemma_one();
    let (a, b) = (arith::absolute(p.ratio.value()), arith::absolute(sine.value()));
    assert(a * b >= 0) by (nonlinear_arith)
        requires
            a >= 0,
            b >= 0,
    ;
    rounding::lemma_nearest_exists(a * b, scalar::unit());
    exact::lemma_zero_value(p.ratio);
    exact::lemma_zero_value(arith::num(0));
    exact::lemma_zero_value(sine);
    arith::lemma_magnitudes(0, p.ratio.mag());
    arith::lemma_magnitudes(0, sine.mag());
    let m = p.ratio.times(sine);
    arith::lemma_magnitudes(0, m.mag());
    if w.mag() == 0 {
        exact::lemma_times_zero(p.damping, w);
        exact::lemma_times_zero(p.critical, w.times(p.damping));
        exact::lemma_plus_zero(turn, drag);
        exact::lemma_alike_same(turn.minus(drag), turn);
    }
    if sine.mag() == 0 {
        exact::lemma_times_zero(p.ratio.negated(), sine);
        exact::lemma_plus_zero(drag.negated(), turn);
    }
}

/// The motion of a rigid pendulum over a step, mirrored.
proof fn lemma_stage_mirrored(a: Scalar, b: Scalar, k: Scalar, l: Scalar, h: Scalar)
    requires
        exact::opposite(a, b),
        exact::opposite(k, l),
    ensures
        exact::opposite(halfway1(a, k, h), halfway1(b, l, h)),
        exact::opposite(ahead1(a, k, h), ahead1(b, l, h)),
{
    reveal(halfway1);
    reveal(ahead1);
    let half = arith::num(arith::HALF);
    exact::lemma_times_mirrored(k, l, h, h);
    exact::lemma_times_mirrored(k.times(h), l.times(h), half, half);
    exact::lemma_plus_mirrored(a, b, k.times(h).times(half), l.times(h).times(half));
    exact::lemma_plus_mirrored(a, b, k.times(h), l.times(h));
}

proof fn lemma_swing_mirrored(p: Swing, s: Scalar, t: Scalar, w: Scalar, v: Scalar)
    requires
        exact::opposite(s, t),
        exact::opposite(w, v),
    ensures
        exact::opposite(swing_pull(p, s, w), swing_pull(p, t, v)),
{
    reveal(swing_pull);
    let r = p.ratio.negated();
    exact::lemma_times_mirrored(r, r, s, t);
    exact::lemma_times_mirrored(w, v, p.damping, p.damping);
    exact::lemma_times_mirrored(w.times(p.damping), v.times(p.damping), p.critical, p.critical);
    exact::lemma_minus_mirrored(
        r.times(s),
        r.times(t),
        w.times(p.damping).times(p.critical),
        v.times(p.damping).times(p.critical),
    );
}

proof fn lemma_weighted1_mirrored(
    a: Scalar,
    b: Scalar,
    k1: Scalar,
    k2: Scalar,
    k3: Scalar,
    k4: Scalar,
    l1: Scalar,
    l2: Scalar,
    l3: Scalar,
    l4: Scalar,
    h: Scalar,
)
    requires
        exact::opposite(a, b),
        exact::opposite(k1, l1),
        exact::opposite(k2, l2),
        exact::opposite(k3, l3),
        exact::opposite(k4, l4),
    ensures
        exact::opposite(weighted1(a, k1, k2, k3, k4, h), weighted1(b, l1, l2, l3, l4, h)),
{
    reveal(weighted1);
    let two = arith::num(arith::TWO);
    let six = h.over(arith::num(SIX));
    exact::lemma_times_mirrored(two, two, k2, l2);
    exact::lemma_times_mirrored(two, two, k3, l3);
    exact::lemma_plus_mirrored(k1, l1, two.times(k2), two.times(l2));
    let (x, y) = (k1.plus(two.times(k2)), l1.plus(two.times(l2)));
    exact::lemma_plus_mirrored(x, y, two.times(k3), two.times(l3));
    let (u, v) = (x.plus(two.times(k3)), y.plus(two.times(l3)));
    exact::lemma_plus_mirrored(u, v, k4, l4);
    exact::lemma_times_mirrored(six, six, u.plus(k4), v.plus(l4));
    exact::lemma_plus_mirrored(a, b, six.times(u.plus(k4)), six.times(v.plus(l4)));
}

/// A rigid pendulum swings the same to both sides: with the opposite angle and speed,
/// and so the opposite sines, a step gives the mirror image. So one that hangs and does
/// not move never begins to.
pub proof fn lemma_pendulum_swings_both_ways(
    config: InxSimplePhysics,
    state: InxPhysicsState,
    other: InxPhysicsState,
    anchor: [Scalar; 2],
    anchor2: [Scalar; 2],
    h: Scalar,
    g: Scalar,
    th: Scalar,
    th2: Scalar,
    s: [Scalar; 4],
    s2: [Scalar; 4],
    direction: [Scalar; 2],
    direction2: [Scalar; 2],
)
    requires
        mirrored2(anchor, anchor2),
        mirrored2(direction, direction2),
        exact::opposite(th, th2),
        exact::opposite(state.d_angle, other.d_angle),
        exact::opposite(s[0], s2[0]),
        exact::opposite(s[1], s2[1]),
        exact::opposite(s[2], s2[2]),
        exact::opposite(s[3], s2[3]),
    ensures
        ({
            let a = pendulum_stepped(config, state, anchor, h, g, th, s, direction);
            let b = pendulum_stepped(config, other, anchor2, h, g, th2, s2, direction2);
            &&& exact::opposite(a.angle, b.angle)
            &&& exact::opposite(a.d_angle, b.d_angle)
            &&& mirrored2(a.bob, b.bob)
        }),
{
    let p = swing_of(config, g);
    let (w0, v0) = (state.d_angle, other.d_angle);
    let (k1, l1) = (swing_pull(p, s[0], w0), swing_pull(p, s2[0], v0));
    lemma_swing_mirrored(p, s[0], s2[0], w0, v0);
    lemma_stage_mirrored(w0, v0, k1, l1, h);
    let (w1, v1) = (halfway1(w0, k1, h), halfway1(v0, l1, h));
    let (k2, l2) = (swing_pull(p, s[1], w1), swing_pull(p, s2[1], v1));
    lemma_swing_mirrored(p, s[1], s2[1], w1, v1);
    lemma_stage_mirrored(w0, v0, k2, l2, h);
    let (w2, v2) = (halfway1(w0, k2, h), halfway1(v0, l2, h));
    let (k3, l3) = (swing_pull(p, s[2], w2), swing_pull(p, s2[2], v2));
    lemma_swing_mirrored(p, s[2], s2[2], w2, v2);
    lemma_stage_mirrored(w0, v0, k3, l3, h);
    let (w3, v3) = (ahead1(w0, k3, h), ahead1(v0, l3, h));
    let (k4, l4) = (swing_pull(p, s[3], w3), swing_pull(p, s2[3], v3));
    lemma_swing_mirrored(p, s[3], s2[3], w3, v3);
    lemma_weighted1_mirrored(th, th2, w0, w1, w2, w3, v0, v1, v2, v3, h);
    lemma_weighted1_mirrored(w0, v0, k1, k2, k3, k4, l1, l2, l3, l4, h);
    let (x, y) = (
        weighted1(th, w0, w1, w2, w3, h),
        weighted1(th2, v0, v1, v2, v3, h),
    );
    let (u, v) = (
        weighted1(w0, k1, k2, k3, k4, h),
        weighted1(v0, l1, l2, l3, l4, h),
    );
    scalar::lemma_negated(y);
    scalar::lemma_negated(v);
    exact::lemma_alike_same(x, y.negated());
    exact::lemma_alike_same(u, v.negated());
    lemma_mirrored_times(direction, direction2, bone(config), bone(config));
    lemma_mirrored_sums(
        anchor,
        anchor2,
        vector::times2(direction, bone(config)),
        vector::times2(direction2, bone(config)),
    );
}

/// A step weighs its four stages as one, two, two and one sixths: `j` is a sixth of the
/// step, and all numbers have few digits.
pub proof fn lemma_stages_weigh(
    a: Scalar,
    k1: Scalar,
    k2: Scalar,
    k3: Scalar,
    k4: Scalar,
    h: Scalar,
    x: int,
    n1: int,
    n2: int,
    n3: int,
    n4: int,
    j: int,
)
    requires
        exact::stands_for(a, x, 149),
        exact::stands_for(k1, n1, 149),
        exact::stands_for(k2, n2, 149),
        exact::stands_for(k3, n3, 149),
        exact::stands_for(k4, n4, 149),
        exact::stands_for(h, j * 6, 149),
        -0x100 <= x <= 0x100,
        -0x100 <= n1 <= 0x100,
        -0x100 <= n2 <= 0x100,
        -0x100 <= n3 <= 0x100,
        -0x100 <= n4 <= 0x100,
        0 <= j <= 0x100,
    ensures
        exact::stands_for(
            weighted1(a, k1, k2, k3, k4, h),
            x + j * (n1 + 2 * n2 + 2 * n3 + n4),
            149,
        ),
        exact::stands_for(
            weighted2([a, a], [k1, k1], [k2, k2], [k3, k3], [k4, k4], h)[0],
            x + j * (n1 + 2 * n2 + 2 * n3 + n4),
            149,
        ),
        exact::stands_for(
            weighted2([a, a], [k1, k1], [k2, k2], [k3, k3], [k4, k4], h)[1],
            x + j * (n1 + 2 * n2 + 2 * n3 + n4),
            149,
        ),
{
    reveal(weighted1);
    let two = arith::num(arith::TWO);
    let six = arith::num(SIX);
    exact::lemma_small();
    vstd::arithmetic::power2::lemma2_to64();
    arith::lemma_packs(0xc0_0000, 128, SIX as int);
    vstd::arithmetic::power2::lemma_pow2_adds(21, 128);
    assert(exact::stands_for(six, 6, 149));
    exact::lemma_quotient(h, j, six, 6, 149, 149);
    exact::lemma_product(two, 2, 149, k2, n2, 149);
    exact::lemma_product(two, 2, 149, k3, n3, 149);
    arith::lemma_times_commutes(two, k2);
    arith::lemma_times_commutes(two, k3);
    exact::lemma_sum(k1, n1, two.times(k2), 2 * n2, 149);
    let s1 = k1.plus(two.times(k2));
    exact::lemma_sum(s1, n1 + 2 * n2, two.times(k3), 2 * n3, 149);
    let s2 = s1.plus(two.times(k3));
    exact::lemma_sum(s2, n1 + 2 * n2 + 2 * n3, k4, n4, 149);
    let s3 = s2.plus(k4);
    let n = n1 + 2 * n2 + 2 * n3 + n4;
    assert(-0x6_0000 <= j * n <= 0x6_0000) by (nonlinear_arith)
        requires
            0 <= j <= 0x100,
            -0x600 <= n <= 0x600,
    ;
    let part = h.over(six);
    exact::lemma_product(part, j, 149, s3, n, 149);
    arith::lemma_times_commutes(part, s3);
    exact::lemma_sum(a, x, part.times(s3), j * n, 149);
}

/// The stages of a step look half a step, or a whole step, ahead.
pub proof fn lemma_stages_look_ahead(a: Scalar, k: Scalar, h: Scalar, x: int, n: int, j: int)
    requires
        exact::stands_for(a, x, 149),
        exact::stands_for(k, n, 149),
        exact::stands_for(h, j, 149),
        -0x100 <= x <= 0x100,
        -0x100 <= n <= 0x100,
        0 <= j <= 0x100,
    ensures
        exact::stands_for(halfway1(a, k, h), 2 * x + n * j, 148),
        exact::stands_for(ahead1(a, k, h), x + n * j, 149),
        exact::stands_for(halfway2([a, a], [k, k], h)[0], 2 * x + n * j, 148),
        exact::stands_for(halfway2([a, a], [k, k], h)[1], 2 * x + n * j, 148),
{
    reveal(halfway1);
    reveal(ahead1);
    let half = arith::num(arith::HALF);
    exact::lemma_small();
    vstd::arithmetic::power2::lemma2_to64();
    assert(-0x1_0000 <= n * j <= 0x1_0000) by (nonlinear_arith)
        requires
            -0x100 <= n <= 0x100,
            0 <= j <= 0x100,
    ;
    exact::lemma_product(k, n, 149, h, j, 149);
    exact::lemma_product(k.times(h), n * j, 149, half, 1, 148);
    exact::lemma_finer(a, x, 149, 1);
    exact::lemma_sum(a, 2 * x, k.times(h).times(half), n * j, 148);
    exact::lemma_sum(a, x, k.times(h), n * j, 149);
}

/// A simulation begins at rest: the bob hangs below the anchor by the length of the
/// bone, where Y points down, and does not move. The numbers have few digits.
pub proof fn lemma_begins_at_rest(
    config: InxSimplePhysics,
    anchor: [Scalar; 2],
    x: int,
    y: int,
    l: int,
)
    requires
        exact::stands_for(anchor[0], x, 149),
        exact::stands_for(anchor[1], y, 149),
        exact::stands_for(config.length, l, 149),
        -0x10_0000 <= x <= 0x10_0000,
        -0x10_0000 <= y <= 0x10_0000,
        -0x10_0000 <= l <= 0x10_0000,
    ensures
        ({
            let s = at_rest(config, anchor);
            &&& exact::stands_for(s.bob[0], x, 149)
            &&& exact::stands_for(s.bob[1], y + l, 149)
            &&& s.velocity[0].mag() == 0 && s.velocity[1].mag() == 0
            &&& s.angle.mag() == 0 && s.d_angle.mag() == 0 && s.initialized
        }),
{
    let zero = arith::num(0);
    exact::lemma_zero_value(zero);
    assert(exact::stands_for(zero, 0, 149));
    exact::lemma_sum(anchor[0], x, zero, 0, 149);
    exact::lemma_sum(anchor[1], y, config.length, l, 149);
}

/// Without gravity a spring rests at the length of the bone, which is 1 at least, and
/// it has the anchor and the damping that it is given.
pub proof fn lemma_spring_rests_at_bone(
    config: InxSimplePhysics,
    anchor: [Scalar; 2],
    g: Scalar,
)
    requires
        g.mag() == 0,
        config.length.finite(),
    ensures
        ({
            let s = spring_of(config, anchor, g);
            &&& !s.stiffness.nan() ==> exact::alike(s.rest_length, bone(config))
            &&& bone(config).value() >= scalar::unit()
            &&& config.length.value() >= scalar::unit() ==> exact::alike(
                bone(config),
                config.length,
            )
            &&& config.length.value() < scalar::unit() ==> bone(config) == arith::num(ONE)
            &&& s.anchor == anchor && s.gravity == g
            &&& s.angle_damping == config.angle_damping && s.length_damping
                == config.length_damping
        }),
{
    let s = spring_of(config, anchor, g);
    let k = s.stiffness;
    exact::lemma_one();
    scalar::lemma_value_order(arith::num(0), arith::num(MICRO));
    exact::lemma_zero_value(arith::num(0));
    exact::lemma_zero_value(k);
    if !k.nan() {
        exact::lemma_zero_over(g, k);
        exact::lemma_plus_zero(bone(config), g.over(k));
    }
}

/// Gravity of a simulation is that of its node times that of its puppet, in pixels. The
/// numbers have few digits.
pub proof fn lemma_gravity_is_scaled(
    config: InxSimplePhysics,
    puppet: InxPhysics,
    c: int,
    g: int,
    p: int,
)
    requires
        exact::stands_for(config.gravity, c, 149),
        exact::stands_for(puppet.gravity, g, 149),
        exact::stands_for(puppet.pixels_per_meter, p, 149),
        -0x40 <= c <= 0x40,
        -0x40 <= g <= 0x40,
        -0x1000 <= p <= 0x1000,
    ensures
        exact::stands_for(gravity_in(config, puppet), c * g * p, 149),
{
    assert(-0x1000 <= c * g <= 0x1000) by (nonlinear_arith)
        requires
            -0x40 <= c <= 0x40,
            -0x40 <= g <= 0x40,
    ;
    let n = c * g;
    assert(-0x100_0000 <= n * p <= 0x100_0000) by (nonlinear_arith)
        requires
            -0x1000 <= n <= 0x1000,
            -0x1000 <= p <= 0x1000,
    ;
    exact::lemma_product(config.gravity, c, 149, puppet.gravity, g, 149);
    exact::lemma_product(
        config.gravity.times(puppet.gravity),
        n,
        149,
        puppet.pixels_per_meter,
        p,
        149,
    );
}

/// A time is simulated in ticks and a rest that is no longer than a tick. A time of at
/// most a tick is simulated at once.
pub proof fn lemma_time_is_ticked(h: Scalar, i: int)
    requires
        simulable(h),
        0 <= i < substeps(h).len(),
    ensures
        i < substeps(h).len() - 1 ==> substeps(h)[i] == arith::num(TICK),
        0 <= substeps(h)[i].value() <= arith::num(TICK).value(),
        h.value() <= arith::num(TICK).value() ==> substeps(h) == seq![h],
        h.value() > arith::num(TICK).value() ==> substeps(h).len() > 1,
    decreases h.value(),
{
    let tick = arith::num(TICK);
    scalar::lemma_value_order(tick, h);
    lemma_has_steps(h);
    exact::lemma_zero_value(arith::num(0));
    arith::lemma_magnitudes(0, tick.mag());
    if tick.less(h) {
        lemma_tick(h);
        let rest = h.minus(tick);
        lemma_has_steps(rest);
        if i > 0 {
            lemma_time_is_ticked(rest, i - 1);
            assert(substeps(h)[i] == substeps(rest)[i - 1]);
        }
    } else {
        arith::lemma_magnitudes(0, h.mag());
    }
}

proof fn lemma_has_steps(h: Scalar)
    requires
        simulable(h),
    ensures
        substeps(h).len() > 0,
{
}

proof fn lemma_rest_pulls_nothing(p: Swing, sine: Scalar, w: Scalar)
    requires
        p.ratio.finite(),
        p.damping.finite(),
        p.critical.finite(),
        sine.mag() == 0,
        w.mag() == 0,
    ensures
        swing_pull(p, sine, w).mag() == 0,
{
    reveal(swing_pull);
    let a = p.ratio.negated().times(sine);
    exact::lemma_times_zero(p.ratio.negated(), sine);
    exact::lemma_times_zero(p.damping, w);
    exact::lemma_times_zero(p.critical, w.times(p.damping));
    exact::lemma_plus_zero(a, w.times(p.damping).times(p.critical));
    exact::lemma_alike_same(a.minus(w.times(p.damping).times(p.critical)), a);
}

proof fn lemma_rest_goes_nowhere(a: Scalar, k: Scalar, h: Scalar)
    requires
        a.mag() == 0,
        k.mag() == 0,
        h.finite(),
    ensures
        halfway1(a, k, h).mag() == 0,
        ahead1(a, k, h).mag() == 0,
{
    reveal(halfway1);
    reveal(ahead1);
    let half = arith::num(arith::HALF);
    exact::lemma_times_zero(h, k);
    exact::lemma_times_zero(half, k.times(h));
    exact::lemma_plus_zero(a, k.times(h));
    exact::lemma_plus_zero(a, k.times(h).times(half));
    exact::lemma_alike_same(a.plus(k.times(h)), a);
    exact::lemma_alike_same(a.plus(k.times(h).times(half)), a);
}

proof fn lemma_rest_weighs_nothing(
    a: Scalar,
    k1: Scalar,
    k2: Scalar,
    k3: Scalar,
    k4: Scalar,
    h: Scalar,
)
    requires
        a.mag() == 0,
        k1.mag() == 0,
        k2.mag() == 0,
        k3.mag() == 0,
        k4.mag() == 0,
        h.over(arith::num(SIX)).finite(),
    ensures
        weighted1(a, k1, k2, k3, k4, h).mag() == 0,
{
    reveal(weighted1);
    let two = arith::num(arith::TWO);
    let (b, c) = (two.times(k2), two.times(k3));
    exact::lemma_times_zero(two, k2);
    exact::lemma_times_zero(two, k3);
    exact::lemma_plus_zero(k1, b);
    exact::lemma_alike_same(k1.plus(b), k1);
    exact::lemma_plus_zero(k1.plus(b), c);
    exact::lemma_alike_same(k1.plus(b).plus(c), k1.plus(b));
    let sum = k1.plus(b).plus(c).plus(k4);
    exact::lemma_plus_zero(k1.plus(b).plus(c), k4);
    exact::lemma_alike_same(sum, k1.plus(b).plus(c));
    let sixth = h.over(arith::num(SIX));
    exact::lemma_times_zero(sixth, sum);
    exact::lemma_plus_zero(a, sixth.times(sum));
    exact::lemma_alike_same(a.plus(sixth.times(sum)), a);
}

/// The functions know the angle of what hangs straight down, which is zero, and its
/// sine and cosine.
pub open spec fn knows_down<
    S: Fn(Scalar) -> Scalar,
    C: Fn(Scalar) -> Scalar,
    A: Fn(Scalar, Scalar) -> Scalar,
>(sin: &S, cos: &C, atan2: &A) -> bool {
    &&& forall|x: Scalar, r: Scalar| #[trigger]
        sin.ensures((x,), r) && x.mag() == 0 ==> r.mag() == 0
    &&& forall|x: Scalar, r: Scalar| #[trigger]
        cos.ensures((x,), r) && x.mag() == 0 ==> r == arith::num(ONE)
    &&& forall|y: Scalar, x: Scalar, r: Scalar| #[trigger]
        atan2.ensures((y, x), r) && y.mag() == 0 && x.value() > 0 ==> r.mag() == 0
}

/// A pendulum that hangs still goes on hanging still, straight below its anchor at the
/// length of its bone.
pub proof fn lemma_hanging_pendulum_rests<
    S: Fn(Scalar) -> Scalar,
    C: Fn(Scalar) -> Scalar,
    A: Fn(Scalar, Scalar) -> Scalar,
>(
    sin: &S,
    cos: &C,
    atan2: &A,
    config: InxSimplePhysics,
    state: InxPhysicsState,
    anchor: [Scalar; 2],
    h: Scalar,
    g: Scalar,
    next: InxPhysicsState,
)
    requires
        knows_down(sin, cos, atan2),
        steps(sin, cos, atan2, config, state, anchor, h, g, next),
        config.model == PhysicsModel::Pendulum,
        h.finite(),
        h.value() > 0,
        h.over(arith::num(SIX)).finite(),
        swing_of(config, g).ratio.finite(),
        swing_of(config, g).damping.finite(),
        swing_of(config, g).critical.finite(),
        bone(config).finite(),
        anchor[0].finite(),
        anchor[1].finite(),
        state.angle.mag() == 0,
        state.d_angle.mag() == 0,
        state.bob[0].minus(anchor[0]).mag() == 0,
        state.bob[1].minus(anchor[1]).value() > 0,
    ensures
        next.angle.mag() == 0,
        next.d_angle.mag() == 0,
        exact::alike(next.bob[0], anchor[0]),
        next.bob[1] == anchor[1].plus(bone(config)),
{
    let zero = arith::num(0);
    exact::lemma_zero_value(zero);
    exact::lemma_zero_value(h);
    scalar::lemma_value_order(h, zero);
    let (th0, s, direction) = choose|th0: Scalar, s: [Scalar; 4], direction: [Scalar; 2]|
        #[trigger] measured(
            sin,
            cos,
            atan2,
            config,
            state,
            anchor,
            h,
            g,
            th0,
            s,
            direction,
        ) && next == pendulum_stepped(config, state, anchor, h, g, th0, s, direction);
    let p = swing_of(config, g);
    let w0 = state.d_angle;
    assert(th0.mag() == 0);
    let w = stage_speeds(p, w0, h, s);
    assert(s[0].mag() == 0);
    lemma_rest_goes_nowhere(th0, w0, h);
    assert(s[1].mag() == 0);
    lemma_rest_pulls_nothing(p, s[0], w0);
    lemma_rest_goes_nowhere(w0, swing_pull(p, s[0], w0), h);
    lemma_rest_goes_nowhere(th0, w[1], h);
    assert(s[2].mag() == 0);
    lemma_rest_pulls_nothing(p, s[1], w[1]);
    lemma_rest_goes_nowhere(w0, swing_pull(p, s[1], w[1]), h);
    lemma_rest_goes_nowhere(th0, w[2], h);
    assert(s[3].mag() == 0);
    lemma_rest_pulls_nothing(p, s[2], w[2]);
    lemma_rest_goes_nowhere(w0, swing_pull(p, s[2], w[2]), h);
    lemma_rest_pulls_nothing(p, s[3], w[3]);
    lemma_rest_weighs_nothing(th0, w[0], w[1], w[2], w[3], h);
    lemma_rest_weighs_nothing(
        w0,
        swing_pull(p, s[0], w[0]),
        swing_pull(p, s[1], w[1]),
        swing_pull(p, s[2], w[2]),
        swing_pull(p, s[3], w[3]),
        h,
    );
    assert(next.angle.mag() == 0);
    assert(direction[0].mag() == 0 && direction[1] == arith::num(ONE));
    let l = bone(config);
    exact::lemma_times_zero(l, direction[0]);
    exact::lemma_one_times(l);
    exact::lemma_plus_zero(anchor[0], direction[0].times(l));
}

/// Critical damping is twice the root of a ratio: of `n * n` it is `2 * n`. A negative
/// ratio has none.
pub proof fn lemma_critical_exact(ratio: Scalar, b: Scalar, n: int)
    requires
        exact::stands_for(b, n, 149),
        0 < n <= 0x400,
    ensures
        exact::stands_for(ratio, n * n, 149) ==> exact::stands_for(critical(ratio), 2 * n, 149),
        ratio.value() < 0 ==> critical(ratio).mag() == 0,
{
    reveal(critical);
    let zero = arith::num(0);
    let two = arith::num(arith::TWO);
    exact::lemma_zero_value(zero);
    exact::lemma_small();
    assert(n * n > 0) by (nonlinear_arith)
        requires
            n > 0,
    ;
    if exact::stands_for(ratio, n * n, 149) {
        exact::lemma_sign(ratio, n * n, 149);
        arith::lemma_magnitudes(0, ratio.mag());
        exact::lemma_root(ratio, b, n);
        exact::lemma_product(two, 2, 149, b, n, 149);
    }
    exact::lemma_times_zero(two, zero);
}

/// Gravity stretches a spring: what pulls down makes it rest shorter than the bone, so
/// that the bob hangs no lower, and what pulls up makes it rest longer.
pub proof fn lemma_gravity_stretches(config: InxSimplePhysics, anchor: [Scalar; 2], g: Scalar)
    requires
        g.finite(),
        config.length.finite(),
        spring_of(config, anchor, g).stiffness.finite(),
    ensures
        spring_of(config, anchor, g).stiffness.value() > 0,
        !g.negative() ==> spring_of(config, anchor, g).rest_length.value() <= bone(config).value(),
        g.negative() ==> spring_of(config, anchor, g).rest_length.value() >= bone(config).value(),
{
    let s = spring_of(config, anchor, g);
    let l = bone(config);
    let k = s.stiffness;
    let zero = arith::num(0);
    exact::lemma_zero_value(zero);
    arith::lemma_magnitudes(0, arith::num(MICRO).mag());
    scalar::lemma_value_order(zero, arith::num(MICRO));
    assert(k.value() > 0);
    exact::lemma_one();
    let q = g.over(k);
    exact::lemma_zero_value(g);
    exact::lemma_zero_over(zero, k);
    exact::lemma_zero_value(zero.over(k));
    scalar::lemma_negated(g);
    scalar::lemma_negated(q);
    arith::lemma_magnitudes(0, g.mag());
    exact::lemma_plus_zero(l, zero);
    exact::lemma_alike_same(zero.plus(l), l);
    if !g.negative() {
        exact::lemma_over_ordered(zero, g, k);
        exact::lemma_over_ordered(g, g, k);
        rounding::lemma_plus_ordered(q.negated(), zero, l);
    } else {
        let m = g.negated();
        exact::lemma_over_ordered(zero, m, k);
        exact::lemma_over_ordered(m, m, k);
        exact::lemma_over_turned(m, k);
        exact::lemma_over_turned(g, k);
        scalar::lemma_negated(m.over(k));
        rounding::lemma_plus_ordered(zero, q.negated(), l);
    }
    arith::lemma_plus_commutes(q.negated(), l);
}

proof fn lemma_constant_pull(p: Swing, w: Scalar, a: int)
    requires
        exact::stands_for(p.ratio, a, 149),
        p.damping.mag() == 0,
        p.critical.finite(),
        w.finite(),
    ensures
        exact::stands_for(swing_pull(p, arith::num(ONE), w), -a, 149),
{
    reveal(swing_pull);
    let n = p.ratio.negated();
    exact::lemma_opposite(p.ratio, a, 149);
    exact::lemma_one_times(n);
    exact::lemma_times_zero(w, p.damping);
    exact::lemma_times_zero(p.critical, w.times(p.damping));
    let drag = w.times(p.damping).times(p.critical);
    exact::lemma_plus_zero(n, drag);
    exact::lemma_alike_same(n.minus(drag), n);
}

/// Where the pull does not change and nothing is braked, a pendulum moves as what is
/// thrown does: over a time `t` it loses `a * t` of its speed, and half of `a * t * t`
/// of its way. All sines are one, `t` is `6 * j`, and the numbers have few digits.
pub proof fn lemma_step_is_exact_under_constant_pull(
    p: Swing,
    th0: Scalar,
    w0: Scalar,
    h: Scalar,
    a: int,
    x: int,
    n: int,
    j: int,
)
    requires
        exact::stands_for(p.ratio, a, 149),
        p.damping.mag() == 0,
        p.critical.finite(),
        exact::stands_for(th0, x, 149),
        exact::stands_for(w0, n, 149),
        exact::stands_for(h, j * 6, 149),
        -4 <= a <= 4,
        -16 <= x <= 16,
        -16 <= n <= 16,
        0 <= j <= 8,
    ensures
        ({
            let one = arith::num(ONE);
            let (th, w) = swung(p, th0, w0, h, [one, one, one, one]);
            let t = 6 * j;
            &&& exact::stands_for(w, n - a * t, 149)
            &&& exact::stands_for(th, x + n * t - 3 * j * (a * t), 149)
        }),
{
    let one = arith::num(ONE);
    let s = [one, one, one, one];
    let t = 6 * j;
    let k = swing_pull(p, one, w0);
    lemma_constant_pull(p, w0, a);
    let b = a * j;
    assert(-32 <= b <= 32) by (nonlinear_arith)
        requires
            b == a * j,
            -4 <= a <= 4,
            0 <= j <= 8,
    ;
    assert((-a) * (j * 6) == -6 * b && a * t == 6 * b) by (nonlinear_arith)
        requires
            b == a * j,
            t == 6 * j,
    ;
    let w = stage_speeds(p, w0, h, s);
    lemma_stages_look_ahead(w0, k, h, n, -a, j * 6);
    assert(2 * n + (-a) * (j * 6) == 2 * (n - 3 * b));
    exact::lemma_coarser(w[1], n - 3 * b, 148);
    lemma_constant_pull(p, w[1], a);
    let k2 = swing_pull(p, one, w[1]);
    lemma_stages_look_ahead(w0, k2, h, n, -a, j * 6);
    exact::lemma_coarser(w[2], n - 3 * b, 148);
    lemma_constant_pull(p, w[2], a);
    let k3 = swing_pull(p, one, w[2]);
    lemma_stages_look_ahead(w0, k3, h, n, -a, j * 6);
    assert(exact::stands_for(w[3], n - 6 * b, 149));
    lemma_constant_pull(p, w[3], a);
    let k4 = swing_pull(p, one, w[3]);
    lemma_stages_weigh(
        th0,
        w[0],
        w[1],
        w[2],
        w[3],
        h,
        x,
        n,
        n - 3 * b,
        n - 3 * b,
        n - 6 * b,
        j,
    );
    lemma_stages_weigh(w0, k, k2, k3, k4, h, n, -a, -a, -a, -a, j);
    let m = n + 2 * (n - 3 * b) + 2 * (n - 3 * b) + (n - 6 * b);
    assert(m == 6 * n - 18 * b);
    assert(j * m == n * t - 3 * j * (6 * b)) by (nonlinear_arith)
        requires
            m == 6 * n - 18 * b,
            t == 6 * j,
    ;
    let c = -a + 2 * (-a) + 2 * (-a) + (-a);
    assert(j * c == -6 * b) by (nonlinear_arith)
        requires
            c == -6 * a,
            b == a * j,
    ;
}

} // verus!
