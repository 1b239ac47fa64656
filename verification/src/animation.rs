//! Advancing animations and blending their layers into param values.

use crate::arith;
use crate::controller::{AnimationLayer, FadeState, InxAnimationController};
use crate::exact;
use crate::grid_interpolation;
use crate::grid_interpolation::{cubic_hermite, ease_in_out, lerp, merge_field};
use crate::model::{InxAnimation, InxAnimationLane, InxInterpolation, InxKeyframe, InxMergeMode};
use crate::param_values::InxParamState;
use crate::rounding;
use crate::scalar;
use crate::scalar::{Scalar, MILLI, ONE};
use vstd::prelude::*;

verus! {

/// The frame of a keyframe, as a number.
pub open spec fn frame_no(k: InxKeyframe) -> Scalar {
    arith::of_int(k.frame as int)
}

/// The last keyframe from `i` on that is reached before one lies ahead.
pub open spec fn reached(kfs: Seq<InxKeyframe>, frame: Scalar, i: int) -> int
    decreases kfs.len() - i,
{
    if i + 1 < kfs.len() && !frame.less(frame_no(kfs[i + 1])) {
        reached(kfs, frame, i + 1)
    } else {
        i
    }
}

/// The value of a lane at a frame: that of the first keyframe before it and of
/// the last after it, else interpolated between two.
pub open spec fn lane_value(lane: InxAnimationLane, frame: Scalar) -> Scalar {
    let kfs = lane.keyframes@;
    if kfs.len() == 0 {
        arith::num(0)
    } else if kfs.len() == 1 || frame.less(frame_no(kfs[0])) || frame.same(frame_no(kfs[0])) {
        kfs[0].value
    } else if !frame.less(frame_no(kfs.last())) {
        kfs.last().value
    } else {
        let i = reached(kfs, frame, 0);
        let a = kfs[i];
        let b = kfs[i + 1];
        let span = frame_no(b).minus(frame_no(a));
        let t = frame.minus(frame_no(a)).over(span);
        if span.less(arith::num(0)) || span.same(arith::num(0)) {
            a.value
        } else {
            match lane.interpolation {
                InxInterpolation::Stepped => a.value,
                InxInterpolation::Linear => grid_interpolation::lerp_of(a.value, b.value, t),
                InxInterpolation::Cubic => grid_interpolation::hermite_of(
                    a.value,
                    b.value,
                    t,
                    a.tension.plus(b.tension).times(arith::num(arith::HALF)),
                ),
            }
        }
    }
}

/// Evaluates a lane at a frame.
pub fn evaluate_lane(lane: &InxAnimationLane, frame: Scalar) -> (r: Scalar)
    requires
        lane.keyframes@.len() >= 2 ==> !frame.nan(),
    ensures
        r == lane_value(*lane, frame),
{
    let n: usize = lane.keyframes.len();
    if n == 0 {
        return Scalar { bits: 0 };
    }
    let first = lane.keyframes[0];
    if n == 1 || frame.le(Scalar::from_u32(first.frame)) {
        return first.value;
    }
    let last = lane.keyframes[n - 1];
    proof {
        lemma_integers_are_numbers();
    }
    if Scalar::from_u32(last.frame).le(frame) {
        return last.value;
    }
    let ghost kfs = lane.keyframes@;
    let mut i: usize = 0;
    while i + 1 < n && Scalar::from_u32(lane.keyframes[i + 1].frame).le(frame)
        invariant
            kfs == lane.keyframes@,
            n == kfs.len(),
            n >= 2,
            !frame.nan(),
            i + 1 < n,
            frame.less(frame_no(kfs.last())),
            forall|k: u32| !(#[trigger] arith::of_int(k as int)).nan(),
            reached(kfs, frame, 0) == reached(kfs, frame, i as int),
        decreases n - i,
    {
        i = i + 1;
    }
    let prev = lane.keyframes[i];
    let next = lane.keyframes[i + 1];
    let from = Scalar::from_u32(prev.frame);
    let span = Scalar::from_u32(next.frame).sub(from);
    if span.le(Scalar { bits: 0 }) {
        return prev.value;
    }
    let t = frame.sub(from).div(span);
    match lane.interpolation {
        InxInterpolation::Stepped => prev.value,
        InxInterpolation::Linear => lerp(prev.value, next.value, t),
        InxInterpolation::Cubic => {
            let tension = prev.tension.add(next.tension).mul(Scalar { bits: arith::HALF });
            cubic_hermite(prev.value, next.value, t, tension)
        },
    }
}

proof fn lemma_integers_are_numbers()
    ensures
        forall|k: u32| !(#[trigger] arith::of_int(k as int)).nan(),
{
    assert forall|k: u32| !(#[trigger] arith::of_int(k as int)).nan() by {
        rounding::lemma_of_int_is_number(k as int);
    }
}

/// The animation of a layer.
pub open spec fn animation_of(animations: Seq<InxAnimation>, l: AnimationLayer) -> Option<
    InxAnimation,
> {
    if l.animation < animations.len() {
        Some(animations[l.animation as int])
    } else {
        None
    }
}

/// Time of a layer after `dt` seconds, and whether it still plays. At the end
/// of its animation a looping layer starts over and another one stops.
pub open spec fn time_after(l: AnimationLayer, dt: Scalar, duration: Option<Scalar>) -> (
    Scalar,
    bool,
) {
    let t = l.time.plus(dt.times(l.speed));
    match duration {
        Some(d) => if d.less(t) || d.same(t) {
            if l.looping {
                (t.modulo(d), true)
            } else {
                (d, false)
            }
        } else {
            (t, true)
        },
        None => (t, true),
    }
}

/// How much of a fade is over.
pub open spec fn fade_progress(elapsed: Scalar, dt: Scalar, duration: Scalar) -> Scalar {
    elapsed.plus(dt).over(duration).smaller(Scalar { bits: ONE })
}

/// A layer after `dt` seconds.
pub open spec fn ticked(l: AnimationLayer, dt: Scalar, duration: Option<Scalar>) -> AnimationLayer {
    let one = Scalar { bits: ONE };
    let (time, playing) = time_after(l, dt, duration);
    if !l.playing {
        l
    } else {
        match l.fade {
            FadeState::Steady => AnimationLayer { time, playing, ..l },
            FadeState::FadingIn { duration: d, elapsed } => {
                let t = fade_progress(elapsed, dt, d);
                if one.less(t) || one.same(t) {
                    AnimationLayer { time, playing, weight: one, fade: FadeState::Steady, ..l }
                } else {
                    AnimationLayer {
                        time,
                        playing,
                        weight: grid_interpolation::eased(t),
                        fade: FadeState::FadingIn { duration: d, elapsed: elapsed.plus(dt) },
                        ..l
                    }
                }
            },
            FadeState::FadingOut { duration: d, elapsed, start_weight } => {
                let t = fade_progress(elapsed, dt, d);
                if one.less(t) || one.same(t) {
                    AnimationLayer {
                        time,
                        playing: false,
                        weight: arith::num(0),
                        fade: FadeState::Steady,
                        ..l
                    }
                } else {
                    AnimationLayer {
                        time,
                        playing,
                        weight: start_weight.times(one.minus(grid_interpolation::eased(t))),
                        fade: FadeState::FadingOut {
                            duration: d,
                            elapsed: elapsed.plus(dt),
                            start_weight,
                        },
                        ..l
                    }
                }
            },
        }
    }
}

fn tick_layer(l: &AnimationLayer, dt: Scalar, duration: Option<Scalar>) -> (r: AnimationLayer)
    ensures
        r == ticked(*l, dt, duration),
{
    if !l.playing {
        return *l;
    }
    let one = Scalar { bits: ONE };
    let mut r = *l;
    r.time = l.time.add(dt.mul(l.speed));
    if let Some(d) = duration {
        if d.le(r.time) {
            if l.looping {
                r.time = r.time.rem(d);
            } else {
                r.time = d;
                r.playing = false;
            }
        }
    }
    match l.fade {
        FadeState::Steady => {},
        FadeState::FadingIn { duration: d, elapsed } => {
            let e = elapsed.add(dt);
            let t = e.div(d).min(one);
            if one.le(t) {
                r.weight = one;
                r.fade = FadeState::Steady;
            } else {
                r.weight = ease_in_out(t);
                r.fade = FadeState::FadingIn { duration: d, elapsed: e };
            }
        },
        FadeState::FadingOut { duration: d, elapsed, start_weight } => {
            let e = elapsed.add(dt);
            let t = e.div(d).min(one);
            if one.le(t) {
                r.weight = Scalar { bits: 0 };
                r.playing = false;
                r.fade = FadeState::Steady;
            } else {
                r.weight = start_weight.mul(one.sub(ease_in_out(t)));
                r.fade = FadeState::FadingOut { duration: d, elapsed: e, start_weight };
            }
        },
    }
    r
}

/// All layers after `dt` seconds.
pub open spec fn all_ticked(
    layers: Seq<AnimationLayer>,
    animations: Seq<InxAnimation>,
    dt: Scalar,
) -> Seq<AnimationLayer> {
    layers.map_values(
        |l: AnimationLayer|
            ticked(
                l,
                dt,
                match animation_of(animations, l) {
                    Some(a) => Some(a.duration),
                    None => None,
                },
            ),
    )
}

/// A layer that plays, or that can still be heard.
pub open spec fn alive(l: AnimationLayer) -> bool {
    l.playing || (Scalar { bits: MILLI }).less(l.weight)
}

/// The layers without the dead ones. Layer 0, the idle one, always stays.
pub open spec fn survivors(layers: Seq<AnimationLayer>) -> Seq<AnimationLayer> {
    if layers.len() > 0 {
        seq![layers[0]] + layers.skip(1).filter(|l: AnimationLayer| alive(l))
    } else {
        layers
    }
}

/// The layers of a controller after `dt` seconds; a paused one stands still.
pub open spec fn layers_after(
    layers: Seq<AnimationLayer>,
    paused: bool,
    animations: Seq<InxAnimation>,
    dt: Scalar,
) -> Seq<AnimationLayer> {
    if paused {
        layers
    } else {
        survivors(all_ticked(layers, animations, dt))
    }
}

/// Dropping dead layers leaves the idle layer in its place. Every other layer
/// that is left is one of the other layers, and alive.
pub proof fn lemma_survivors(layers: Seq<AnimationLayer>, i: int)
    requires
        0 <= i < survivors(layers).len(),
    ensures
        i == 0 ==> survivors(layers)[i] == layers[0],
        i > 0 ==> alive(survivors(layers)[i]) && layers.skip(1).contains(survivors(layers)[i]),
{
    if i > 0 {
        let keep = |l: AnimationLayer| alive(l);
        let rest = layers.skip(1);
        let kept = rest.filter(keep);
        assert(survivors(layers)[i] == kept[i - 1]);
        assert(kept.contains(kept[i - 1]));
        rest.lemma_filter_contains_rev(keep, kept[i - 1]);
        assert(keep(kept[i - 1])) by {
            rest.filter_lemma(keep);
        }
    }
}

fn retain_alive(layers: &Vec<AnimationLayer>) -> (r: Vec<AnimationLayer>)
    requires
        layers@.len() > 0,
    ensures
        r@ == survivors(layers@),
{
    let ghost keep = |l: AnimationLayer| alive(l);
    let ghost rest = layers@.skip(1);
    let mut r: Vec<AnimationLayer> = Vec::new();
    r.push(layers[0]);
    let mut i: usize = 1;
    proof {
        reveal(Seq::filter);
        assert(rest.take(0).filter(keep) =~= Seq::empty());
        assert(r@ =~= seq![layers@[0]] + rest.take(0).filter(keep));
    }
    while i < layers.len()
        invariant
            keep == (|l: AnimationLayer| alive(l)),
            rest == layers@.skip(1),
            1 <= i <= layers@.len(),
            r@ == seq![layers@[0]] + rest.take(i - 1).filter(keep),
        decreases layers@.len() - i,
    {
        let l = layers[i];
        proof {
            reveal(Seq::filter);
            let now = rest.take(i as int);
            assert(now.drop_last() =~= rest.take(i - 1));
            assert(now.last() == l);
        }
        if l.playing || (Scalar { bits: MILLI }).lt(l.weight) {
            r.push(l);
            assert(r@ =~= seq![layers@[0]] + rest.take(i - 1).filter(keep).push(l));
        }
        i = i + 1;
    }
    assert(rest.take(i - 1) =~= rest);
    r
}

/// Advances time and fades of all layers and drops the dead ones.
pub fn tick_layers(controller: &mut InxAnimationController, animations: &Vec<InxAnimation>, dt: Scalar)
    ensures
        final(controller).layers@ == layers_after(
            old(controller).layers@,
            old(controller).paused,
            animations@,
            dt,
        ),
        final(controller).param_defaults == old(controller).param_defaults,
        final(controller).paused == old(controller).paused,
{
    if controller.paused {
        return;
    }
    let ghost before = controller.layers@;
    let ghost want = all_ticked(before, animations@, dt);
    let mut i: usize = 0;
    while i < controller.layers.len()
        invariant
            want == all_ticked(before, animations@, dt),
            controller.layers@.len() == before.len(),
            forall|j: int| 0 <= j < i && j < before.len() ==> controller.layers@[j] == want[j],
            forall|j: int| i <= j < before.len() ==> controller.layers@[j] == before[j],
            controller.param_defaults == old(controller).param_defaults,
            controller.paused == old(controller).paused,
        decreases controller.layers@.len() - i,
    {
        let l = controller.layers[i];
        let duration = if l.animation < animations.len() as u64 {
            Some(animations[l.animation as usize].duration)
        } else {
            None
        };
        controller.layers.set(i, tick_layer(&l, dt, duration));
        i = i + 1;
    }
    assert(controller.layers@ =~= want);
    if controller.layers.len() > 0 {
        controller.layers = retain_alive(&controller.layers);
    }
}

/// The layer takes part in the blend.
pub open spec fn heard(l: AnimationLayer, animations: Seq<InxAnimation>) -> bool {
    !l.weight.less(Scalar { bits: MILLI }) && l.playing && animation_of(animations, l) is Some
}

/// The frame that a layer is at.
pub open spec fn frame_at(l: AnimationLayer, a: InxAnimation) -> Scalar {
    if arith::num(0).less(a.timestep) {
        l.time.over(a.timestep)
    } else {
        arith::num(0)
    }
}

/// A param value with one component merged with a lane's value.
pub open spec fn with_lane(cur: [Scalar; 2], lane: InxAnimationLane, value: Scalar) -> [Scalar; 2] {
    if lane.target == 0 {
        [grid_interpolation::merged(cur[0], value, lane.merge_mode), cur[1]]
    } else {
        [cur[0], grid_interpolation::merged(cur[1], value, lane.merge_mode)]
    }
}

/// What the first `k` lanes of an animation make of a param, if they touch it.
pub open spec fn lanes_value(
    lanes: Seq<InxAnimationLane>,
    k: nat,
    frame: Scalar,
    uuid: u32,
) -> Option<[Scalar; 2]>
    decreases k,
{
    if k == 0 {
        None
    } else {
        let before = lanes_value(lanes, (k - 1) as nat, frame, uuid);
        let lane = lanes[k - 1];
        if lane.param_uuid == uuid {
            Some(
                with_lane(
                    match before {
                        Some(v) => v,
                        None => [arith::num(0), arith::num(0)],
                    },
                    lane,
                    lane_value(lane, frame),
                ),
            )
        } else {
            before
        }
    }
}

/// What the first `k` layers make of a param, if they touch it: each blends
/// its value over what is there, by its weight, starting from the default.
pub open spec fn blended(
    layers: Seq<AnimationLayer>,
    k: nat,
    animations: Seq<InxAnimation>,
    default: [Scalar; 2],
    uuid: u32,
) -> Option<[Scalar; 2]>
    decreases k,
{
    if k == 0 {
        None
    } else {
        let before = blended(layers, (k - 1) as nat, animations, default, uuid);
        let l = layers[k - 1];
        if heard(l, animations) {
            let a = animation_of(animations, l)->0;
            match lanes_value(a.lanes@, a.lanes@.len(), frame_at(l, a), uuid) {
                Some(v) => {
                    let cur = match before {
                        Some(c) => c,
                        None => default,
                    };
                    Some(
                        [
                            grid_interpolation::lerp_of(cur[0], v[0], l.weight),
                            grid_interpolation::lerp_of(cur[1], v[1], l.weight),
                        ],
                    )
                },
                None => before,
            }
        } else {
            before
        }
    }
}

/// The value of a param: what the layers make of it, or else its default.
pub open spec fn param_value(
    layers: Seq<AnimationLayer>,
    animations: Seq<InxAnimation>,
    default: [Scalar; 2],
    uuid: u32,
) -> [Scalar; 2] {
    match blended(layers, layers.len(), animations, default, uuid) {
        Some(v) => v,
        None => default,
    }
}

/// Every lane that is heard has a component to write, and its frame is a
/// number where it has to be.
pub open spec fn playable(layers: Seq<AnimationLayer>, animations: Seq<InxAnimation>) -> bool {
    forall|i: int, j: int|
        #![trigger animation_of(animations, layers[i])->0.lanes@[j]]
        0 <= i < layers.len() && heard(layers[i], animations) && 0 <= j < (animation_of(
            animations,
            layers[i],
        )->0).lanes@.len() ==> lane_playable(
            (animation_of(animations, layers[i])->0).lanes@[j],
            frame_at(layers[i], animation_of(animations, layers[i])->0),
        )
}

pub open spec fn lane_playable(lane: InxAnimationLane, frame: Scalar) -> bool {
    lane.target < 2 && (lane.keyframes@.len() >= 2 ==> !frame.nan())
}

fn is_heard(l: &AnimationLayer, animations: &Vec<InxAnimation>) -> (r: bool)
    ensures
        r == heard(*l, animations@),
{
    !l.weight.lt(Scalar { bits: MILLI }) && l.playing && l.animation < animations.len() as u64
}

fn current_frame(l: &AnimationLayer, a: &InxAnimation) -> (r: Scalar)
    ensures
        r == frame_at(*l, *a),
{
    let zero = Scalar { bits: 0 };
    if zero.lt(a.timestep) {
        l.time.div(a.timestep)
    } else {
        zero
    }
}

/// Whether the layers can be blended.
pub fn is_playable(layers: &Vec<AnimationLayer>, animations: &Vec<InxAnimation>) -> (r: bool)
    ensures
        r == playable(layers@, animations@),
{
    let mut i: usize = 0;
    while i < layers.len()
        invariant
            i <= layers@.len(),
            playable(layers@.take(i as int), animations@),
        decreases layers@.len() - i,
    {
        let l = layers[i];
        if is_heard(&l, animations) {
            let count: usize = animations.len();
            assert(l.animation < count);
            let a = &animations[l.animation as usize];
            let frame = current_frame(&l, a);
            let mut j: usize = 0;
            while j < a.lanes.len()
                invariant
                    i < layers@.len(),
                    l == layers@[i as int],
                    heard(l, animations@),
                    animation_of(animations@, l) == Some(*a),
                    frame == frame_at(l, *a),
                    j <= a.lanes@.len(),
                    forall|k: int| 0 <= k < j ==> lane_playable(#[trigger] a.lanes@[k], frame),
                decreases a.lanes@.len() - j,
            {
                let lane = &a.lanes[j];
                if lane.target >= 2 || (lane.keyframes.len() >= 2 && frame.is_nan()) {
                    proof {
                        assert(!lane_playable(
                            (animation_of(animations@, layers@[i as int])->0).lanes@[j as int],
                            frame,
                        ));
                    }
                    return false;
                }
                j = j + 1;
            }
        }
        proof {
            let now = layers@.take(i + 1);
            assert forall|x: int, j: int|
                #![trigger animation_of(animations@, now[x])->0.lanes@[j]]
                0 <= x < now.len() && heard(now[x], animations@) && 0 <= j < (animation_of(
                    animations@,
                    now[x],
                )->0).lanes@.len() implies lane_playable(
                (animation_of(animations@, now[x])->0).lanes@[j],
                frame_at(now[x], animation_of(animations@, now[x])->0),
            ) by {
                if x < i {
                    assert(layers@.take(i as int)[x] == now[x]);
                    assert(lane_playable(
                        (animation_of(animations@, layers@.take(i as int)[x])->0).lanes@[j],
                        frame_at(now[x], animation_of(animations@, now[x])->0),
                    ));
                }
            }
        }
        i = i + 1;
    }
    assert(layers@.take(i as int) =~= layers@);
    true
}

fn evaluate_lanes(lanes: &Vec<InxAnimationLane>, frame: Scalar, uuid: u32) -> (r: Option<
    [Scalar; 2],
>)
    requires
        forall|j: int| 0 <= j < lanes@.len() ==> lane_playable(#[trigger] lanes@[j], frame),
    ensures
        r == lanes_value(lanes@, lanes@.len(), frame, uuid),
{
    let mut r: Option<[Scalar; 2]> = None;
    let mut k: usize = 0;
    while k < lanes.len()
        invariant
            k <= lanes@.len(),
            forall|j: int| 0 <= j < lanes@.len() ==> lane_playable(#[trigger] lanes@[j], frame),
            r == lanes_value(lanes@, k as nat, frame, uuid),
        decreases lanes@.len() - k,
    {
        let lane = &lanes[k];
        if lane.param_uuid == uuid {
            let value = evaluate_lane(lane, frame);
            let cur = match r {
                Some(v) => v,
                None => [Scalar { bits: 0 }, Scalar { bits: 0 }],
            };
            r = Some(
                if lane.target == 0 {
                    [merge_field(cur[0], value, lane.merge_mode), cur[1]]
                } else {
                    [cur[0], merge_field(cur[1], value, lane.merge_mode)]
                },
            );
        }
        k = k + 1;
    }
    r
}

/// Computes the value of a param from all layers.
pub fn evaluate_param(
    layers: &Vec<AnimationLayer>,
    animations: &Vec<InxAnimation>,
    default: [Scalar; 2],
    uuid: u32,
) -> (r: [Scalar; 2])
    requires
        playable(layers@, animations@),
    ensures
        r == param_value(layers@, animations@, default, uuid),
{
    let mut r: Option<[Scalar; 2]> = None;
    let mut k: usize = 0;
    while k < layers.len()
        invariant
            playable(layers@, animations@),
            k <= layers@.len(),
            r == blended(layers@, k as nat, animations@, default, uuid),
        decreases layers@.len() - k,
    {
        let l = layers[k];
        if is_heard(&l, animations) {
            let count: usize = animations.len();
            assert(l.animation < count);
            let a = &animations[l.animation as usize];
            let frame = current_frame(&l, a);
            proof {
                assert forall|j: int| 0 <= j < a.lanes@.len() implies lane_playable(
                    #[trigger] a.lanes@[j],
                    frame,
                ) by {
                    assert(lane_playable(
                        (animation_of(animations@, layers@[k as int])->0).lanes@[j],
                        frame,
                    ));
                }
            }
            if let Some(v) = evaluate_lanes(&a.lanes, frame, uuid) {
                let cur = match r {
                    Some(c) => c,
                    None => default,
                };
                r = Some([lerp(cur[0], v[0], l.weight), lerp(cur[1], v[1], l.weight)]);
            }
        }
        k = k + 1;
    }
    match r {
        Some(v) => v,
        None => default,
    }
}

/// Both components are equal as numbers.
pub open spec fn same_pair(a: [Scalar; 2], b: [Scalar; 2]) -> bool {
    a[0].same(b[0]) && a[1].same(b[1])
}

/// The stored value after a write: an equal one stays as it is.
pub open spec fn written(stored: Option<[Scalar; 2]>, value: [Scalar; 2]) -> [Scalar; 2] {
    match stored {
        Some(v) => if same_pair(v, value) {
            v
        } else {
            value
        },
        None => value,
    }
}

/// Writes the blended value of every param that has a default, and says whether
/// any value changed. A param that no layer touches goes back to its default;
/// params without a default are left alone.
pub fn blend_params(
    controller: &InxAnimationController,
    animations: &Vec<InxAnimation>,
    state: InxParamState,
) -> (r: (InxParamState, bool))
    requires
        playable(controller.layers@, animations@),
    ensures
        forall|u: u32|
            controller.param_defaults@.dom().contains(u) ==> #[trigger] r.0.values@.dom().contains(
                u,
            ) && r.0.values@[u] == written(
                crate::id_map::found(state.values@, u),
                param_value(
                    controller.layers@,
                    animations@,
                    controller.param_defaults@[u],
                    u,
                ),
            ),
        forall|u: u32|
            !controller.param_defaults@.dom().contains(u) ==> crate::id_map::found(
                r.0.values@,
                u,
            ) == #[trigger] crate::id_map::found(state.values@, u),
        !r.1 ==> r.0.values@ == state.values@,
        r.1 == exists|u: u32| #[trigger]
            controller.param_defaults@.dom().contains(u) && !(crate::id_map::found(
                state.values@,
                u,
            ) matches Some(v) && same_pair(
                v,
                param_value(
                    controller.layers@,
                    animations@,
                    controller.param_defaults@[u],
                    u,
                ),
            )),
{
    let ghost before = state.values@;
    let ghost defaults = controller.param_defaults@;
    let n: usize = controller.param_defaults.len();
    let ghost keys = controller.param_defaults.order();
    let mut values = state.values;
    let mut changed = false;
    let mut i: usize = 0;
    while i < n
        invariant
            defaults == controller.param_defaults@,
            keys == controller.param_defaults.order(),
            keys.no_duplicates(),
            n == keys.len(),
            i <= n,
            playable(controller.layers@, animations@),
            forall|k: u32| defaults.dom().contains(k) <==> keys.contains(k),
            forall|j: int|
                0 <= j < i ==> values@.dom().contains(#[trigger] keys[j]) && values@[keys[j]]
                    == written(
                    crate::id_map::found(before, keys[j]),
                    param_value(
                        controller.layers@,
                        animations@,
                        defaults[keys[j]],
                        keys[j],
                    ),
                ),
            forall|u: u32|
                (forall|j: int| 0 <= j < i ==> keys[j] != u) ==> crate::id_map::found(values@, u)
                    == #[trigger] crate::id_map::found(before, u),
            !changed ==> values@ == before,
            changed == exists|j: int|
                0 <= j < i && !(crate::id_map::found(before, #[trigger] keys[j]) matches Some(v)
                    && same_pair(
                    v,
                    param_value(
                        controller.layers@,
                        animations@,
                        defaults[keys[j]],
                        keys[j],
                    ),
                )),
        decreases n - i,
    {
        let uuid: u32 = controller.param_defaults.key(i);
        let default = match controller.param_defaults.get(uuid) {
            Some(v) => v,
            None => [Scalar { bits: 0 }, Scalar { bits: 0 }],
        };
        let value = evaluate_param(&controller.layers, animations, default, uuid);
        let equal = match values.get(uuid) {
            Some(v) => v[0].num_eq(value[0]) && v[1].num_eq(value[1]),
            None => false,
        };
        proof {
            assert(keys[i as int] == uuid);
            assert(crate::id_map::found(values@, uuid) == crate::id_map::found(before, uuid));
        }
        let ghost held = values@;
        let ghost was = changed;
        if !equal {
            values = values.insert(uuid, value);
            changed = true;
        }
        proof {
            assert forall|j: int| 0 <= j < i + 1 implies values@.dom().contains(#[trigger] keys[j])
                && values@[keys[j]] == written(
                crate::id_map::found(before, keys[j]),
                param_value(controller.layers@, animations@, defaults[keys[j]], keys[j]),
            ) by {
                if j < i {
                    assert(keys[j] != uuid);
                    assert(held.dom().contains(keys[j]));
                }
            }
            assert forall|u: u32|
                (forall|j: int| 0 <= j < i + 1 ==> keys[j] != u) implies crate::id_map::found(
                values@,
                u,
            ) == #[trigger] crate::id_map::found(before, u) by {
                assert(keys[i as int] != u);
            }
            if !was && equal {
                assert(!changed);
            }
        }
        i = i + 1;
    }
    proof {
        assert forall|u: u32| !defaults.dom().contains(u) implies crate::id_map::found(values@, u)
            == #[trigger] crate::id_map::found(before, u) by {
            assert forall|j: int| 0 <= j < i implies keys[j] != u by {
                assert(keys.contains(keys[j]));
            }
        }
        assert forall|u: u32| defaults.dom().contains(u) implies #[trigger] values@.dom().contains(
            u,
        ) && values@[u] == written(
            crate::id_map::found(before, u),
            param_value(controller.layers@, animations@, defaults[u], u),
        ) by {
            assert(keys.contains(u));
            let j = keys.index_of(u);
            assert(keys[j] == u);
        }
        if changed {
            let j = choose|j: int|
                0 <= j < i && !(crate::id_map::found(before, #[trigger] keys[j]) matches Some(v)
                    && same_pair(
                    v,
                    param_value(controller.layers@, animations@, defaults[keys[j]], keys[j]),
                ));
            assert(keys.contains(keys[j]));
            assert(defaults.dom().contains(keys[j]));
        } else {
            assert forall|u: u32| #[trigger]
                defaults.dom().contains(u) implies (crate::id_map::found(before, u) matches Some(v)
                && same_pair(v, param_value(controller.layers@, animations@, defaults[u], u))) by {
                assert(keys.contains(u));
                let j = keys.index_of(u);
                assert(keys[j] == u);
            }
        }
    }
    (InxParamState { values }, changed)
}

/// Advances the animations of a puppet by `dt` seconds and writes the blended
/// values of its params. Says whether any value changed.
pub fn update_animation_controller(
    controller: &mut InxAnimationController,
    animations: &Vec<InxAnimation>,
    state: InxParamState,
    dt: Scalar,
) -> (r: (InxParamState, bool))
    requires
        playable(
            layers_after(old(controller).layers@, old(controller).paused, animations@, dt),
            animations@,
        ),
    ensures
        final(controller).layers@ == layers_after(
            old(controller).layers@,
            old(controller).paused,
            animations@,
            dt,
        ),
        final(controller).param_defaults == old(controller).param_defaults,
        final(controller).paused == old(controller).paused,
        forall|u: u32|
            old(controller).param_defaults@.dom().contains(u)
                ==> #[trigger] r.0.values@.dom().contains(u) && r.0.values@[u] == written(
                crate::id_map::found(state.values@, u),
                param_value(
                    final(controller).layers@,
                    animations@,
                    old(controller).param_defaults@[u],
                    u,
                ),
            ),
        forall|u: u32|
            !old(controller).param_defaults@.dom().contains(u) ==> crate::id_map::found(
                r.0.values@,
                u,
            ) == #[trigger] crate::id_map::found(state.values@, u),
        !r.1 ==> r.0.values@ == state.values@,
        r.1 == exists|u: u32| #[trigger]
            old(controller).param_defaults@.dom().contains(u) && !(crate::id_map::found(
                state.values@,
                u,
            ) matches Some(v) && same_pair(
                v,
                param_value(
                    final(controller).layers@,
                    animations@,
                    old(controller).param_defaults@[u],
                    u,
                ),
            )),
{
    let ghost defaults = controller.param_defaults@;
    tick_layers(controller, animations, dt);
    let ghost layers = controller.layers@;
    assert(controller.param_defaults@ == defaults);
    let r = blend_params(controller, animations, state);
    assert forall|u: u32| defaults.dom().contains(u) implies #[trigger] r.0.values@.dom().contains(u)
        && r.0.values@[u] == written(
        crate::id_map::found(state.values@, u),
        param_value(layers, animations@, defaults[u], u),
    ) by {
        assert(controller.param_defaults@.dom().contains(u));
        assert(r.0.values@.dom().contains(u));
        assert(r.0.values@[u] == written(
            crate::id_map::found(state.values@, u),
            param_value(controller.layers@, animations@, controller.param_defaults@[u], u),
        ));
        assert(controller.layers@ == layers);
    }
    r
}

/// A param that no layer can touch is at its default: without layers, all are.
pub proof fn lemma_without_layers_default(
    animations: Seq<InxAnimation>,
    default: [Scalar; 2],
    uuid: u32,
)
    ensures
        param_value(Seq::empty(), animations, default, uuid) == default,
{
}

/// No lane of the first `k` lanes drives the param.
pub open spec fn no_lane_for(lanes: Seq<InxAnimationLane>, uuid: u32, k: nat) -> bool {
    forall|i: int| 0 <= i < k ==> (#[trigger] lanes[i]).param_uuid != uuid
}

proof fn lemma_no_lane(lanes: Seq<InxAnimationLane>, k: nat, frame: Scalar, uuid: u32)
    requires
        no_lane_for(lanes, uuid, k),
    ensures
        lanes_value(lanes, k, frame, uuid) is None,
    decreases k,
{
    if k > 0 {
        lemma_no_lane(lanes, (k - 1) as nat, frame, uuid);
    }
}

proof fn lemma_untouched(
    layers: Seq<AnimationLayer>,
    k: nat,
    animations: Seq<InxAnimation>,
    default: [Scalar; 2],
    uuid: u32,
)
    requires
        k <= layers.len(),
        forall|i: int|
            0 <= i < layers.len() && heard(#[trigger] layers[i], animations) ==> no_lane_for(
                (animation_of(animations, layers[i])->0).lanes@,
                uuid,
                (animation_of(animations, layers[i])->0).lanes@.len(),
            ),
    ensures
        blended(layers, k, animations, default, uuid) is None,
    decreases k,
{
    if k > 0 {
        lemma_untouched(layers, (k - 1) as nat, animations, default, uuid);
        let l = layers[k - 1];
        if heard(l, animations) {
            let a = animation_of(animations, l)->0;
            lemma_no_lane(a.lanes@, a.lanes@.len(), frame_at(l, a), uuid);
        }
    }
}

/// A param that no audible layer drives goes back to its default.
pub proof fn lemma_untouched_is_default(
    layers: Seq<AnimationLayer>,
    animations: Seq<InxAnimation>,
    default: [Scalar; 2],
    uuid: u32,
)
    requires
        forall|i: int|
            0 <= i < layers.len() && heard(#[trigger] layers[i], animations) ==> no_lane_for(
                (animation_of(animations, layers[i])->0).lanes@,
                uuid,
                (animation_of(animations, layers[i])->0).lanes@.len(),
            ),
    ensures
        param_value(layers, animations, default, uuid) == default,
{
    lemma_untouched(layers, layers.len(), animations, default, uuid);
}

/// A value that has been written is not written again.
pub proof fn lemma_write_settles(stored: Option<[Scalar; 2]>, value: [Scalar; 2])
    requires
        !value[0].nan(),
        !value[1].nan(),
    ensures
        same_pair(written(stored, value), value),
        written(Some(written(stored, value)), value) == written(stored, value),
{
}

/// A paused controller stands still, whatever time goes by.
pub proof fn lemma_paused_stands_still(
    layers: Seq<AnimationLayer>,
    animations: Seq<InxAnimation>,
    dt: Scalar,
)
    ensures
        layers_after(layers, true, animations, dt) == layers,
{
}

/// A paused controller keeps the values that its params have.
pub proof fn lemma_pause_keeps_values(
    layers: Seq<AnimationLayer>,
    animations: Seq<InxAnimation>,
    dt: Scalar,
    default: [Scalar; 2],
    uuid: u32,
)
    ensures
        param_value(layers_after(layers, true, animations, dt), animations, default, uuid)
            == param_value(layers, animations, default, uuid),
{
}

/// While no layer plays, all params are at their defaults, and none begins to
/// play by itself.
pub proof fn lemma_silence_is_default(
    layers: Seq<AnimationLayer>,
    paused: bool,
    animations: Seq<InxAnimation>,
    dt: Scalar,
    default: [Scalar; 2],
    uuid: u32,
)
    requires
        forall|i: int| 0 <= i < layers.len() ==> !(#[trigger] layers[i]).playing,
    ensures
        param_value(layers_after(layers, paused, animations, dt), animations, default, uuid)
            == default,
        forall|i: int|
            0 <= i < layers_after(layers, paused, animations, dt).len() ==> !(
            #[trigger] layers_after(layers, paused, animations, dt)[i]).playing,
{
    let now = all_ticked(layers, animations, dt);
    let after = layers_after(layers, paused, animations, dt);
    assert forall|i: int| 0 <= i < now.len() implies !(#[trigger] now[i]).playing by {
        assert(now[i] == ticked(
            layers[i],
            dt,
            match animation_of(animations, layers[i]) {
                Some(a) => Some(a.duration),
                None => None,
            },
        ));
    }
    assert forall|i: int| 0 <= i < after.len() implies !(#[trigger] after[i]).playing by {
        if !paused && i > 0 {
            lemma_survivors(now, i);
        }
    }
    lemma_untouched_is_default(after, animations, default, uuid);
}

/// Once everything is stopped, all params go back to their defaults.
pub proof fn lemma_stop_all_resets(
    layers: Seq<AnimationLayer>,
    paused: bool,
    animations: Seq<InxAnimation>,
    dt: Scalar,
    default: [Scalar; 2],
    uuid: u32,
)
    ensures
        param_value(
            layers_after(crate::controller::all_stopped(layers), paused, animations, dt),
            animations,
            default,
            uuid,
        ) == default,
{
    lemma_silence_is_default(
        crate::controller::all_stopped(layers),
        paused,
        animations,
        dt,
        default,
        uuid,
    );
}

/// Once a layer has faded out, it no longer plays and weighs nothing.
pub proof fn lemma_faded_out_is_dead(l: AnimationLayer, dt: Scalar, duration: Option<Scalar>)
    requires
        l.playing,
        l.fade matches FadeState::FadingOut { duration: d, elapsed, .. } && {
            let t = fade_progress(elapsed, dt, d);
            (Scalar { bits: ONE }).less(t) || (Scalar { bits: ONE }).same(t)
        },
    ensures
        !alive(ticked(l, dt, duration)),
{
    crate::scalar::lemma_value_order(Scalar { bits: MILLI }, arith::num(0));
}

/// Each keyframe lies at a later frame than those before it, also once frames are
/// numbers.
pub open spec fn rising(kfs: Seq<InxKeyframe>) -> bool {
    forall|p: int, q: int|
        #![trigger kfs[p], kfs[q]]
        0 <= p < q < kfs.len() ==> arith::of_int(kfs[p].frame as int).less(
            arith::of_int(kfs[q].frame as int),
        )
}

/// The segment behind keyframe `i` can be gone along: its differences and slopes
/// are finite.
pub open spec fn walkable(lane: InxAnimationLane, i: int) -> bool {
    let a = lane.keyframes@[i];
    let b = lane.keyframes@[i + 1];
    match lane.interpolation {
        InxInterpolation::Stepped => true,
        InxInterpolation::Linear => a.value.finite() && b.value.minus(a.value).finite(),
        InxInterpolation::Cubic => grid_interpolation::sloped(
            a.value,
            b.value,
            a.tension.plus(b.tension).times(arith::num(arith::HALF)),
        ),
    }
}

/// The frame lies in the segment behind keyframe `i`: not before it, and before
/// the next.
pub open spec fn within(kfs: Seq<InxKeyframe>, i: int, frame: Scalar) -> bool {
    &&& 0 <= i
    &&& i + 1 < kfs.len()
    &&& frame.finite()
    &&& arith::of_int(kfs[i].frame as int).value() <= frame.value()
    &&& frame.value() < arith::of_int(kfs[i + 1].frame as int).value()
}

proof fn lemma_reached(kfs: Seq<InxKeyframe>, frame: Scalar, j: int, i: int)
    requires
        rising(kfs),
        0 <= j <= i,
        within(kfs, i, frame),
    ensures
        reached(kfs, frame, j) == i,
    decreases i - j,
{
    lemma_integers_are_numbers();
    if j < i {
        assert(kfs[j + 1].frame <= u32::MAX);
        assert(!frame.less(frame_no(kfs[j + 1])));
        lemma_reached(kfs, frame, j + 1, i);
    } else {
        assert(frame.less(frame_no(kfs[i + 1])));
    }
}

/// The value of a lane inside a segment, but at the first keyframe.
proof fn lemma_segment(lane: InxAnimationLane, i: int, frame: Scalar)
    requires
        rising(lane.keyframes@),
        within(lane.keyframes@, i, frame),
    ensures
        ({
            let a = lane.keyframes@[i];
            let b = lane.keyframes@[i + 1];
            let from = arith::of_int(a.frame as int);
            let span = arith::of_int(b.frame as int).minus(from);
            let t = frame.minus(from).over(span);
            let tension = a.tension.plus(b.tension).times(arith::num(arith::HALF));
            let curve = grid_interpolation::hermite_of(a.value, b.value, t, tension);
            let line = grid_interpolation::lerp_of(a.value, b.value, t);
            let inner = if lane.interpolation == InxInterpolation::Stepped {
                a.value
            } else if lane.interpolation == InxInterpolation::Linear {
                line
            } else {
                curve
            };
            let first = i == 0 && frame.value() == from.value();
            &&& span.finite()
            &&& arith::num(0).less(span)
            &&& lane_value(lane, frame) == if first {
                a.value
            } else {
                inner
            }
        }),
{
    let kfs = lane.keyframes@;
    let a = kfs[i];
    let b = kfs[i + 1];
    let n = kfs.len() - 1;
    let from = arith::of_int(a.frame as int);
    let to = arith::of_int(b.frame as int);
    lemma_integers_are_numbers();
    lemma_reached(kfs, frame, 0, i);
    if i + 1 < n {
        assert(to.less(arith::of_int(kfs[n].frame as int)));
    }
    assert(frame.less(frame_no(kfs.last())));
    if i > 0 {
        assert(arith::of_int(kfs[0].frame as int).less(from));
    }
    lemma_span(a.frame as int, b.frame as int);
    let span = to.minus(from);
    exact::lemma_zero_value(arith::num(0));
}

/// The span between two rising frames is above zero, and finite.
proof fn lemma_span(p: int, q: int)
    requires
        0 <= p <= u32::MAX,
        0 <= q <= u32::MAX,
        arith::of_int(p).less(arith::of_int(q)),
    ensures
        arith::of_int(q).minus(arith::of_int(p)).finite(),
        arith::num(0).less(arith::of_int(q).minus(arith::of_int(p))),
{
    let (a, b) = (arith::of_int(p), arith::of_int(q));
    rounding::lemma_of_int_is_number(p);
    rounding::lemma_of_int_is_number(q);
    scalar::lemma_negated(a);
    arith::lemma_magnitudes(0, a.mag());
    arith::lemma_magnitudes(0, b.mag());
    let v = b.value() - a.value();
    let r = b.minus(a);
    let m = arith::nearest_pattern(v, 1);
    rounding::lemma_nearest_exists(v, 1);
    // Not above what is taken from, and not below the least number.
    arith::lemma_exact(b.mag());
    rounding::lemma_nearest_ordered(v, scalar::magnitude(b.mag()), 1);
    arith::lemma_exact(1);
    arith::lemma_packs(1, 0, 1);
    vstd::arithmetic::power2::lemma2_to64();
    rounding::lemma_nearest_ordered(scalar::magnitude(1), v, 1);
    assert(r == arith::with_sign(false, m));
    scalar::lemma_value_order(arith::num(0), r);
    arith::lemma_packs(0, 0, 0);
}

/// At the frame of a keyframe a lane has the value of the keyframe, in every mode.
pub proof fn lemma_lane_meets_keyframes(lane: InxAnimationLane, i: int)
    requires
        rising(lane.keyframes@),
        0 <= i < lane.keyframes@.len(),
        0 < i < lane.keyframes@.len() - 1 ==> walkable(lane, i),
    ensures
        exact::alike(
            lane_value(lane, arith::of_int(lane.keyframes@[i].frame as int)),
            lane.keyframes@[i].value,
        ),
{
    let kfs = lane.keyframes@;
    let frame = arith::of_int(kfs[i].frame as int);
    lemma_integers_are_numbers();
    rounding::lemma_of_int_is_number(kfs[i].frame as int);
    if 0 < i < kfs.len() - 1 {
        assert(kfs[i + 1].frame <= u32::MAX);
        assert(within(kfs, i, frame));
        lemma_segment(lane, i, frame);
        lemma_leaves(lane, i, frame);
    } else if 0 < i {
        assert(kfs[0].frame <= u32::MAX);
    }
}

proof fn lemma_leaves(lane: InxAnimationLane, i: int, frame: Scalar)
    requires
        rising(lane.keyframes@),
        within(lane.keyframes@, i, frame),
        frame == arith::of_int(lane.keyframes@[i].frame as int),
        walkable(lane, i),
    ensures
        exact::alike(lane_value(lane, frame), lane.keyframes@[i].value),
{
    let a = lane.keyframes@[i];
    let b = lane.keyframes@[i + 1];
    let span = arith::of_int(b.frame as int).minus(frame);
    let t = frame.minus(frame).over(span);
    lemma_segment(lane, i, frame);
    arith::lemma_minus_self(frame);
    exact::lemma_zero_value(span);
    exact::lemma_zero_value(arith::num(0));
    exact::lemma_zero_over(frame.minus(frame), span);
    match lane.interpolation {
        InxInterpolation::Stepped => {},
        InxInterpolation::Linear => {
            grid_interpolation::lemma_lerp_starts(a.value, b.value, t);
        },
        InxInterpolation::Cubic => {
            let tension = a.tension.plus(b.tension).times(arith::num(arith::HALF));
            grid_interpolation::lemma_hermite_starts(a.value, b.value, t, tension);
        },
    }
}

/// Where a frame is so near to the next keyframe that no way is left between them,
/// a lane that is not stepped has the value of the next keyframe.
pub proof fn lemma_lane_arrives(lane: InxAnimationLane, i: int, frame: Scalar)
    requires
        rising(lane.keyframes@),
        within(lane.keyframes@, i, frame),
        arith::of_int(lane.keyframes@[i].frame as int).value() < frame.value(),
        walkable(lane, i),
        frame.minus(arith::of_int(lane.keyframes@[i].frame as int)).over(
            arith::of_int(lane.keyframes@[i + 1].frame as int).minus(
                arith::of_int(lane.keyframes@[i].frame as int),
            ),
        ) == arith::num(ONE),
        lane.interpolation != InxInterpolation::Stepped,
        lane.interpolation == InxInterpolation::Linear ==> grid_interpolation::meets(
            lane.keyframes@[i].value,
            lane.keyframes@[i + 1].value,
        ),
    ensures
        exact::alike(lane_value(lane, frame), lane.keyframes@[i + 1].value),
{
    let a = lane.keyframes@[i];
    let b = lane.keyframes@[i + 1];
    lemma_segment(lane, i, frame);
    match lane.interpolation {
        InxInterpolation::Stepped => {},
        InxInterpolation::Linear => {
            grid_interpolation::lemma_lerp_ends(a.value, b.value);
        },
        InxInterpolation::Cubic => {
            let tension = a.tension.plus(b.tension).times(arith::num(arith::HALF));
            grid_interpolation::lemma_hermite_ends(a.value, b.value, tension);
        },
    }
}

/// A stepped lane holds the value of a keyframe until the next. Before the first
/// keyframe every lane has its value, and after the last that of the last.
pub proof fn lemma_lane_holds(lane: InxAnimationLane, i: int, frame: Scalar)
    requires
        rising(lane.keyframes@),
        0 <= i < lane.keyframes@.len(),
        !frame.nan(),
    ensures
        lane.interpolation == InxInterpolation::Stepped && within(lane.keyframes@, i, frame)
            ==> lane_value(lane, frame) == lane.keyframes@[i].value,
        i == 0 && frame.value() <= arith::of_int(lane.keyframes@[0].frame as int).value()
            ==> lane_value(lane, frame) == lane.keyframes@[0].value,
        i == lane.keyframes@.len() - 1 && frame.value() >= arith::of_int(
            lane.keyframes@[i].frame as int,
        ).value() ==> lane_value(lane, frame) == lane.keyframes@[i].value,
{
    let kfs = lane.keyframes@;
    lemma_integers_are_numbers();
    if within(kfs, i, frame) {
        lemma_segment(lane, i, frame);
    }
    if i > 0 {
        assert(arith::of_int(kfs[0].frame as int).less(arith::of_int(kfs[i].frame as int)));
    }
}

/// Between two keyframes with rising values, a linear lane does not fall.
pub proof fn lemma_linear_lane_rises(lane: InxAnimationLane, i: int, f: Scalar, g: Scalar)
    requires
        rising(lane.keyframes@),
        lane.interpolation == InxInterpolation::Linear,
        within(lane.keyframes@, i, f),
        within(lane.keyframes@, i, g),
        walkable(lane, i),
        f.value() <= g.value(),
        lane.keyframes@[i].value.value() <= lane.keyframes@[i + 1].value.value(),
    ensures
        lane_value(lane, f).value() <= lane_value(lane, g).value(),
{
    let a = lane.keyframes@[i];
    let b = lane.keyframes@[i + 1];
    let from = arith::of_int(a.frame as int);
    let to = arith::of_int(b.frame as int);
    let span = to.minus(from);
    lemma_segment(lane, i, f);
    lemma_segment(lane, i, g);
    lemma_integers_are_numbers();
    rounding::lemma_of_int_is_number(a.frame as int);
    rounding::lemma_of_int_is_number(b.frame as int);
    if f.value() == from.value() {
        lemma_lerp_from_start(a.value, b.value, f, from, span);
    } else {
        lemma_part(f, from, to);
    }
    if g.value() == from.value() {
        lemma_lerp_from_start(a.value, b.value, g, from, span);
    } else {
        lemma_part(g, from, to);
        let u = g.minus(from).over(span);
        if f.value() == from.value() {
            let zero = arith::num(0);
            exact::lemma_zero_value(zero);
            arith::lemma_magnitudes(0, u.mag());
            grid_interpolation::lemma_lerp_starts(a.value, b.value, zero);
            exact::lemma_alike_same(
                grid_interpolation::lerp_of(a.value, b.value, zero),
                a.value,
            );
            grid_interpolation::lemma_lerp_ordered(a.value, b.value, zero, u);
        } else {
            scalar::lemma_negated(from);
            rounding::lemma_plus_ordered(f, g, from.negated());
            exact::lemma_over_ordered(f.minus(from), g.minus(from), span);
            grid_interpolation::lemma_lerp_ordered(
                a.value,
                b.value,
                f.minus(from).over(span),
                u,
            );
        }
    }
}

proof fn lemma_lerp_from_start(a: Scalar, b: Scalar, frame: Scalar, from: Scalar, span: Scalar)
    requires
        a.finite(),
        b.minus(a).finite(),
        from.finite(),
        frame.finite(),
        frame.value() == from.value(),
        span.finite(),
        arith::num(0).less(span),
    ensures
        grid_interpolation::lerp_of(a, b, frame.minus(from).over(span)).value() == a.value(),
{
    scalar::lemma_negated(from);
    exact::lemma_zero_value(span);
    exact::lemma_zero_value(arith::num(0));
    exact::lemma_zero_over(frame.minus(from), span);
    grid_interpolation::lemma_lerp_starts(a, b, frame.minus(from).over(span));
    exact::lemma_alike_same(
        grid_interpolation::lerp_of(a, b, frame.minus(from).over(span)),
        a,
    );
}

/// A frame between two others has gone a part of the way.
proof fn lemma_part(frame: Scalar, from: Scalar, to: Scalar)
    requires
        frame.finite(),
        from.finite(),
        to.finite(),
        from.value() < frame.value() <= to.value(),
        to.minus(from).finite(),
        arith::num(0).less(to.minus(from)),
        !from.negative(),
    ensures
        frame.minus(from).finite(),
        !frame.minus(from).negative(),
        frame.minus(from).over(to.minus(from)).finite(),
        !frame.minus(from).over(to.minus(from)).negative(),
        frame.minus(from).over(to.minus(from)).value() <= arith::num(ONE).value(),
{
    let span = to.minus(from);
    let p = frame.minus(from);
    scalar::lemma_negated(from);
    rounding::lemma_plus_ordered(frame, to, from.negated());
    rounding::lemma_plus_is_number(frame, from.negated());
    rounding::lemma_nearest_exists(frame.value() - from.value(), 1);
    exact::lemma_zero_value(frame);
    exact::lemma_zero_value(from);
    exact::lemma_zero_value(arith::num(0));
    exact::lemma_zero_value(span);
    scalar::lemma_value_order(p, span);
    exact::lemma_over_ordered(p, span, span);
    exact::lemma_over_self(span);
    scalar::lemma_value_order(p.over(span), arith::num(ONE));
}

/// A lane that is `k` sixteenths of the way from one keyframe to the next is there
/// on the line, or on the cubic curve, between their values `x` and `y`. The
/// numbers have few digits, in any unit `s`; `z` is four times what the mean
/// tension leaves of the slope.
pub proof fn lemma_lane_exact(
    lane: InxAnimationLane,
    i: int,
    frame: Scalar,
    x: int,
    y: int,
    k: int,
    z: int,
    s: nat,
)
    requires
        rising(lane.keyframes@),
        0 <= i,
        i + 1 < lane.keyframes@.len(),
        lane.keyframes@[i + 1].frame <= 0x10_0000,
        lane.keyframes@[i].frame < lane.keyframes@[i + 1].frame,
        0 < k < 16,
        frame.finite(),
        16 * frame.value() == (16 * lane.keyframes@[i].frame + k * (lane.keyframes@[i + 1].frame
            - lane.keyframes@[i].frame)) * scalar::unit(),
        exact::stands_for(lane.keyframes@[i].value, x, s),
        exact::stands_for(lane.keyframes@[i + 1].value, y, s),
        -0x100 <= x <= 0x100,
        -0x100 <= y <= 0x100,
        14 <= s <= 252,
        lane.interpolation == InxInterpolation::Cubic ==> -4 <= z <= 4 && exact::stands_for(
            lane.keyframes@[i].tension.plus(lane.keyframes@[i + 1].tension).times(
                arith::num(arith::HALF),
            ),
            4 - z,
            147,
        ),
    ensures
        lane.interpolation == InxInterpolation::Stepped ==> exact::stands_for(
            lane_value(lane, frame),
            x,
            s,
        ),
        lane.interpolation == InxInterpolation::Linear ==> exact::stands_for(
            lane_value(lane, frame),
            16 * x + k * (y - x),
            (s - 4) as nat,
        ),
        lane.interpolation == InxInterpolation::Cubic ==> exact::stands_for(
            lane_value(lane, frame),
            4 * ((2 * (k * k * k) - 48 * (k * k) + 4096) * x + (48 * (k * k) - 2 * (k * k * k)) * y) + (
            2 * (k * k * k) - 48 * (k * k) + 256 * k) * (z * (y - x)),
            (s - 14) as nat,
        ),
{
    let a = lane.keyframes@[i];
    let b = lane.keyframes@[i + 1];
    let (p, q) = (a.frame as int, b.frame as int);
    let d = q - p;
    let u = scalar::unit();
    let w = vstd::arithmetic::power2::pow2(145) as int;
    vstd::arithmetic::power2::lemma2_to64();
    vstd::arithmetic::power2::lemma_pow2_adds(4, 145);
    vstd::arithmetic::power2::lemma_pow2_pos(145);
    let n = 16 * p + k * d;
    let v = frame.value();
    assert(v == n * w) by (nonlinear_arith)
        requires
            16 * v == n * u,
            u == 16 * w,
    ;
    let (from, to) = (arith::of_int(p), arith::of_int(q));
    exact::lemma_integer(p);
    exact::lemma_integer(q);
    assert(k * d < 16 * d && 0 < k * d <= 0x100_0000 && n <= 0x100_0000) by (nonlinear_arith)
        requires
            0 < k < 16,
            0 < d <= 0x10_0000 - p,
            n == 16 * p + k * d,
            p >= 0,
    ;
    exact::lemma_finer(from, p, 149, 4);
    exact::lemma_finer(to, q, 149, 4);
    assert(from.value() == (p * 16) * w && to.value() == (q * 16) * w);
    assert((p * 16) * w < n * w && n * w < (q * 16) * w) by (nonlinear_arith)
        requires
            p * 16 < n,
            n < q * 16,
            w > 0,
    ;
    assert(within(lane.keyframes@, i, frame));
    lemma_segment(lane, i, frame);
    exact::lemma_difference(frame, n, from, p * 16, 145);
    exact::lemma_difference(to, q, from, p, 149);
    assert(n - p * 16 == k * d);
    exact::lemma_quotient(frame.minus(from), k, to.minus(from), d, 145, 149);
    let t = frame.minus(from).over(to.minus(from));
    match lane.interpolation {
        InxInterpolation::Stepped => {},
        InxInterpolation::Linear => {
            grid_interpolation::lemma_lerp_exact(a.value, b.value, t, x, y, k, s, 4);
            assert((y - x) * k == k * (y - x)) by (nonlinear_arith);
        },
        InxInterpolation::Cubic => {
            let tension = a.tension.plus(b.tension).times(arith::num(arith::HALF));
            grid_interpolation::lemma_hermite_exact(
                a.value,
                b.value,
                t,
                tension,
                x,
                y,
                k,
                z,
                s,
            );
        },
    }
}

/// The frame of a layer is its time counted in steps of the animation: `n` steps of
/// `y` units, or none where the animation has no step.
pub proof fn lemma_frame_counts_steps(l: AnimationLayer, a: InxAnimation, n: int, y: int, s: nat)
    requires
        exact::stands_for(l.time, n * y, s),
        exact::stands_for(a.timestep, y, s),
        -exact::DIGITS <= n <= exact::DIGITS,
        s <= 252,
    ensures
        y > 0 ==> exact::stands_for(frame_at(l, a), n, 149),
        y <= 0 ==> exact::stands_for(frame_at(l, a), 0, 149),
{
    exact::lemma_sign(a.timestep, y, s);
    exact::lemma_zero_value(arith::num(0));
    exact::lemma_zero_value(a.timestep);
    arith::lemma_magnitudes(0, a.timestep.mag());
    if y > 0 {
        exact::lemma_quotient(l.time, n, a.timestep, y, s, s);
    }
}

/// A layer that plays moves on by the time that has passed, times its speed. At the
/// end of its animation it starts over, if it loops, or else stops there. One that does
/// not play stays as it is. The numbers have few digits, in any unit `s`.
pub proof fn lemma_time_passes(
    l: AnimationLayer,
    dt: Scalar,
    duration: Scalar,
    x: int,
    n: int,
    m: int,
    d: int,
    s: nat,
)
    requires
        exact::stands_for(l.time, x, s),
        exact::stands_for(dt, n, s),
        exact::stands_for(l.speed, m, 149),
        exact::stands_for(duration, d, s),
        0 <= x <= 0x1000,
        0 <= n <= 0x1000,
        0 <= m <= 0x100,
        0 < d <= exact::DIGITS,
        s <= 252,
    ensures
        ({
            let r = ticked(l, dt, Some(duration));
            let free = ticked(l, dt, None);
            let t = x + n * m;
            &&& !l.playing ==> r == l && free == l
            &&& l.playing ==> exact::stands_for(free.time, t, s)
            &&& l.playing && t < d ==> exact::stands_for(r.time, t, s)
            &&& l.playing && t >= d && l.looping ==> exact::stands_for(r.time, t % d, s)
            &&& l.playing && t >= d && !l.looping ==> r.time == duration && !r.playing
            &&& l.playing && l.fade == FadeState::Steady && (t < d || l.looping) ==> r.playing
            &&& l.playing && l.fade == FadeState::Steady ==> r.weight == l.weight
            &&& r.speed == l.speed && r.looping == l.looping && r.animation == l.animation
        }),
{
    let t = x + n * m;
    assert(0 <= n * m <= 0x10_0000) by (nonlinear_arith)
        requires
            0 <= n <= 0x1000,
            0 <= m <= 0x100,
    ;
    exact::lemma_product(dt, n, s, l.speed, m, 149);
    exact::lemma_sum(l.time, x, dt.times(l.speed), n * m, s);
    let now = l.time.plus(dt.times(l.speed));
    let p = vstd::arithmetic::power2::pow2(s) as int;
    vstd::arithmetic::power2::lemma_pow2_pos(s);
    assert(d * p <= t * p <==> d <= t) by (nonlinear_arith)
        requires
            p > 0,
    ;
    if t >= d {
        exact::lemma_remainder(now, t, duration, d, s);
    }
}

/// A layer fades in from nothing to its full weight, and out from the weight it had to
/// nothing, both along `3 t^2 - 2 t^3`: `k` is how many sixteenths of the fade are over,
/// and `y` its duration, in any unit `s`.
pub proof fn lemma_fades(
    l: AnimationLayer,
    dt: Scalar,
    duration: Option<Scalar>,
    d: Scalar,
    elapsed: Scalar,
    start: Scalar,
    k: int,
    y: int,
    w: int,
    s: nat,
)
    requires
        l.playing,
        4 <= s <= 252,
        exact::stands_for(elapsed.plus(dt), k * y, (s - 4) as nat),
        exact::stands_for(d, y, s),
        0 <= k <= 32,
        0 < y,
        exact::stands_for(start, w, 145),
        0 <= w <= 16,
    ensures
        ({
            let r = ticked(l, dt, duration);
            let over = 48 * (k * k) - 2 * (k * k * k);
            &&& l.fade == (FadeState::FadingIn { duration: d, elapsed }) ==> {
                &&& k < 16 ==> exact::stands_for(r.weight, over, 137) && r.fade
                    == (FadeState::FadingIn { duration: d, elapsed: elapsed.plus(dt) })
                &&& k >= 16 ==> exact::stands_for(r.weight, 1, 149) && r.fade == FadeState::Steady
            }
            &&& l.fade == (FadeState::FadingOut { duration: d, elapsed, start_weight: start }) ==> {
                &&& k < 16 ==> exact::stands_for(r.weight, w * (4096 - over), 133) && r.fade
                    == (FadeState::FadingOut {
                    duration: d,
                    elapsed: elapsed.plus(dt),
                    start_weight: start,
                })
                &&& k >= 16 ==> r.weight.mag() == 0 && !r.playing && r.fade == FadeState::Steady
            }
        }),
{
    let one = arith::num(ONE);
    let e = elapsed.plus(dt);
    exact::lemma_quotient(e, k, d, y, (s - 4) as nat, s);
    let q = e.over(d);
    let u = vstd::arithmetic::power2::pow2(145) as int;
    vstd::arithmetic::power2::lemma2_to64();
    vstd::arithmetic::power2::lemma_pow2_pos(145);
    exact::lemma_small();
    exact::lemma_finer(one, 1, 149, 4);
    let v = q.value();
    assert(16 * u < v <==> 16 < k) by (nonlinear_arith)
        requires
            v == k * u,
            u > 0,
    ;
    assert(16 * u <= v <==> 16 <= k) by (nonlinear_arith)
        requires
            v == k * u,
            u > 0,
    ;
    if k < 16 {
        grid_interpolation::lemma_eased_exact(q, k);
        let over = 48 * (k * k) - 2 * (k * k * k);
        assert(0 <= over <= 4096) by (nonlinear_arith)
            requires
                0 <= k <= 16,
                over == 48 * (k * k) - 2 * (k * k * k),
        ;
        let f = grid_interpolation::eased(q);
        exact::lemma_finer(one, 1, 149, 12);
        exact::lemma_difference(one, 4096, f, over, 137);
        let rest = 4096 - over;
        assert(0 <= w * rest <= 0x1_0000) by (nonlinear_arith)
            requires
                0 <= w <= 16,
                0 <= rest <= 4096,
        ;
        exact::lemma_product(start, w, 145, one.minus(f), rest, 137);
    }
}

proof fn lemma_blended_prefix(
    layers: Seq<AnimationLayer>,
    k: nat,
    animations: Seq<InxAnimation>,
    default: [Scalar; 2],
    uuid: u32,
)
    requires
        k < layers.len(),
    ensures
        blended(layers.drop_last(), k, animations, default, uuid) == blended(
            layers,
            k,
            animations,
            default,
            uuid,
        ),
    decreases k,
{
    if k > 0 {
        lemma_blended_prefix(layers, (k - 1) as nat, animations, default, uuid);
    }
}

/// The last layer takes a param from what the layers before it make of it, or from its
/// default, to its own value `v`: all the way at full weight, and in general the part
/// of the way that its weight is. A layer that is not heard, or has no lane for the
/// param, changes nothing.
pub proof fn lemma_layer_takes_its_part(
    layers: Seq<AnimationLayer>,
    animations: Seq<InxAnimation>,
    default: [Scalar; 2],
    uuid: u32,
    a: InxAnimation,
    c: int,
    x: int,
    y: int,
    k: int,
    s: nat,
)
    requires
        layers.len() > 0,
        layers.last().animation < animations.len(),
        a == animations[layers.last().animation as int],
        0 <= c < 2,
    ensures
        ({
            let l = layers.last();
            let now = param_value(layers, animations, default, uuid);
            let before = param_value(layers.drop_last(), animations, default, uuid);
            match lanes_value(a.lanes@, a.lanes@.len(), frame_at(l, a), uuid) {
                Some(v) => {
                    &&& l.playing && l.weight == arith::num(ONE) && grid_interpolation::meets(
                        before[c],
                        v[c],
                    ) ==> exact::alike(now[c], v[c])
                    &&& l.playing && exact::stands_for(l.weight, k, 145) && 1 <= k <= 16
                        && exact::stands_for(before[c], x, s) && exact::stands_for(v[c], y, s)
                        && -0x1000 <= x <= 0x1000 && -0x1000 <= y <= 0x1000 && 4 <= s <= 252
                        ==> exact::stands_for(now[c], 16 * x + k * (y - x), (s - 4) as nat)
                },
                None => now == before,
            }
        }),
        !layers.last().playing || layers.last().weight.mag() == 0 ==> param_value(
            layers,
            animations,
            default,
            uuid,
        ) == param_value(layers.drop_last(), animations, default, uuid),
{
    let l = layers.last();
    let n = layers.len();
    let before = param_value(layers.drop_last(), animations, default, uuid);
    lemma_blended_prefix(layers, (n - 1) as nat, animations, default, uuid);
    exact::lemma_zero_value(l.weight);
    exact::lemma_zero_value(arith::num(0));
    scalar::lemma_value_order(arith::num(0), Scalar { bits: MILLI });
    scalar::lemma_value_order(Scalar { bits: MILLI }, arith::num(ONE));
    match lanes_value(a.lanes@, a.lanes@.len(), frame_at(l, a), uuid) {
        Some(v) => {
            if l.weight == arith::num(ONE) && grid_interpolation::meets(before[c], v[c]) {
                grid_interpolation::lemma_lerp_ends(before[c], v[c]);
            }
            if exact::stands_for(l.weight, k, 145) && 1 <= k <= 16 && exact::stands_for(
                before[c],
                x,
                s,
            ) && exact::stands_for(v[c], y, s) && -0x1000 <= x <= 0x1000 && -0x1000 <= y
                <= 0x1000 && 4 <= s <= 252 {
                vstd::arithmetic::power2::lemma2_to64();
                lemma_sixteenth_is_heard(l.weight, k);
                grid_interpolation::lemma_lerp_exact(before[c], v[c], l.weight, x, y, k, s, 4);
                assert((y - x) * k == k * (y - x)) by (nonlinear_arith);
            }
        },
        None => {},
    }
}

/// A weight of a sixteenth or more is heard.
proof fn lemma_sixteenth_is_heard(w: Scalar, k: int)
    requires
        exact::stands_for(w, k, 145),
        1 <= k <= 16,
    ensures
        !w.less(Scalar { bits: MILLI }),
{
    let p = vstd::arithmetic::power2::pow2(145) as int;
    vstd::arithmetic::power2::lemma_pow2_pos(145);
    let v = w.value();
    assert(v >= p) by (nonlinear_arith)
        requires
            v == k * p,
            k >= 1,
            p > 0,
    ;
    // A sixteenth by its pattern.
    let sixteenth = arith::num(0x3d80_0000);
    arith::lemma_packs(0x80_0000, 122, 0x3d80_0000);
    vstd::arithmetic::power2::lemma2_to64();
    vstd::arithmetic::power2::lemma_pow2_adds(23, 122);
    scalar::lemma_value_order(Scalar { bits: MILLI }, sixteenth);
}

/// A lane writes the component of its param that it aims at, by its merge mode, and
/// leaves the other one; where no lane came before, both are zero. A lane of another
/// param changes nothing.
pub proof fn lemma_lane_writes_component(
    lanes: Seq<InxAnimationLane>,
    frame: Scalar,
    uuid: u32,
    x: int,
    y: int,
)
    requires
        lanes.len() > 0,
        lanes.last().target < 2,
    ensures
        ({
            let lane = lanes.last();
            let n = lanes.len();
            let c = lane.target as int;
            let was = match lanes_value(lanes, (n - 1) as nat, frame, uuid) {
                Some(v) => v,
                None => [arith::num(0), arith::num(0)],
            };
            let value = lane_value(lane, frame);
            let now = lanes_value(lanes, n, frame, uuid);
            &&& lane.param_uuid != uuid ==> now == lanes_value(
                lanes,
                (n - 1) as nat,
                frame,
                uuid,
            )
            &&& lane.param_uuid == uuid ==> {
                &&& now matches Some(v)
                &&& v[1 - c] == was[1 - c]
                &&& (lane.merge_mode == InxMergeMode::Override || lane.merge_mode
                    == InxMergeMode::Forced) ==> v[c] == value
                &&& exact::stands_for(was[c], x, 149) && exact::stands_for(value, y, 149)
                    && -0x1000 <= x <= 0x1000 && -0x1000 <= y <= 0x1000 ==> {
                    &&& lane.merge_mode == InxMergeMode::Additive ==> exact::stands_for(
                        v[c],
                        x + y,
                        149,
                    )
                    &&& lane.merge_mode == InxMergeMode::Multiply ==> exact::stands_for(
                        v[c],
                        x * y,
                        149,
                    )
                }
            }
        }),
{
    let lane = lanes.last();
    let n = lanes.len();
    let c = lane.target as int;
    let was = match lanes_value(lanes, (n - 1) as nat, frame, uuid) {
        Some(v) => v,
        None => [arith::num(0), arith::num(0)],
    };
    let value = lane_value(lane, frame);
    if exact::stands_for(was[c], x, 149) && exact::stands_for(value, y, 149) && -0x1000 <= x
        <= 0x1000 && -0x1000 <= y <= 0x1000 {
        assert(-0x100_0000 <= x * y <= 0x100_0000) by (nonlinear_arith)
            requires
                -0x1000 <= x <= 0x1000,
                -0x1000 <= y <= 0x1000,
        ;
        exact::lemma_sum(was[c], x, value, y, 149);
        exact::lemma_product(was[c], x, 149, value, y, 149);
    }
}

} // verus!
