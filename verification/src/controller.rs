//! Multi-layer animation controller with crossfade.

use crate::param_values::ParamValues;
use crate::scalar::{Scalar, MILLI, ONE};
use vstd::prelude::*;

verus! {

/// Weight transition of an [`AnimationLayer`].
#[derive(Debug, Clone, Copy, PartialEq, Eq, Structural)]
pub enum FadeState {
    /// No transition, stable weight.
    Steady,
    /// Fading in: weight rises from 0 to 1.
    FadingIn {
        /// Total fade duration in seconds.
        duration: Scalar,
        /// Time elapsed since the fade started.
        elapsed: Scalar,
    },
    /// Fading out: weight drops to 0, then the layer is removed.
    FadingOut {
        /// Total fade duration in seconds.
        duration: Scalar,
        /// Time elapsed since the fade started.
        elapsed: Scalar,
        /// Weight at the moment the fade started.
        start_weight: Scalar,
    },
}

/// An animation layer.
#[derive(Debug, Clone, Copy, PartialEq, Eq, Structural)]
pub struct AnimationLayer {
    /// The animation, by its position in the list of animations.
    pub animation: u64,
    /// Current time in seconds.
    pub time: Scalar,
    /// Layer weight (0 = don't play, 1 = play at full strength).
    pub weight: Scalar,
    /// Playing?
    pub playing: bool,
    /// Looping?
    pub looping: bool,
    /// Speed (1 = normal).
    pub speed: Scalar,
    /// Weight transition.
    pub fade: FadeState,
}

/// Stands for no animation.
pub const NO_ANIMATION: u64 = 0xffff_ffff_ffff_ffff;

/// Plays animations on layers. Layer 0 is the idle animation, later layers have
/// priority over earlier ones.
pub struct InxAnimationController {
    /// Animation layers, in the order of evaluation.
    pub layers: Vec<AnimationLayer>,
    /// Param defaults, used where no layer writes a param.
    pub param_defaults: ParamValues,
    /// If true, time and fades stand still, but params keep their values.
    pub paused: bool,
}

/// The layer is being played and has weight.
pub open spec fn sounding(l: AnimationLayer) -> bool {
    l.playing && (Scalar { bits: 0 }).less(l.weight)
}

/// The layer, starting to fade out.
pub open spec fn fading_out(l: AnimationLayer, duration: Scalar) -> AnimationLayer {
    AnimationLayer {
        fade: FadeState::FadingOut {
            duration,
            elapsed: Scalar { bits: 0 },
            start_weight: l.weight,
        },
        ..l
    }
}

/// The layer, silenced.
pub open spec fn stopped(l: AnimationLayer) -> AnimationLayer {
    AnimationLayer { playing: false, weight: Scalar { bits: 0 }, ..l }
}

/// A layer that plays from the start: fading in where there is time to fade,
/// else at full weight.
pub open spec fn started(animation: u64, looping: bool, fade: Scalar) -> AnimationLayer {
    let zero = Scalar { bits: 0 };
    let one = Scalar { bits: ONE };
    AnimationLayer {
        animation,
        time: zero,
        weight: if zero.less(fade) {
            zero
        } else {
            one
        },
        playing: true,
        looping,
        speed: one,
        fade: if zero.less(fade) {
            FadeState::FadingIn { duration: fade, elapsed: zero }
        } else {
            FadeState::Steady
        },
    }
}

/// A layer that plays nothing.
pub open spec fn silent() -> AnimationLayer {
    AnimationLayer {
        animation: NO_ANIMATION,
        time: Scalar { bits: 0 },
        weight: Scalar { bits: 0 },
        playing: false,
        looping: false,
        speed: Scalar { bits: ONE },
        fade: FadeState::Steady,
    }
}

/// The layers with the playing ones, but for the idle layer, starting to fade
/// out.
pub open spec fn actions_fading(layers: Seq<AnimationLayer>, duration: Scalar) -> Seq<
    AnimationLayer,
> {
    layers.map(
        |i: int, l: AnimationLayer|
            if i >= 1 && l.playing {
                fading_out(l, duration)
            } else {
                l
            },
    )
}

/// The layers with the playing ones, but for the idle layer, silenced.
pub open spec fn actions_stopped(layers: Seq<AnimationLayer>) -> Seq<AnimationLayer> {
    layers.map(
        |i: int, l: AnimationLayer|
            if i >= 1 && l.playing {
                stopped(l)
            } else {
                l
            },
    )
}

/// The layers, all silenced.
pub open spec fn all_stopped(layers: Seq<AnimationLayer>) -> Seq<AnimationLayer> {
    layers.map_values(|l: AnimationLayer| stopped(l))
}

/// The layers, filled up with silent ones so that there is a layer `at`.
pub open spec fn filled(layers: Seq<AnimationLayer>, at: int) -> Seq<AnimationLayer> {
    if layers.len() <= at {
        layers + Seq::new((at + 1 - layers.len()) as nat, |i: int| silent())
    } else {
        layers
    }
}

fn start(animation: u64, looping: bool, fade: Scalar) -> (r: AnimationLayer)
    ensures
        r == started(animation, looping, fade),
{
    let zero = Scalar { bits: 0 };
    let one = Scalar { bits: ONE };
    let fades = zero.lt(fade);
    AnimationLayer {
        animation,
        time: zero,
        weight: if fades {
            zero
        } else {
            one
        },
        playing: true,
        looping,
        speed: one,
        fade: if fades {
            FadeState::FadingIn { duration: fade, elapsed: zero }
        } else {
            FadeState::Steady
        },
    }
}

fn is_sounding(l: &AnimationLayer) -> (r: bool)
    ensures
        r == sounding(*l),
{
    l.playing && (Scalar { bits: 0 }).lt(l.weight)
}

fn fade_out(l: &AnimationLayer, duration: Scalar) -> (r: AnimationLayer)
    ensures
        r == fading_out(*l, duration),
{
    let mut r = *l;
    r.fade = FadeState::FadingOut { duration, elapsed: Scalar { bits: 0 }, start_weight: l.weight };
    r
}

fn stop(l: &AnimationLayer) -> (r: AnimationLayer)
    ensures
        r == stopped(*l),
{
    let mut r = *l;
    r.playing = false;
    r.weight = Scalar { bits: 0 };
    r
}

fn silence() -> (r: AnimationLayer)
    ensures
        r == silent(),
{
    AnimationLayer {
        animation: NO_ANIMATION,
        time: Scalar { bits: 0 },
        weight: Scalar { bits: 0 },
        playing: false,
        looping: false,
        speed: Scalar { bits: ONE },
        fade: FadeState::Steady,
    }
}

fn fade_actions(layers: &mut Vec<AnimationLayer>, duration: Scalar)
    ensures
        final(layers)@ == actions_fading(old(layers)@, duration),
{
    let ghost before = layers@;
    let ghost want = actions_fading(before, duration);
    let mut i: usize = 1;
    while i < layers.len()
        invariant
            want == actions_fading(before, duration),
            layers@.len() == before.len(),
            1 <= i,
            forall|j: int| 0 <= j < i && j < before.len() ==> layers@[j] == want[j],
            forall|j: int| i <= j < before.len() ==> layers@[j] == before[j],
        decreases layers@.len() - i,
    {
        let l = layers[i];
        if l.playing {
            layers.set(i, fade_out(&l, duration));
        }
        i = i + 1;
    }
    assert(layers@ =~= want);
}

impl InxAnimationController {
    /// Empty controller, no layers or defaults.
    pub fn new() -> (r: Self)
        ensures
            r.layers@.len() == 0,
            r.param_defaults@ == Map::<u32, [Scalar; 2]>::empty(),
            !r.paused,
    {
        InxAnimationController {
            layers: Vec::new(),
            param_defaults: ParamValues::new(),
            paused: false,
        }
    }

    /// The controller, frozen or not.
    pub open spec fn frozen(self, paused: bool) -> InxAnimationController {
        InxAnimationController { paused, ..self }
    }

    /// Freezes the current frame. Params do not go back to their defaults.
    pub fn pause(&mut self)
        ensures
            *final(self) == old(self).frozen(true),
    {
        self.paused = true;
    }

    /// Lets time go on after [`pause`](Self::pause).
    pub fn resume(&mut self)
        ensures
            *final(self) == old(self).frozen(false),
    {
        self.paused = false;
    }

    /// Plays an animation with crossfade: all action layers fade out and a new
    /// one fades in. Layer 0 is kept for the idle animation: where it is missing,
    /// a silent one is put there. Gives the new layer's position.
    pub fn play(&mut self, animation: u64, crossfade_secs: Scalar) -> (r: usize)
        ensures
            final(self).layers@ == actions_fading(
                filled(old(self).layers@, 0),
                crossfade_secs.larger(Scalar { bits: MILLI }),
            ).push(started(animation, false, crossfade_secs)),
            r == filled(old(self).layers@, 0).len(),
            r >= 1,
            final(self).param_defaults == old(self).param_defaults,
            final(self).paused == old(self).paused,
    {
        let ghost before = self.layers@;
        if self.layers.len() == 0 {
            self.layers.push(silence());
        }
        assert(self.layers@ =~= filled(before, 0));
        fade_actions(&mut self.layers, crossfade_secs.max(Scalar { bits: MILLI }));
        self.layers.push(start(animation, false, crossfade_secs));
        self.layers.len() - 1
    }

    /// Plays an animation with crossfade, again and again.
    pub fn play_looped(&mut self, animation: u64, crossfade_secs: Scalar)
        ensures
            final(self).layers@ == actions_fading(
                filled(old(self).layers@, 0),
                crossfade_secs.larger(Scalar { bits: MILLI }),
            ).push(started(animation, true, crossfade_secs)),
            final(self).param_defaults == old(self).param_defaults,
            final(self).paused == old(self).paused,
    {
        let at: usize = self.play(animation, crossfade_secs);
        let mut l = self.layers[at];
        l.looping = true;
        self.layers.set(at, l);
        assert(self.layers@ =~= actions_fading(
            filled(old(self).layers@, 0),
            crossfade_secs.larger(Scalar { bits: MILLI }),
        ).push(started(animation, true, crossfade_secs)));
    }

    /// Sets the idle animation (layer 0). It loops, at full weight.
    pub fn set_idle(&mut self, animation: u64)
        ensures
            final(self).layers@ == (if old(self).layers@.len() == 0 {
                seq![started(animation, true, Scalar { bits: 0 })]
            } else {
                old(self).layers@.update(0, started(animation, true, Scalar { bits: 0 }))
            }),
            final(self).param_defaults == old(self).param_defaults,
            final(self).paused == old(self).paused,
    {
        let idle = start(animation, true, Scalar { bits: 0 });
        if self.layers.len() == 0 {
            self.layers.push(idle);
            assert(self.layers@ =~= seq![idle]);
        } else {
            self.layers.set(0, idle);
        }
    }

    /// Plays on a specific layer. Where that layer sounds and there is time to
    /// fade, it fades out and the animation fades in on a layer of its own;
    /// else the animation takes the layer at once.
    pub fn play_on_layer(
        &mut self,
        layer_idx: usize,
        animation: u64,
        looping: bool,
        crossfade_secs: Scalar,
    )
        requires
            layer_idx < usize::MAX,
        ensures
            ({
                let layers = filled(old(self).layers@, layer_idx as int);
                let zero = Scalar { bits: 0 };
                final(self).layers@ == (if sounding(layers[layer_idx as int]) && zero.less(
                    crossfade_secs,
                ) {
                    layers.update(
                        layer_idx as int,
                        fading_out(layers[layer_idx as int], crossfade_secs),
                    ).push(started(animation, looping, crossfade_secs))
                } else {
                    layers.update(layer_idx as int, started(animation, looping, zero))
                })
            }),
            final(self).param_defaults == old(self).param_defaults,
            final(self).paused == old(self).paused,
    {
        let zero = Scalar { bits: 0 };
        let ghost before = self.layers@;
        while self.layers.len() <= layer_idx
            invariant
                before == old(self).layers@,
                layer_idx < usize::MAX,
                self.layers@.len() <= layer_idx + 1 || self.layers@.len() == before.len(),
                before.len() <= self.layers@.len(),
                self.layers@ == before + Seq::new(
                    (self.layers@.len() - before.len()) as nat,
                    |i: int| silent(),
                ),
                self.param_defaults == old(self).param_defaults,
                self.paused == old(self).paused,
            decreases layer_idx + 1 - self.layers@.len(),
        {
            self.layers.push(silence());
            assert(self.layers@ =~= before + Seq::new(
                (self.layers@.len() - before.len()) as nat,
                |i: int| silent(),
            ));
        }
        assert(self.layers@ =~= filled(before, layer_idx as int));
        let old_layer = self.layers[layer_idx];
        if is_sounding(&old_layer) && zero.lt(crossfade_secs) {
            self.layers.set(layer_idx, fade_out(&old_layer, crossfade_secs));
            self.layers.push(start(animation, looping, crossfade_secs));
        } else {
            self.layers.set(layer_idx, start(animation, looping, zero));
        }
    }

    /// Stops all action layers (not idle), with or without a fade.
    pub fn stop_actions(&mut self, fade_out_secs: Scalar)
        ensures
            final(self).layers@ == (if (Scalar { bits: 0 }).less(fade_out_secs) {
                actions_fading(old(self).layers@, fade_out_secs)
            } else {
                actions_stopped(old(self).layers@)
            }),
            final(self).param_defaults == old(self).param_defaults,
            final(self).paused == old(self).paused,
    {
        if (Scalar { bits: 0 }).lt(fade_out_secs) {
            fade_actions(&mut self.layers, fade_out_secs);
            return;
        }
        let ghost before = self.layers@;
        let ghost want = actions_stopped(before);
        let mut i: usize = 1;
        while i < self.layers.len()
            invariant
                want == actions_stopped(before),
                self.layers@.len() == before.len(),
                1 <= i,
                forall|j: int| 0 <= j < i && j < before.len() ==> self.layers@[j] == want[j],
                forall|j: int| i <= j < before.len() ==> self.layers@[j] == before[j],
                self.param_defaults == old(self).param_defaults,
                self.paused == old(self).paused,
            decreases self.layers@.len() - i,
        {
            let l = self.layers[i];
            if l.playing {
                self.layers.set(i, stop(&l));
            }
            i = i + 1;
        }
        assert(self.layers@ =~= want);
    }

    /// Stops everything (including idle).
    pub fn stop_all(&mut self)
        ensures
            final(self).layers@ == all_stopped(old(self).layers@),
            final(self).param_defaults == old(self).param_defaults,
            final(self).paused == old(self).paused,
    {
        let ghost before = self.layers@;
        let ghost want = all_stopped(before);
        let mut i: usize = 0;
        while i < self.layers.len()
            invariant
                want == all_stopped(before),
                self.layers@.len() == before.len(),
                forall|j: int| 0 <= j < i && j < before.len() ==> self.layers@[j] == want[j],
                forall|j: int| i <= j < before.len() ==> self.layers@[j] == before[j],
                self.param_defaults == old(self).param_defaults,
                self.paused == old(self).paused,
            decreases self.layers@.len() - i,
        {
            let l = self.layers[i];
            self.layers.set(i, stop(&l));
            i = i + 1;
        }
        assert(self.layers@ =~= want);
    }
}

/// Resuming undoes a pause.
pub proof fn lemma_resume_undoes_pause(c: InxAnimationController)
    requires
        !c.paused,
    ensures
        c.frozen(true).frozen(false) == c,
{
}

/// Stopping the actions leaves the idle layer alone.
pub proof fn lemma_idle_goes_on(layers: Seq<AnimationLayer>, fade: Scalar)
    requires
        layers.len() > 0,
    ensures
        actions_fading(layers, fade)[0] == layers[0],
        actions_stopped(layers)[0] == layers[0],
{
}

/// Stopping the actions without a fade leaves no action that plays; with a fade,
/// every action that plays fades out.
pub proof fn lemma_actions_end(layers: Seq<AnimationLayer>, fade: Scalar, i: int)
    requires
        1 <= i < layers.len(),
    ensures
        !actions_stopped(layers)[i].playing,
        actions_fading(layers, fade)[i].playing ==> actions_fading(
            layers,
            fade,
        )[i].fade is FadingOut,
{
}

/// A layer that is started plays its animation from the beginning, at normal speed: at
/// full weight, or, where there is time to fade, from nothing.
pub proof fn lemma_start_is_the_beginning(animation: u64, looping: bool, fade: Scalar)
    ensures
        ({
            let l = started(animation, looping, fade);
            &&& l.animation == animation && l.looping == looping && l.playing
            &&& l.time.value() == 0 && l.speed.value() == crate::scalar::unit()
            &&& (Scalar { bits: 0 }).less(fade) ==> {
                &&& l.weight.value() == 0
                &&& l.fade matches FadeState::FadingIn { duration, elapsed }
                &&& duration == fade && elapsed.value() == 0
            }
            &&& !(Scalar { bits: 0 }).less(fade) ==> l.weight.value() == crate::scalar::unit()
                && l.fade == FadeState::Steady
        }),
{
    crate::exact::lemma_one();
    crate::exact::lemma_zero_value(Scalar { bits: 0 });
}

/// Fading out changes nothing but the fade: a layer goes on from the weight that it
/// has. Silencing changes nothing but that the layer no longer plays or counts.
pub proof fn lemma_fade_keeps_the_rest(l: AnimationLayer, duration: Scalar)
    ensures
        ({
            let f = fading_out(l, duration);
            let s = stopped(l);
            &&& f.animation == l.animation && f.time == l.time && f.weight == l.weight && f.playing
                == l.playing && f.looping == l.looping && f.speed == l.speed
            &&& f.fade matches FadeState::FadingOut { duration: d, elapsed, start_weight }
            &&& d == duration && elapsed.value() == 0 && start_weight == l.weight
            &&& s.animation == l.animation && s.time == l.time && s.looping == l.looping && s.speed
                == l.speed && s.fade == l.fade
            &&& !s.playing && s.weight.value() == 0
        }),
{
    crate::exact::lemma_zero_value(Scalar { bits: 0 });
}

/// Silent layers are added only where a layer is missing, and only behind the others.
pub proof fn lemma_filled_keeps_layers(layers: Seq<AnimationLayer>, at: int, i: int)
    requires
        0 <= at,
        0 <= i < filled(layers, at).len(),
    ensures
        filled(layers, at).len() > at,
        filled(layers, at).len() == layers.len() || filled(layers, at).len() == at + 1,
        i < layers.len() ==> filled(layers, at)[i] == layers[i],
        i >= layers.len() ==> !filled(layers, at)[i].playing && filled(
            layers,
            at,
        )[i].weight.value() == 0,
{
    crate::exact::lemma_zero_value(Scalar { bits: 0 });
}

} // verus!
