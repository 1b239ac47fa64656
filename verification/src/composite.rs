//! Composite groups: how they are realised, and the render targets of those that
//! need one.

use crate::arith;
use crate::blend::BlendMode;
use crate::exact;
use crate::id_map;
use crate::scalar;
use crate::scalar::{Scalar, MICRO, ONE};
use crate::slots::Slots;
use vstd::arithmetic::power2::pow2;
use vstd::prelude::*;

verus! {

/// Sides of pooled render targets, in pixels.
pub const COMPOSITE_RT_BUCKETS: [u32; 6] = [64, 128, 256, 512, 1024, 2048];

/// Largest side of a render target. Larger boxes are clamped to it.
pub const COMPOSITE_RT_MAX: u32 = 2048;

/// Render layer of parts that only exist inside the render target of a
/// composite. No camera renders it.
pub const COMPOSITE_ONLY_LAYER: usize = 31;

/// Overlap verdict of the exporter for a composite that is no identity.
#[derive(Debug, Clone, Copy, PartialEq, Eq, Structural)]
pub enum InxComposeHint {
    /// Children proven pairwise disjoint at every sampled pose.
    ChildrenDisjoint,
    /// Children overlap at some pose, or the analysis was inconclusive.
    ChildrenOverlap,
}

/// How a composite group is realised.
#[derive(Debug, Clone, Copy, PartialEq, Eq, Structural)]
pub enum ComposeMode {
    /// Identity composite: its children are drawn in place, next to each other
    /// in depth.
    Grouping,
    /// The blend of the group is applied to each child.
    PerChildBlend,
    /// The children are drawn into a render target, and that is blended.
    NeedsRt,
}

/// Configuration of a composite group.
#[derive(Debug, Clone, Copy)]
pub struct InxCompositeGroup {
    /// Blend mode for the entire group.
    pub blend_mode: BlendMode,
    /// Opacity of the group.
    pub opacity: Scalar,
    /// Tint of the group.
    pub tint: [Scalar; 3],
    /// Screen tint of the group.
    pub screen_tint: [Scalar; 3],
    /// Alpha threshold of masks in this group.
    pub mask_threshold: Scalar,
    /// Padding around the box of the group, in puppet units.
    pub padding: Scalar,
    /// Depth of the finished group.
    pub zsort: Scalar,
}

/// The group that changes nothing.
pub open spec fn plain_group() -> InxCompositeGroup {
    let zero = arith::num(0);
    let one = arith::num(ONE);
    InxCompositeGroup {
        blend_mode: BlendMode::Normal,
        opacity: one,
        tint: [one, one, one],
        screen_tint: [zero, zero, zero],
        mask_threshold: arith::num(arith::HALF),
        padding: arith::num(0x4100_0000),
        zsort: zero,
    }
}

impl Default for InxCompositeGroup {
    /// The group that changes nothing, with a padding of 8 units.
    fn default() -> (r: InxCompositeGroup)
        ensures
            r == plain_group(),
    {
        let zero = Scalar { bits: 0 };
        let one = Scalar { bits: ONE };
        InxCompositeGroup {
            blend_mode: BlendMode::Normal,
            opacity: one,
            tint: [one, one, one],
            screen_tint: [zero, zero, zero],
            mask_threshold: Scalar { bits: arith::HALF },
            padding: Scalar { bits: 0x4100_0000 },
            zsort: zero,
        }
    }
}

/// Within 1e-6 of a target.
pub open spec fn near(x: Scalar, target: Scalar) -> bool {
    let gap = x.minus(target).absolute();
    gap.less(arith::num(MICRO)) || gap.same(arith::num(MICRO))
}

pub open spec fn all_near(x: [Scalar; 3], target: Scalar) -> bool {
    near(x[0], target) && near(x[1], target) && near(x[2], target)
}

/// The group changes nothing: normal blend, full opacity, no tint.
pub open spec fn is_identity(group: InxCompositeGroup) -> bool {
    &&& group.blend_mode == BlendMode::Normal
    &&& group.opacity.minus(arith::num(ONE)).absolute().less(arith::num(MICRO))
    &&& all_near(group.tint, arith::num(ONE))
    &&& all_near(group.screen_tint, arith::num(0))
}

/// How a group is realised: in place if it changes nothing, child by child if
/// the children are proven disjoint, and in a render target otherwise.
pub open spec fn mode_of(group: InxCompositeGroup, hint: Option<InxComposeHint>) -> ComposeMode {
    if is_identity(group) {
        ComposeMode::Grouping
    } else if hint == Some(InxComposeHint::ChildrenDisjoint) {
        ComposeMode::PerChildBlend
    } else {
        ComposeMode::NeedsRt
    }
}

fn is_near(x: Scalar, target: Scalar) -> (r: bool)
    ensures
        r == near(x, target),
{
    x.sub(target).abs().le(Scalar { bits: MICRO })
}

fn are_near(x: &[Scalar; 3], target: Scalar) -> (r: bool)
    ensures
        r == all_near(*x, target),
{
    is_near(x[0], target) && is_near(x[1], target) && is_near(x[2], target)
}

/// Classifies a composite from its parameters and the exporter's verdict.
pub fn classify(group: &InxCompositeGroup, hint: Option<InxComposeHint>) -> (r: ComposeMode)
    ensures
        r == mode_of(*group, hint),
{
    let one = Scalar { bits: ONE };
    let identity = group.blend_mode == BlendMode::Normal && group.opacity.sub(one).abs().lt(
        Scalar { bits: MICRO },
    ) && are_near(&group.tint, one) && are_near(&group.screen_tint, Scalar { bits: 0 });
    if identity {
        ComposeMode::Grouping
    } else {
        match hint {
            Some(InxComposeHint::ChildrenDisjoint) => ComposeMode::PerChildBlend,
            _ => ComposeMode::NeedsRt,
        }
    }
}

/// The mode reads what was drawn before.
pub open spec fn reads_destination(mode: BlendMode) -> bool {
    mode == BlendMode::ClipToLower || mode == BlendMode::SliceFromLower
}

/// Drawn in place, a child that reads what was drawn before would read the whole
/// scene. So a group with such a child needs a render target. `members` holds,
/// for each part, its group and its blend mode.
pub fn upgrade_composite_mode_for_dst_reading_children(
    group: u64,
    mode: ComposeMode,
    members: &Vec<(u64, BlendMode)>,
) -> (r: ComposeMode)
    ensures
        r == (if exists|i: int|
            0 <= i < members@.len() && (#[trigger] members@[i]).0 == group && reads_destination(
                members@[i].1,
            ) {
            ComposeMode::NeedsRt
        } else {
            mode
        }),
{
    let mut i: usize = 0;
    while i < members.len()
        invariant
            i <= members@.len(),
            forall|j: int|
                0 <= j < i ==> !((#[trigger] members@[j]).0 == group && reads_destination(
                    members@[j].1,
                )),
        decreases members@.len() - i,
    {
        let (tag, blend) = members[i];
        if tag == group && (blend == BlendMode::ClipToLower || blend
            == BlendMode::SliceFromLower) {
            assert(members@[i as int].0 == group);
            return ComposeMode::NeedsRt;
        }
        i = i + 1;
    }
    mode
}

/// Whether a part has to move to [`COMPOSITE_ONLY_LAYER`]: it is in a group that
/// is drawn into a render target, and must not be drawn twice.
pub fn isolate_needs_rt_children(group: Option<ComposeMode>, isolated: bool) -> (r: bool)
    ensures
        r == (!isolated && group == Some(ComposeMode::NeedsRt)),
{
    !isolated && match group {
        Some(ComposeMode::NeedsRt) => true,
        _ => false,
    }
}

/// Whether a part counts as visible though no camera sees it: its group is drawn
/// into a render target and is itself not hidden.
pub fn force_composite_member_visibility(group: Option<(ComposeMode, bool)>) -> (r: bool)
    ensures
        r == (group == Some((ComposeMode::NeedsRt, true))),
{
    match group {
        Some((ComposeMode::NeedsRt, shown)) => shown,
        _ => false,
    }
}

/// Pixel format of a render target.
#[derive(Debug, Clone, Copy, PartialEq, Eq, Structural)]
pub enum RtFormat {
    /// Values are stored as they are.
    Rgba8Unorm,
    /// Values are encoded when written.
    Rgba8UnormSrgb,
}

/// The format for a compositing space. Gamma-encoded values must not be encoded
/// again.
pub fn rt_format(srgb_compositing: bool) -> (r: RtFormat)
    ensures
        r == (if srgb_compositing {
            RtFormat::Rgba8Unorm
        } else {
            RtFormat::Rgba8UnormSrgb
        }),
{
    if srgb_compositing {
        RtFormat::Rgba8Unorm
    } else {
        RtFormat::Rgba8UnormSrgb
    }
}

/// The smallest side of a render target that holds a box, or else the largest
/// side there is.
pub open spec fn bucket_of(side: u32) -> u32 {
    if side <= 64 {
        64
    } else if side <= 128 {
        128
    } else if side <= 256 {
        256
    } else if side <= 512 {
        512
    } else if side <= 1024 {
        1024
    } else {
        2048
    }
}

/// What a pool holds.
pub struct PoolState {
    /// Handles that can be handed out, by side.
    pub free: Map<u64, Seq<u64>>,
    /// Handles in use, with their sides.
    pub in_flight: Seq<(u64, u32)>,
    /// Whether a box that is too large has been seen.
    pub warned: bool,
    /// Whether compositing is gamma-encoded.
    pub srgb: bool,
}

/// Square render targets that composites share. A handle is in use from
/// [`CompositeRtPool::acquire`] to [`CompositeRtPool::release_frame`], then free
/// for any composite of its size.
pub struct CompositeRtPool {
    free: Slots<Vec<u64>>,
    in_flight: Vec<(u64, u32)>,
    warned_oversize: bool,
    srgb_compositing: bool,
}

pub open spec fn lists(m: Map<u64, Vec<u64>>) -> Map<u64, Seq<u64>> {
    m.map_values(|v: Vec<u64>| v@)
}

impl View for CompositeRtPool {
    type V = PoolState;

    closed spec fn view(&self) -> PoolState {
        PoolState {
            free: lists(self.free@),
            in_flight: self.in_flight@,
            warned: self.warned_oversize,
            srgb: self.srgb_compositing,
        }
    }
}

/// The free handles of a side.
pub open spec fn free_at(free: Map<u64, Seq<u64>>, bucket: u64) -> Seq<u64> {
    match id_map::found(free, bucket) {
        Some(list) => list,
        None => Seq::empty(),
    }
}

/// The pool after a handle has been acquired, the handle, and whether it is the
/// fresh one. The handle freed last goes out first.
pub open spec fn acquired(pool: PoolState, side: u32, fresh: u64) -> (PoolState, u64, bool) {
    let bucket = bucket_of(side);
    let list = free_at(pool.free, bucket as u64);
    let handle = if list.len() > 0 {
        list.last()
    } else {
        fresh
    };
    (
        PoolState {
            free: if list.len() > 0 {
                pool.free.insert(bucket as u64, list.drop_last())
            } else {
                pool.free
            },
            in_flight: pool.in_flight.push((handle, bucket)),
            warned: pool.warned || side > COMPOSITE_RT_MAX,
            ..pool
        },
        handle,
        list.len() == 0,
    )
}

/// The free handles with the first `k` of the handles in use given back.
pub open spec fn returned(
    free: Map<u64, Seq<u64>>,
    in_flight: Seq<(u64, u32)>,
    k: nat,
) -> Map<u64, Seq<u64>>
    decreases k,
{
    if k == 0 {
        free
    } else {
        let before = returned(free, in_flight, (k - 1) as nat);
        let (handle, bucket) = in_flight[k - 1];
        before.insert(bucket as u64, free_at(before, bucket as u64).push(handle))
    }
}

/// The pool with no handle in use.
pub open spec fn released(pool: PoolState) -> PoolState {
    PoolState {
        free: returned(pool.free, pool.in_flight, pool.in_flight.len()),
        in_flight: Seq::empty(),
        ..pool
    }
}

/// The pool for a compositing space. When the space changes all handles are
/// dropped: none outlives its format.
pub open spec fn respaced(pool: PoolState, srgb: bool) -> PoolState {
    if pool.srgb == srgb {
        pool
    } else {
        PoolState { free: Map::empty(), in_flight: Seq::empty(), srgb, ..pool }
    }
}

impl CompositeRtPool {
    pub closed spec fn wf(&self) -> bool {
        self.free.wf()
    }

    /// An empty pool.
    pub fn new() -> (r: Self)
        ensures
            r.wf(),
            r@ == (PoolState {
                free: Map::empty(),
                in_flight: Seq::empty(),
                warned: false,
                srgb: false,
            }),
    {
        let r = CompositeRtPool {
            free: Slots::new(),
            in_flight: Vec::new(),
            warned_oversize: false,
            srgb_compositing: false,
        };
        assert(lists(r.free@) =~= Map::<u64, Seq<u64>>::empty());
        r
    }

    /// Whether a box that is too large has been seen.
    pub fn warned_oversize(&self) -> (r: bool)
        ensures
            r == self@.warned,
    {
        self.warned_oversize
    }

    /// Picks the smallest side that holds a box of `side` pixels; sides above
    /// [`COMPOSITE_RT_MAX`] are clamped to it.
    pub fn bucket_for(&mut self, side: u32) -> (r: u32)
        requires
            old(self).wf(),
        ensures
            final(self).wf(),
            r == bucket_of(side),
            final(self)@ == (PoolState {
                warned: old(self)@.warned || side > COMPOSITE_RT_MAX,
                ..old(self)@
            }),
    {
        if side > COMPOSITE_RT_MAX {
            self.warned_oversize = true;
        }
        let buckets = COMPOSITE_RT_BUCKETS;
        let mut i: usize = 0;
        while i < 5 && buckets[i] < side
            invariant
                i <= 5,
                buckets@ == COMPOSITE_RT_BUCKETS@,
                i == 0 || buckets@[i - 1] < side,
            decreases 5 - i,
        {
            i = i + 1;
        }
        buckets[i]
    }

    /// Acquires a handle of a render target for a box of `side` pixels: a free
    /// one, or else `fresh`, whose render target is then to be made.
    pub fn acquire(&mut self, side: u32, fresh: u64) -> (r: (u64, bool))
        requires
            old(self).wf(),
        ensures
            final(self).wf(),
            (final(self)@, r.0, r.1) == acquired(old(self)@, side, fresh),
    {
        let bucket: u32 = self.bucket_for(side);
        let ghost held = self.free@;
        let mut created = true;
        let mut handle: u64 = fresh;
        let mut rest: Vec<u64> = Vec::new();
        if let Some(list) = self.free.get(bucket as u64) {
            let n: usize = list.len();
            if n > 0 {
                handle = list[n - 1];
                rest = copy_handles(list, n - 1);
                created = false;
            }
        }
        if !created {
            let ghost left = rest@;
            self.free.set(bucket as u64, rest);
            assert(lists(self.free@) =~= lists(held).insert(bucket as u64, left));
        }
        self.in_flight.push((handle, bucket));
        (handle, created)
    }

    /// Sets the compositing space.
    pub fn set_srgb_compositing(&mut self, srgb: bool)
        requires
            old(self).wf(),
        ensures
            final(self).wf(),
            final(self)@ == respaced(old(self)@, srgb),
    {
        if self.srgb_compositing != srgb {
            self.srgb_compositing = srgb;
            self.free = Slots::new();
            self.in_flight = Vec::new();
            assert(lists(self.free@) =~= Map::<u64, Seq<u64>>::empty());
        }
    }

    /// The format of the render targets that the pool hands out.
    pub fn format(&self) -> (r: RtFormat)
        ensures
            r == (if self@.srgb {
                RtFormat::Rgba8Unorm
            } else {
                RtFormat::Rgba8UnormSrgb
            }),
    {
        rt_format(self.srgb_compositing)
    }

    /// Gives all handles in use back.
    pub fn release_frame(&mut self)
        requires
            old(self).wf(),
        ensures
            final(self).wf(),
            final(self)@ == released(old(self)@),
    {
        let ghost start = self@;
        let mut k: usize = 0;
        while k < self.in_flight.len()
            invariant
                self.wf(),
                k <= start.in_flight.len(),
                self.in_flight@ == start.in_flight,
                self.warned_oversize == start.warned,
                self.srgb_compositing == start.srgb,
                lists(self.free@) == returned(start.free, start.in_flight, k as nat),
            decreases start.in_flight.len() - k,
        {
            let (handle, bucket) = self.in_flight[k];
            let ghost held = self.free@;
            let mut list = match self.free.get(bucket as u64) {
                Some(list) => copy_handles(list, list.len()),
                None => Vec::new(),
            };
            assert(list@ == free_at(lists(held), bucket as u64));
            list.push(handle);
            let ghost grown = list@;
            self.free.set(bucket as u64, list);
            assert(lists(self.free@) =~= lists(held).insert(bucket as u64, grown));
            k = k + 1;
        }
        self.in_flight = Vec::new();
    }
}

fn copy_handles(list: &Vec<u64>, n: usize) -> (r: Vec<u64>)
    requires
        n <= list@.len(),
    ensures
        r@ == list@.take(n as int),
{
    let mut r: Vec<u64> = Vec::new();
    let mut i: usize = 0;
    while i < n
        invariant
            i <= n,
            n <= list@.len(),
            r@ == list@.take(i as int),
        decreases n - i,
    {
        r.push(list[i]);
        i = i + 1;
        assert(r@ =~= list@.take(i as int));
    }
    r
}

/// The chosen side is one of the sides, it holds the box unless that is too large,
/// and no smaller side does.
pub proof fn lemma_bucket_fits(side: u32, i: int)
    requires
        0 <= i < 6,
    ensures
        COMPOSITE_RT_BUCKETS@.contains(bucket_of(side)),
        side <= COMPOSITE_RT_MAX ==> bucket_of(side) >= side,
        side > COMPOSITE_RT_MAX ==> bucket_of(side) == COMPOSITE_RT_MAX,
        COMPOSITE_RT_BUCKETS[i] < bucket_of(side) ==> COMPOSITE_RT_BUCKETS[i] < side,
{
    let b = COMPOSITE_RT_BUCKETS@;
    assert(b[0] == 64 && b[1] == 128 && b[2] == 256 && b[3] == 512 && b[4] == 1024 && b[5] == 2048);
}

/// No handle is in the pool twice.
pub open spec fn unique_handles(free: Map<u64, Seq<u64>>, in_flight: Seq<(u64, u32)>) -> bool {
    &&& forall|i: int, j: int|
        0 <= i < j < in_flight.len() ==> (#[trigger] in_flight[i]).0 != (#[trigger] in_flight[j]).0
    &&& forall|b: u64, i: int, c: u64, j: int|
        #![trigger free[b][i], free[c][j]]
        free.dom().contains(b) && free.dom().contains(c) && 0 <= i < free[b].len() && 0 <= j
            < free[c].len() && (b != c || i != j) ==> free[b][i] != free[c][j]
    &&& forall|b: u64, i: int, j: int|
        #![trigger free[b][i], in_flight[j]]
        free.dom().contains(b) && 0 <= i < free[b].len() && 0 <= j < in_flight.len() ==> free[b][i]
            != in_flight[j].0
}

/// The pool knows nothing of a handle.
pub open spec fn unknown(pool: PoolState, h: u64) -> bool {
    &&& forall|j: int| 0 <= j < pool.in_flight.len() ==> (#[trigger] pool.in_flight[j]).0 != h
    &&& forall|b: u64, i: int|
        #![trigger pool.free[b][i]]
        pool.free.dom().contains(b) && 0 <= i < pool.free[b].len() ==> pool.free[b][i] != h
}

/// A handle that is in use is not handed out again.
pub proof fn lemma_acquired_once(pool: PoolState, side: u32, fresh: u64, j: int)
    requires
        unique_handles(pool.free, pool.in_flight),
        unknown(pool, fresh),
        0 <= j < pool.in_flight.len(),
    ensures
        acquired(pool, side, fresh).1 != pool.in_flight[j].0,
{
    let bucket = bucket_of(side) as u64;
    let list = free_at(pool.free, bucket);
    if list.len() > 0 {
        assert(pool.free[bucket][list.len() - 1] == list.last());
    }
}

/// Acquiring keeps the handles in the pool apart.
pub proof fn lemma_acquire_keeps_unique(pool: PoolState, side: u32, fresh: u64)
    requires
        unique_handles(pool.free, pool.in_flight),
        unknown(pool, fresh),
    ensures
        unique_handles(
            acquired(pool, side, fresh).0.free,
            acquired(pool, side, fresh).0.in_flight,
        ),
{
    let (next, handle, _) = acquired(pool, side, fresh);
    let bucket = bucket_of(side) as u64;
    let list = free_at(pool.free, bucket);
    let last = list.len() - 1;
    assert forall|b: u64, i: int, c: u64, j: int|
        #![trigger next.free[b][i], next.free[c][j]]
        next.free.dom().contains(b) && next.free.dom().contains(c) && 0 <= i < next.free[b].len()
            && 0 <= j < next.free[c].len() && (b != c || i != j) implies next.free[b][i]
        != next.free[c][j] by {
        assert(next.free[b][i] == pool.free[b][i]);
        assert(next.free[c][j] == pool.free[c][j]);
    }
    assert forall|b: u64, i: int, j: int|
        #![trigger next.free[b][i], next.in_flight[j]]
        next.free.dom().contains(b) && 0 <= i < next.free[b].len() && 0 <= j
            < next.in_flight.len() implies next.free[b][i] != next.in_flight[j].0 by {
        assert(next.free[b][i] == pool.free[b][i]);
        if j == pool.in_flight.len() {
            if list.len() > 0 {
                assert(pool.free[bucket][last] == handle);
            }
        } else {
            assert(next.in_flight[j] == pool.in_flight[j]);
        }
    }
    assert forall|i: int, j: int| 0 <= i < j < next.in_flight.len() implies (
    #[trigger] next.in_flight[i]).0 != (#[trigger] next.in_flight[j]).0 by {
        assert(next.in_flight[i] == pool.in_flight[i]);
        if j < pool.in_flight.len() {
            assert(next.in_flight[j] == pool.in_flight[j]);
        } else {
            lemma_acquired_once(pool, side, fresh, i);
        }
    }
}

/// Giving the first `k` handles back keeps the handles apart.
proof fn lemma_return_keeps_unique(free: Map<u64, Seq<u64>>, in_flight: Seq<(u64, u32)>, k: nat)
    requires
        unique_handles(free, in_flight),
        k <= in_flight.len(),
    ensures
        unique_handles(returned(free, in_flight, k), in_flight.skip(k as int)),
    decreases k,
{
    if k == 0 {
        assert(in_flight.skip(0) =~= in_flight);
    } else {
        lemma_return_keeps_unique(free, in_flight, (k - 1) as nat);
        let before = returned(free, in_flight, (k - 1) as nat);
        let flying = in_flight.skip(k - 1);
        let now = returned(free, in_flight, k);
        let left = in_flight.skip(k as int);
        let (handle, bucket) = in_flight[k - 1];
        let b0 = bucket as u64;
        let n = free_at(before, b0).len() as int;
        assert(flying[0] == in_flight[k - 1]);
        assert forall|i: int| 0 <= i < left.len() implies left[i] == flying[i + 1] by {}
        assert forall|b: u64, i: int|
            now.dom().contains(b) && 0 <= i < now[b].len() && !(b == b0 && i
                == n) implies #[trigger] now[b][i] == before[b][i] && before.dom().contains(b) && i
            < before[b].len() by {}
        assert(now[b0][n] == handle);
        assert forall|b: u64, i: int, c: u64, j: int|
            #![trigger now[b][i], now[c][j]]
            now.dom().contains(b) && now.dom().contains(c) && 0 <= i < now[b].len() && 0 <= j
                < now[c].len() && (b != c || i != j) implies now[b][i] != now[c][j] by {
            if b == b0 && i == n {
                assert(now[c][j] == before[c][j]);
                assert(before[c][j] != flying[0].0);
            } else if c == b0 && j == n {
                assert(now[b][i] == before[b][i]);
                assert(before[b][i] != flying[0].0);
            } else {
                assert(now[b][i] == before[b][i] && now[c][j] == before[c][j]);
            }
        }
        assert forall|b: u64, i: int, j: int|
            #![trigger now[b][i], left[j]]
            now.dom().contains(b) && 0 <= i < now[b].len() && 0 <= j < left.len() implies now[b][i]
            != left[j].0 by {
            assert(left[j] == flying[j + 1]);
            if b == b0 && i == n {
                assert(flying[0].0 != flying[j + 1].0);
            } else {
                assert(now[b][i] == before[b][i]);
            }
        }
        assert forall|i: int, j: int| 0 <= i < j < left.len() implies (#[trigger] left[i]).0 != (
        #[trigger] left[j]).0 by {
            assert(left[i] == flying[i + 1] && left[j] == flying[j + 1]);
        }
    }
}

/// Releasing keeps the handles in the pool apart.
pub proof fn lemma_release_keeps_unique(pool: PoolState)
    requires
        unique_handles(pool.free, pool.in_flight),
    ensures
        unique_handles(released(pool).free, released(pool).in_flight),
{
    lemma_return_keeps_unique(pool.free, pool.in_flight, pool.in_flight.len());
    assert(pool.in_flight.skip(pool.in_flight.len() as int) =~= released(pool).in_flight);
}

/// The handle acquired last comes back first: after a release, the same side is
/// answered with the handle that held it last, and nothing is made.
pub proof fn lemma_release_then_acquire(pool: PoolState, side: u32, fresh: u64)
    requires
        pool.in_flight.len() > 0,
        pool.in_flight.last().1 == bucket_of(side),
    ensures
        acquired(released(pool), side, fresh).1 == pool.in_flight.last().0,
        !acquired(released(pool), side, fresh).2,
{
}

/// A group that changes nothing is drawn in place, whatever the exporter says: normal
/// blend, full opacity, white tint and black screen tint.
pub proof fn lemma_plain_group_is_in_place(
    group: InxCompositeGroup,
    hint: Option<InxComposeHint>,
)
    requires
        group.blend_mode == BlendMode::Normal,
        group.opacity == arith::num(ONE),
        forall|j: int| 0 <= j < 3 ==> #[trigger] group.tint[j] == arith::num(ONE),
        forall|j: int| 0 <= j < 3 ==> (#[trigger] group.screen_tint[j]).mag() == 0,
    ensures
        mode_of(group, hint) == ComposeMode::Grouping,
{
    let one = arith::num(ONE);
    let zero = arith::num(0);
    let micro = arith::num(MICRO);
    arith::lemma_minus_self(one);
    arith::lemma_magnitudes(0, micro.mag());
    exact::lemma_zero_value(one.minus(one));
    assert forall|a: Scalar| a.mag() == 0 implies #[trigger] a.absolute().less(micro) by {
        exact::lemma_zero_value(a);
        exact::lemma_zero_value(a.absolute());
    }
    assert(group.tint[0] == one && group.tint[1] == one && group.tint[2] == one);
    exact::lemma_plus_zero(group.screen_tint[0], zero);
    exact::lemma_plus_zero(group.screen_tint[1], zero);
    exact::lemma_plus_zero(group.screen_tint[2], zero);
}

/// A number of sixteenths that is not a whole one is not near it.
proof fn lemma_far(x: Scalar, n: int, target: Scalar, t: int)
    requires
        exact::stands_for(x, n, 145),
        exact::stands_for(target, t, 145),
        -0x10_0000 <= n <= 0x10_0000,
        0 <= t <= 16,
        n != t,
    ensures
        !near(x, target),
        !x.minus(target).absolute().less(arith::num(MICRO)),
{
    let d = x.minus(target);
    let micro = arith::num(MICRO);
    exact::lemma_difference(x, n, target, t, 145);
    vstd::arithmetic::power2::lemma_pow2_adds(39, 106);
    vstd::arithmetic::power2::lemma_pow2_pos(106);
    vstd::arithmetic::power2::lemma_pow2_pos(145);
    vstd::arithmetic::power2::lemma2_to64_rest();
    arith::lemma_packs(0x86_37bd, 106, MICRO as int);
    let p = pow2(106) as int;
    let q = pow2(145) as int;
    assert(0x86_37bd * p < 0x80_0000_0000 * p) by (nonlinear_arith)
        requires
            p > 0,
    ;
    assert(micro.value() < q);
    let k = n - t;
    assert(arith::absolute(k * q) >= q) by (nonlinear_arith)
        requires
            k != 0,
            q > 0,
    ;
    scalar::lemma_value_order(d.absolute(), micro);
    assert(d.absolute().value() >= q);
}

/// A group that can be seen to change something is not drawn in place, and its exporter
/// decides: child by child where the children are disjoint, in a render target
/// otherwise. It changes something by its blend mode, or by a number that is not full
/// opacity, white tint or black screen tint. Such a number counts sixteenths.
pub proof fn lemma_seen_group_is_realised(
    group: InxCompositeGroup,
    hint: Option<InxComposeHint>,
    j: int,
    n: int,
)
    requires
        0 <= j < 3,
        -0x10_0000 <= n <= 0x10_0000,
        ({
            ||| group.blend_mode != BlendMode::Normal
            ||| n != 16 && exact::stands_for(group.opacity, n, 145)
            ||| n != 16 && exact::stands_for(group.tint[j], n, 145)
            ||| n != 0 && exact::stands_for(group.screen_tint[j], n, 145)
        }),
    ensures
        hint == Some(InxComposeHint::ChildrenDisjoint) ==> mode_of(group, hint)
            == ComposeMode::PerChildBlend,
        hint != Some(InxComposeHint::ChildrenDisjoint) ==> mode_of(group, hint)
            == ComposeMode::NeedsRt,
{
    let one = arith::num(ONE);
    let zero = arith::num(0);
    exact::lemma_small();
    vstd::arithmetic::power2::lemma2_to64();
    exact::lemma_finer(one, 1, 149, 4);
    exact::lemma_zero_value(zero);
    assert(exact::stands_for(zero, 0, 145));
    if n != 16 && exact::stands_for(group.opacity, n, 145) {
        lemma_far(group.opacity, n, one, 16);
    }
    if n != 16 && exact::stands_for(group.tint[j], n, 145) {
        lemma_far(group.tint[j], n, one, 16);
    }
    if n != 0 && exact::stands_for(group.screen_tint[j], n, 145) {
        lemma_far(group.screen_tint[j], n, zero, 0);
    }
}

} // verus!
