//! What happens to composites in a frame: render targets are given out, and the
//! groups that need one are listed for drawing.

use crate::arith;
use crate::exact;
use crate::blend::BlendMode;
use crate::composite;
use crate::composite::{ComposeMode, CompositeRtPool, InxCompositeGroup, PoolState};
use crate::composite_bbox;
use crate::composite_bbox::{InxCompositeBbox, Rect};
use crate::id_map::IdMap;
use crate::order;
use crate::order::{order_by_number, stable_order};
use crate::scalar::Scalar;
use vstd::arithmetic::power2::pow2;
use vstd::prelude::*;

verus! {

/// Not larger than zero.
pub open spec fn flat(x: Scalar) -> bool {
    x.less(arith::num(0)) || x.same(arith::num(0))
}

/// The box has an area to draw.
pub open spec fn drawable(rect: Rect) -> bool {
    let size = composite_bbox::size_of_rect(rect);
    !flat(size[0]) && !flat(size[1])
}

fn is_drawable(rect: &Rect) -> (r: bool)
    ensures
        r == drawable(*rect),
{
    let size = rect.size();
    let zero = Scalar { bits: 0 };
    !size[0].le(zero) && !size[1].le(zero)
}

/// The longer side of a box in whole pixels.
pub open spec fn side_of(rect: Rect) -> u32 {
    let size = composite_bbox::size_of_rect(rect);
    size[0].larger(size[1]).raised() as u32
}

/// The pool, and the handles made so far with their sides.
pub struct RtFrame {
    pub pool: PoolState,
    pub made: Seq<(u64, u32)>,
}

/// The group is given a render target.
pub open spec fn wants_rt(mode: ComposeMode, bbox: InxCompositeBbox) -> bool {
    mode == ComposeMode::NeedsRt && drawable(bbox.rect)
}

/// The frame after one group.
pub open spec fn after_group(
    f: RtFrame,
    mode: ComposeMode,
    bbox: InxCompositeBbox,
    fresh: u64,
) -> RtFrame {
    if wants_rt(mode, bbox) {
        let side = side_of(bbox.rect);
        let (pool, handle, created) = composite::acquired(
            f.pool,
            side,
            (fresh + f.made.len()) as u64,
        );
        RtFrame {
            pool,
            made: if created {
                f.made.push((handle, composite::bucket_of(side)))
            } else {
                f.made
            },
        }
    } else {
        f
    }
}

/// The box of a group after it, in a frame.
pub open spec fn bbox_after(
    f: RtFrame,
    mode: ComposeMode,
    bbox: InxCompositeBbox,
    fresh: u64,
) -> InxCompositeBbox {
    if wants_rt(mode, bbox) {
        let side = side_of(bbox.rect);
        InxCompositeBbox {
            rt: Some(composite::acquired(f.pool, side, (fresh + f.made.len()) as u64).1),
            rt_side: composite::bucket_of(side),
            ..bbox
        }
    } else if mode == ComposeMode::NeedsRt {
        InxCompositeBbox { rt: None, ..bbox }
    } else {
        bbox
    }
}

/// The frame after the first `k` groups.
pub open spec fn after_groups(
    start: PoolState,
    groups: Seq<(ComposeMode, InxCompositeBbox)>,
    fresh: u64,
    k: nat,
) -> RtFrame
    decreases k,
{
    if k == 0 {
        RtFrame { pool: start, made: Seq::empty() }
    } else {
        after_group(
            after_groups(start, groups, fresh, (k - 1) as nat),
            groups[k - 1].0,
            groups[k - 1].1,
            fresh,
        )
    }
}

proof fn lemma_made_at_most(
    start: PoolState,
    groups: Seq<(ComposeMode, InxCompositeBbox)>,
    fresh: u64,
    k: nat,
)
    ensures
        after_groups(start, groups, fresh, k).made.len() <= k,
    decreases k,
{
    if k > 0 {
        lemma_made_at_most(start, groups, fresh, (k - 1) as nat);
    }
}

/// Gives every group that needs a render target, and has something to draw, one
/// from the pool. The targets of the last frame are given back first, so a group
/// that stays as it is gets the same one. Handles from `fresh` on stand for
/// targets that are still to be made; these are returned with their sides.
pub fn acquire_composite_rts(
    pool: &mut CompositeRtPool,
    srgb_compositing: bool,
    groups: &mut Vec<(ComposeMode, InxCompositeBbox)>,
    fresh: u64,
) -> (r: Vec<(u64, u32)>)
    requires
        old(pool).wf(),
        fresh + old(groups)@.len() <= u64::MAX,
    ensures
        final(pool).wf(),
        ({
            let start = composite::released(composite::respaced(old(pool)@, srgb_compositing));
            let all = old(groups)@;
            &&& final(pool)@ == after_groups(start, all, fresh, all.len()).pool
            &&& r@ == after_groups(start, all, fresh, all.len()).made
            &&& final(groups)@.len() == all.len()
            &&& forall|i: int|
                0 <= i < all.len() ==> (#[trigger] final(groups)@[i]).0 == all[i].0
                    && final(groups)@[i].1 == bbox_after(
                    after_groups(start, all, fresh, i as nat),
                    all[i].0,
                    all[i].1,
                    fresh,
                )
        }),
{
    let ghost all = groups@;
    let ghost begun = composite::released(composite::respaced(pool@, srgb_compositing));
    pool.set_srgb_compositing(srgb_compositing);
    pool.release_frame();
    let mut made: Vec<(u64, u32)> = Vec::new();
    let mut i: usize = 0;
    while i < groups.len()
        invariant
            pool.wf(),
            fresh + all.len() <= u64::MAX,
            groups@.len() == all.len(),
            i <= all.len(),
            pool@ == after_groups(begun, all, fresh, i as nat).pool,
            made@ == after_groups(begun, all, fresh, i as nat).made,
            forall|j: int| i <= j < all.len() ==> groups@[j] == all[j],
            forall|j: int|
                0 <= j < i ==> (#[trigger] groups@[j]).0 == all[j].0 && groups@[j].1 == bbox_after(
                    after_groups(begun, all, fresh, j as nat),
                    all[j].0,
                    all[j].1,
                    fresh,
                ),
        decreases all.len() - i,
    {
        let (mode, mut bbox) = groups[i];
        proof {
            lemma_made_at_most(begun, all, fresh, i as nat);
        }
        if mode == ComposeMode::NeedsRt {
            if is_drawable(&bbox.rect) {
                let size = bbox.rect.size();
                let side: u32 = size[0].max(size[1]).ceil_to_u32();
                let bucket: u32 = pool.bucket_for(side);
                let next: u64 = fresh + made.len() as u64;
                let (handle, created) = pool.acquire(side, next);
                if created {
                    made.push((handle, bucket));
                }
                bbox.rt = Some(handle);
                bbox.rt_side = bucket;
            } else {
                bbox.rt = None;
            }
            groups.set(i, (mode, bbox));
        }
        i = i + 1;
    }
    made
}

/// A group as it stands in the scene.
#[derive(Debug, Clone, Copy)]
pub struct GroupView {
    pub entity: u64,
    pub group: InxCompositeGroup,
    pub mode: ComposeMode,
    pub bbox: InxCompositeBbox,
    /// The group that it is in.
    pub outer: Option<u64>,
}

/// A member of a group as it stands in the scene.
#[derive(Debug, Clone, Copy, PartialEq, Eq, Structural)]
pub struct MemberView {
    pub entity: u64,
    /// The entity that stands for it in the renderer.
    pub render: Option<u64>,
    pub group: u64,
    /// Depth in the world.
    pub z: Scalar,
}

/// A group that is drawn into a render target.
#[derive(Debug, Clone)]
pub struct ExtractedComposite {
    pub group_entity: u64,
    /// How many groups it is nested in.
    pub depth: u32,
    pub blend_mode: BlendMode,
    pub opacity: Scalar,
    pub tint: [Scalar; 3],
    pub screen_tint: [Scalar; 3],
    pub zsort: Scalar,
    pub bbox: Rect,
    /// Render target; none where there is nothing to draw.
    pub rt: Option<u64>,
    pub rt_side: u32,
    /// Members by rising depth, as (renderer, scene) entities.
    pub children: Vec<(Option<u64>, u64)>,
}

/// The group that each of the first `k` groups is in.
pub open spec fn outers(groups: Seq<GroupView>, k: nat) -> Map<u64, u64>
    decreases k,
{
    if k == 0 {
        Map::empty()
    } else {
        let before = outers(groups, (k - 1) as nat);
        match groups[k - 1].outer {
            Some(outer) => before.insert(groups[k - 1].entity, outer),
            None => before,
        }
    }
}

/// How many groups an entity is nested in, as far as `most` of them.
pub open spec fn nested_in(outer: Map<u64, u64>, e: u64, most: nat) -> nat
    decreases most,
{
    if most > 0 && outer.dom().contains(e) {
        1 + nested_in(outer, outer[e], (most - 1) as nat)
    } else {
        0
    }
}

/// Nestings are counted up to this depth; a circle would have none.
pub const MOST_NESTED: u32 = 65;

fn depth_of(outer: &IdMap, start: u64) -> (r: u32)
    ensures
        r == nested_in(outer@, start, MOST_NESTED as nat),
{
    let mut e: u64 = start;
    let mut depth: u32 = 0;
    let mut going = true;
    while going && depth < MOST_NESTED
        invariant
            depth <= MOST_NESTED,
            going ==> nested_in(outer@, start, MOST_NESTED as nat) == depth + nested_in(
                outer@,
                e,
                (MOST_NESTED - depth) as nat,
            ),
            !going ==> nested_in(outer@, start, MOST_NESTED as nat) == depth,
        decreases MOST_NESTED - depth, going as int,
    {
        match outer.get(e) {
            Some(next) => {
                e = next;
                depth = depth + 1;
            },
            None => {
                going = false;
            },
        }
    }
    depth
}

/// The members of a group among the first `k`, in the order in which they stand.
pub open spec fn members_of(members: Seq<MemberView>, group: u64, k: nat) -> Seq<MemberView>
    decreases k,
{
    if k == 0 {
        Seq::empty()
    } else {
        let before = members_of(members, group, (k - 1) as nat);
        if members[k - 1].group == group {
            before.push(members[k - 1])
        } else {
            before
        }
    }
}

pub open spec fn depths(members: Seq<MemberView>) -> Seq<Scalar> {
    members.map_values(|m: MemberView| m.z)
}

/// The members by rising depth.
pub open spec fn by_depth(members: Seq<MemberView>, children: Seq<(Option<u64>, u64)>) -> bool {
    exists|p: Seq<int>| #[trigger]
        order::ordered(depths(members), false, p) && children == Seq::new(
            members.len(),
            |i: int| (members[p[i]].render, members[p[i]].entity),
        )
}

/// A group as it is listed for drawing.
pub open spec fn extracts(
    outer: Map<u64, u64>,
    members: Seq<MemberView>,
    g: GroupView,
    c: ExtractedComposite,
) -> bool {
    &&& c.group_entity == g.entity
    &&& c.depth == nested_in(outer, g.entity, MOST_NESTED as nat)
    &&& c.blend_mode == g.group.blend_mode
    &&& c.opacity == g.group.opacity
    &&& c.tint == g.group.tint
    &&& c.screen_tint == g.group.screen_tint
    &&& c.zsort == g.group.zsort
    &&& c.bbox == g.bbox.rect
    &&& c.rt == g.bbox.rt
    &&& c.rt_side == g.bbox.rt_side
    &&& by_depth(members_of(members, g.entity, members.len()), c.children@)
}

/// The groups among the first `k` that are drawn into a render target.
pub open spec fn targeted(groups: Seq<GroupView>, k: nat) -> Seq<GroupView>
    decreases k,
{
    if k == 0 {
        Seq::empty()
    } else {
        let before = targeted(groups, (k - 1) as nat);
        if groups[k - 1].mode == ComposeMode::NeedsRt {
            before.push(groups[k - 1])
        } else {
            before
        }
    }
}

/// The negated nesting depths of groups.
pub open spec fn heights(outer: Map<u64, u64>, groups: Seq<GroupView>) -> Seq<int> {
    groups.map_values(|g: GroupView| -(nested_in(outer, g.entity, MOST_NESTED as nat) as int))
}

/// The list holds the groups that are drawn into a render target, the deepest
/// first.
pub open spec fn lists_composites(
    groups: Seq<GroupView>,
    members: Seq<MemberView>,
    r: Seq<ExtractedComposite>,
) -> bool {
    let outer = outers(groups, groups.len());
    let ts = targeted(groups, groups.len());
    exists|p: Seq<int>|
        {
            &&& #[trigger] order::ascends(heights(outer, ts), p)
            &&& r.len() == ts.len()
            &&& forall|i: int|
                0 <= i < r.len() ==> extracts(outer, members, ts[p[i]], #[trigger] r[i])
        }
}

fn group_children(members: &Vec<MemberView>, group: u64) -> (r: Vec<(Option<u64>, u64)>)
    requires
        forall|i: int| 0 <= i < members@.len() ==> !(#[trigger] members@[i]).z.nan(),
    ensures
        by_depth(members_of(members@, group, members@.len()), r@),
{
    let mut own: Vec<MemberView> = Vec::new();
    let mut zs: Vec<Scalar> = Vec::new();
    let mut i: usize = 0;
    while i < members.len()
        invariant
            forall|j: int| 0 <= j < members@.len() ==> !(#[trigger] members@[j]).z.nan(),
            i <= members@.len(),
            own@ == members_of(members@, group, i as nat),
            zs@ == depths(own@),
            forall|j: int| 0 <= j < zs@.len() ==> !(#[trigger] zs@[j]).nan(),
        decreases members@.len() - i,
    {
        let m = members[i];
        if m.group == group {
            own.push(m);
            zs.push(m.z);
            assert(zs@ =~= depths(own@));
        }
        i = i + 1;
    }
    let p = order_by_number(&zs, false);
    let ghost places = order::places(p@);
    let ghost want = Seq::new(
        own@.len(),
        |i: int| (own@[places[i]].render, own@[places[i]].entity),
    );
    let mut r: Vec<(Option<u64>, u64)> = Vec::new();
    let mut k: usize = 0;
    while k < p.len()
        invariant
            places == order::places(p@),
            order::ordered(depths(own@), false, places),
            p@.len() == own@.len(),
            want == Seq::new(
                own@.len(),
                |i: int| (own@[places[i]].render, own@[places[i]].entity),
            ),
            k <= p@.len(),
            r@ == want.take(k as int),
        decreases p@.len() - k,
    {
        assert(places[k as int] == p@[k as int]);
        let m = own[p[k]];
        r.push((m.render, m.entity));
        k = k + 1;
        assert(r@ =~= want.take(k as int));
    }
    assert(r@ =~= want);
    r
}

fn copy_children(c: &Vec<(Option<u64>, u64)>) -> (r: Vec<(Option<u64>, u64)>)
    ensures
        r@ == c@,
{
    let mut r: Vec<(Option<u64>, u64)> = Vec::new();
    let mut i: usize = 0;
    while i < c.len()
        invariant
            i <= c@.len(),
            r@ == c@.take(i as int),
        decreases c@.len() - i,
    {
        r.push(c[i]);
        i = i + 1;
        assert(r@ =~= c@.take(i as int));
    }
    assert(r@ =~= c@);
    r
}

fn copy_composite(c: &ExtractedComposite) -> (r: ExtractedComposite)
    ensures
        r.children@ == c.children@,
        r == (ExtractedComposite { children: r.children, ..*c }),
{
    ExtractedComposite {
        group_entity: c.group_entity,
        depth: c.depth,
        blend_mode: c.blend_mode,
        opacity: c.opacity,
        tint: c.tint,
        screen_tint: c.screen_tint,
        zsort: c.zsort,
        bbox: c.bbox,
        rt: c.rt,
        rt_side: c.rt_side,
        children: copy_children(&c.children),
    }
}

/// Lists the groups that are drawn into a render target, each with its members
/// back to front. The deepest come first: a nested group is ready when the group
/// around it is drawn.
pub fn extract_composites(groups: &Vec<GroupView>, members: &Vec<MemberView>) -> (r: Vec<
    ExtractedComposite,
>)
    requires
        forall|i: int| 0 <= i < members@.len() ==> !(#[trigger] members@[i]).z.nan(),
    ensures
        lists_composites(groups@, members@, r@),
{
    let mut outer = IdMap::new();
    let mut i: usize = 0;
    while i < groups.len()
        invariant
            i <= groups@.len(),
            outer@ == outers(groups@, i as nat),
        decreases groups@.len() - i,
    {
        if let Some(o) = groups[i].outer {
            outer.insert(groups[i].entity, o);
        }
        i = i + 1;
    }
    let mut found: Vec<ExtractedComposite> = Vec::new();
    let mut keys: Vec<i128> = Vec::new();
    let ghost tie = outer@;
    let mut k: usize = 0;
    while k < groups.len()
        invariant
            forall|i: int| 0 <= i < members@.len() ==> !(#[trigger] members@[i]).z.nan(),
            tie == outer@,
            k <= groups@.len(),
            found@.len() == targeted(groups@, k as nat).len(),
            keys@.len() == found@.len(),
            forall|j: int|
                0 <= j < keys@.len() ==> #[trigger] keys@[j] == -(nested_in(
                    tie,
                    targeted(groups@, k as nat)[j].entity,
                    MOST_NESTED as nat,
                ) as int),
            forall|j: int|
                0 <= j < found@.len() ==> extracts(
                    tie,
                    members@,
                    targeted(groups@, k as nat)[j],
                    #[trigger] found@[j],
                ),
        decreases groups@.len() - k,
    {
        let g = groups[k];
        if g.mode == ComposeMode::NeedsRt {
            let depth: u32 = depth_of(&outer, g.entity);
            keys.push(-(depth as i128));
            found.push(
                ExtractedComposite {
                    group_entity: g.entity,
                    depth,
                    blend_mode: g.group.blend_mode,
                    opacity: g.group.opacity,
                    tint: g.group.tint,
                    screen_tint: g.group.screen_tint,
                    zsort: g.group.zsort,
                    bbox: g.bbox.rect,
                    rt: g.bbox.rt,
                    rt_side: g.bbox.rt_side,
                    children: group_children(members, g.entity),
                },
            );
        }
        k = k + 1;
    }
    let p = stable_order(&keys);
    let ghost places = order::places(p@);
    let ghost ts = targeted(groups@, groups@.len());
    assert(keys@.map_values(|x: i128| x as int) =~= heights(tie, ts));
    let mut r: Vec<ExtractedComposite> = Vec::new();
    let mut n: usize = 0;
    while n < p.len()
        invariant
            places == order::places(p@),
            order::ascends(heights(tie, ts), places),
            p@.len() == ts.len(),
            found@.len() == ts.len(),
            forall|j: int|
                0 <= j < found@.len() ==> extracts(tie, members@, ts[j], #[trigger] found@[j]),
            n <= p@.len(),
            r@.len() == n,
            forall|j: int|
                0 <= j < n ==> extracts(tie, members@, ts[places[j]], #[trigger] r@[j]),
        decreases p@.len() - n,
    {
        assert(places[n as int] == p@[n as int]);
        let c = copy_composite(&found[p[n]]);
        assert(extracts(tie, members@, ts[places[n as int]], c));
        r.push(c);
        n = n + 1;
    }
    r
}

proof fn lemma_nested_settles(outer: Map<u64, u64>, e: u64, most: nat)
    requires
        nested_in(outer, e, most) < most,
    ensures
        nested_in(outer, e, most + 1) == nested_in(outer, e, most),
    decreases most,
{
    if outer.dom().contains(e) {
        lemma_nested_settles(outer, outer[e], (most - 1) as nat);
    }
}

/// A group is listed before the group that it is nested in, unless it is nested
/// too deep to tell.
pub proof fn lemma_inner_first(
    groups: Seq<GroupView>,
    members: Seq<MemberView>,
    r: Seq<ExtractedComposite>,
    i: int,
    j: int,
)
    requires
        lists_composites(groups, members, r),
        0 <= i < r.len(),
        0 <= j < r.len(),
        outers(groups, groups.len()).dom().contains(r[i].group_entity),
        outers(groups, groups.len())[r[i].group_entity] == r[j].group_entity,
        r[i].depth < MOST_NESTED,
    ensures
        i < j,
        r[i].depth == r[j].depth + 1,
{
    let outer = outers(groups, groups.len());
    let ts = targeted(groups, groups.len());
    let p = choose|p: Seq<int>|
        {
            &&& #[trigger] order::ascends(heights(outer, ts), p)
            &&& r.len() == ts.len()
            &&& forall|i: int|
                0 <= i < r.len() ==> extracts(outer, members, ts[p[i]], #[trigger] r[i])
        };
    assert(extracts(outer, members, ts[p[i]], r[i]));
    assert(extracts(outer, members, ts[p[j]], r[j]));
    let e = r[i].group_entity;
    assert(nested_in(outer, e, MOST_NESTED as nat) == 1 + nested_in(outer, outer[e], 64));
    lemma_nested_settles(outer, outer[e], 64);
    if j < i {
        assert(heights(outer, ts)[p[j]] <= heights(outer, ts)[p[i]]);
    }
}

/// Where and how a group is drawn into its render target.
#[derive(Debug, Clone)]
pub struct CompositeView {
    pub group: u64,
    /// Its place in the list.
    pub index: usize,
    /// Center of its box.
    pub center: [Scalar; 2],
    /// What is seen of the scene around the center: left, right, bottom, top.
    pub frame: [Scalar; 4],
    pub rt_side: u32,
    /// Members by rising scene entity.
    pub entities: Vec<(Option<u64>, u64)>,
}

/// The composite is drawn: it has a render target, and something to draw.
pub open spec fn is_drawn(c: ExtractedComposite) -> bool {
    c.rt is Some && drawable(c.bbox)
}

/// The composites among the first `k` that are drawn, by their places.
pub open spec fn drawn(list: Seq<ExtractedComposite>, k: nat) -> Seq<int>
    decreases k,
{
    if k == 0 {
        Seq::empty()
    } else {
        let before = drawn(list, (k - 1) as nat);
        if is_drawn(list[k - 1]) {
            before.push(k - 1)
        } else {
            before
        }
    }
}

/// The scene entities of members, as numbers.
pub open spec fn scene_ids(children: Seq<(Option<u64>, u64)>) -> Seq<int> {
    children.map_values(|c: (Option<u64>, u64)| c.1 as int)
}

/// The view frames the box of a composite.
pub open spec fn views_composite(c: ExtractedComposite, at: int, v: CompositeView) -> bool {
    let size = composite_bbox::size_of_rect(c.bbox);
    let half = arith::num(arith::HALF);
    let two = arith::num(arith::TWO);
    &&& v.group == c.group_entity
    &&& v.index == at
    &&& v.center == [
        half.times(c.bbox.min[0].plus(c.bbox.max[0])),
        half.times(c.bbox.min[1].plus(c.bbox.max[1])),
    ]
    &&& v.frame == [
        size[0].negated().over(two),
        size[0].over(two),
        size[1].negated().over(two),
        size[1].over(two),
    ]
    &&& v.rt_side == c.rt_side
    &&& exists|p: Seq<int>| #[trigger]
        order::ascends(scene_ids(c.children@), p) && v.entities@ == Seq::new(
            c.children@.len(),
            |i: int| c.children@[p[i]],
        )
}

fn sort_by_scene(children: &Vec<(Option<u64>, u64)>) -> (r: Vec<(Option<u64>, u64)>)
    ensures
        exists|p: Seq<int>| #[trigger]
            order::ascends(scene_ids(children@), p) && r@ == Seq::new(
                children@.len(),
                |i: int| children@[p[i]],
            ),
{
    let mut keys: Vec<i128> = Vec::new();
    let mut i: usize = 0;
    while i < children.len()
        invariant
            i <= children@.len(),
            keys@.len() == i,
            forall|j: int| 0 <= j < i ==> #[trigger] keys@[j] == children@[j].1,
        decreases children@.len() - i,
    {
        keys.push(children[i].1 as i128);
        i = i + 1;
    }
    assert(keys@.map_values(|x: i128| x as int) =~= scene_ids(children@));
    let p = stable_order(&keys);
    let ghost places = order::places(p@);
    let ghost want = Seq::new(children@.len(), |i: int| children@[places[i]]);
    let mut r: Vec<(Option<u64>, u64)> = Vec::new();
    let mut k: usize = 0;
    while k < p.len()
        invariant
            places == order::places(p@),
            order::ascends(scene_ids(children@), places),
            p@.len() == children@.len(),
            want == Seq::new(children@.len(), |i: int| children@[places[i]]),
            k <= p@.len(),
            r@ == want.take(k as int),
        decreases p@.len() - k,
    {
        assert(places[k as int] == p@[k as int]);
        r.push(children[p[k]]);
        k = k + 1;
        assert(r@ =~= want.take(k as int));
    }
    assert(r@ =~= want);
    r
}

/// Makes a view for every composite that is drawn.
pub fn queue_composite_views(extracted: &Vec<ExtractedComposite>) -> (r: Vec<CompositeView>)
    ensures
        r@.len() == drawn(extracted@, extracted@.len()).len(),
        forall|i: int|
            0 <= i < r@.len() ==> views_composite(
                extracted@[drawn(extracted@, extracted@.len())[i]],
                drawn(extracted@, extracted@.len())[i],
                #[trigger] r@[i],
            ),
{
    let half = Scalar { bits: arith::HALF };
    let two = Scalar { bits: arith::TWO };
    let mut r: Vec<CompositeView> = Vec::new();
    let mut k: usize = 0;
    while k < extracted.len()
        invariant
            half == arith::num(arith::HALF),
            two == arith::num(arith::TWO),
            k <= extracted@.len(),
            r@.len() == drawn(extracted@, k as nat).len(),
            forall|i: int|
                0 <= i < r@.len() ==> views_composite(
                    extracted@[drawn(extracted@, k as nat)[i]],
                    drawn(extracted@, k as nat)[i],
                    #[trigger] r@[i],
                ),
        decreases extracted@.len() - k,
    {
        let c = &extracted[k];
        if c.rt.is_some() && is_drawable(&c.bbox) {
            let size = c.bbox.size();
            r.push(
                CompositeView {
                    group: c.group_entity,
                    index: k,
                    center: [
                        half.mul(c.bbox.min[0].add(c.bbox.max[0])),
                        half.mul(c.bbox.min[1].add(c.bbox.max[1])),
                    ],
                    frame: [
                        size[0].neg().div(two),
                        size[0].div(two),
                        size[1].neg().div(two),
                        size[1].div(two),
                    ],
                    rt_side: c.rt_side,
                    entities: sort_by_scene(&c.children),
                },
            );
        }
        k = k + 1;
    }
    r
}

/// A group has one of the views.
pub open spec fn viewed(views: Seq<CompositeView>, group: u64) -> bool {
    exists|i: int| 0 <= i < views.len() && (#[trigger] views[i]).group == group
}

/// Whether the view that a group has had is kept: it is drawn again.
pub fn keeps_view(group: u64, views: &Vec<CompositeView>) -> (r: bool)
    ensures
        r == viewed(views@, group),
{
    let mut i: usize = 0;
    while i < views.len()
        invariant
            i <= views@.len(),
            forall|j: int| 0 <= j < i ==> (#[trigger] views@[j]).group != group,
        decreases views@.len() - i,
    {
        if views[i].group == group {
            assert(views@[i as int].group == group);
            return true;
        }
        i = i + 1;
    }
    false
}

/// The sides among the first `k` composites that have a render target but no
/// depth texture yet, each once.
pub open spec fn missing_sides(have: Seq<u32>, list: Seq<ExtractedComposite>, k: nat) -> Seq<u32>
    decreases k,
{
    if k == 0 {
        Seq::empty()
    } else {
        let before = missing_sides(have, list, (k - 1) as nat);
        let c = list[k - 1];
        if c.rt is Some && !have.contains(c.rt_side) && !before.contains(c.rt_side) {
            before.push(c.rt_side)
        } else {
            before
        }
    }
}

fn has_side(sides: &Vec<u32>, side: u32) -> (r: bool)
    ensures
        r == sides@.contains(side),
{
    let mut i: usize = 0;
    while i < sides.len()
        invariant
            i <= sides@.len(),
            forall|j: int| 0 <= j < i ==> sides@[j] != side,
        decreases sides@.len() - i,
    {
        if sides[i] == side {
            return true;
        }
        i = i + 1;
    }
    false
}

/// The sides for which a depth texture has to be made.
pub fn prepare_composite_depth_textures(
    have: &Vec<u32>,
    extracted: &Vec<ExtractedComposite>,
) -> (r: Vec<u32>)
    ensures
        r@ == missing_sides(have@, extracted@, extracted@.len()),
{
    let mut r: Vec<u32> = Vec::new();
    let mut k: usize = 0;
    while k < extracted.len()
        invariant
            k <= extracted@.len(),
            r@ == missing_sides(have@, extracted@, k as nat),
        decreases extracted@.len() - k,
    {
        let c = &extracted[k];
        if c.rt.is_some() && !has_side(have, c.rt_side) && !has_side(&r, c.rt_side) {
            r.push(c.rt_side);
        }
        k = k + 1;
    }
    r
}

/// Afterwards every render target has a depth texture of its side.
pub proof fn lemma_depth_for_each(have: Seq<u32>, list: Seq<ExtractedComposite>, k: nat, i: int)
    requires
        0 <= i < k <= list.len(),
        list[i].rt is Some,
    ensures
        have.contains(list[i].rt_side) || missing_sides(have, list, k).contains(list[i].rt_side),
    decreases k,
{
    let before = missing_sides(have, list, (k - 1) as nat);
    let now = missing_sides(have, list, k);
    if i < k - 1 {
        lemma_depth_for_each(have, list, (k - 1) as nat, i);
        if before.contains(list[i].rt_side) {
            let at = before.index_of(list[i].rt_side);
            assert(now[at] == list[i].rt_side);
        }
    } else if !have.contains(list[i].rt_side) && !before.contains(list[i].rt_side) {
        assert(now.last() == list[i].rt_side);
    }
}

/// A box has an area to draw where its lower sides lie below its upper ones, and its
/// longer side takes as many whole pixels as it takes to hold it. The sides are `a` to
/// `b` and `c` to `d`, in sixteenths of a pixel.
pub proof fn lemma_side_is_whole(rect: Rect, a: int, b: int, c: int, d: int, n: int)
    requires
        exact::stands_for(rect.min[0], a, 145),
        exact::stands_for(rect.max[0], b, 145),
        exact::stands_for(rect.min[1], c, 145),
        exact::stands_for(rect.max[1], d, 145),
        -0x10_0000 <= a <= 0x10_0000,
        -0x10_0000 <= b <= 0x10_0000,
        -0x10_0000 <= c <= 0x10_0000,
        -0x10_0000 <= d <= 0x10_0000,
        16 * (n - 1) < (if b - a < d - c {
            d - c
        } else {
            b - a
        }) <= 16 * n,
        1 <= n,
    ensures
        drawable(rect) <==> a < b && c < d,
        side_of(rect) == n,
{
    let size = composite_bbox::size_of_rect(rect);
    exact::lemma_difference(rect.max[0], b, rect.min[0], a, 145);
    exact::lemma_difference(rect.max[1], d, rect.min[1], c, 145);
    let q = pow2(145) as int;
    vstd::arithmetic::power2::lemma_pow2_pos(145);
    vstd::arithmetic::power2::lemma_pow2_adds(4, 145);
    vstd::arithmetic::power2::lemma2_to64();
    exact::lemma_zero_value(arith::num(0));
    let (x, y) = (b - a, d - c);
    assert(x < y <==> x * q < y * q) by (nonlinear_arith)
        requires
            q > 0,
    ;
    assert(x > 0 <==> x * q > 0) by (nonlinear_arith)
        requires
            q > 0,
    ;
    assert(y > 0 <==> y * q > 0) by (nonlinear_arith)
        requires
            q > 0,
    ;
    let z = if x < y {
        y
    } else {
        x
    };
    let longer = size[0].larger(size[1]);
    assert(longer.value() == z * q);
    let u = 16 * q;
    assert(crate::scalar::unit() == u);
    assert(n * u <= z * q + u - 1 < n * u + u) by (nonlinear_arith)
        requires
            16 * (n - 1) + 1 <= z <= 16 * n,
            u == 16 * q,
            q > 0,
    ;
    vstd::arithmetic::div_mod::lemma_fundamental_div_mod_converse(
        z * q + u - 1,
        u,
        n,
        z * q + u - 1 - n * u,
    );
    assert(z * q > 0) by (nonlinear_arith)
        requires
            z > 0,
            q > 0,
    ;
}

/// The view of a composite shows its box: the middle is the center of the box, and from
/// there each side of the frame lies where that side of the box does. The box runs from
/// `m - k` to `m + k` along an axis, with few digits.
pub proof fn lemma_view_shows_box(
    c: ExtractedComposite,
    at: int,
    v: CompositeView,
    j: int,
    m: int,
    k: int,
    s: nat,
)
    requires
        views_composite(c, at, v),
        0 <= j < 2,
        exact::stands_for(c.bbox.min[j], m - k, s),
        exact::stands_for(c.bbox.max[j], m + k, s),
        -0x8_0000 <= m <= 0x8_0000,
        -0x8_0000 <= k <= 0x8_0000,
        1 <= s <= 252,
    ensures
        exact::stands_for(v.center[j], m, s),
        exact::stands_for(v.frame[2 * j], -k, s),
        exact::stands_for(v.frame[2 * j + 1], k, s),
        v.group == c.group_entity,
        v.rt_side == c.rt_side,
{
    let half = arith::num(arith::HALF);
    let two = arith::num(arith::TWO);
    let (a, b) = (c.bbox.min[j], c.bbox.max[j]);
    exact::lemma_small();
    exact::lemma_sum(a, m - k, b, m + k, s);
    exact::lemma_product(half, 1, 148, a.plus(b), 2 * m, s);
    exact::lemma_coarser(half.times(a.plus(b)), m, (s - 1) as nat);
    exact::lemma_difference(b, m + k, a, m - k, s);
    let size = b.minus(a);
    exact::lemma_opposite(size, 2 * k, s);
    exact::lemma_quotient(size, k, two, 2, s, 149);
    exact::lemma_quotient(size.negated(), -k, two, 2, s, 149);
}

proof fn lemma_members(members: Seq<MemberView>, group: u64, k: nat, i: int)
    requires
        k <= members.len(),
        0 <= i < members_of(members, group, k).len(),
    ensures
        members_of(members, group, k)[i].group == group,
        members.contains(members_of(members, group, k)[i]),
    decreases k,
{
    let now = members_of(members, group, k);
    let before = members_of(members, group, (k - 1) as nat);
    if i < before.len() {
        lemma_members(members, group, (k - 1) as nat, i);
        assert(now[i] == before[i]);
    } else {
        assert(now[i] == members[k - 1]);
    }
}

/// What a composite draws are members of its group, and of two members the one that is
/// drawn later has no smaller depth.
pub proof fn lemma_members_are_drawn_by_depth(
    outer: Map<u64, u64>,
    members: Seq<MemberView>,
    g: GroupView,
    c: ExtractedComposite,
    i: int,
    j: int,
) -> (w: (MemberView, MemberView))
    requires
        extracts(outer, members, g, c),
        0 <= i < j < c.children@.len(),
    ensures
        members.contains(w.0) && members.contains(w.1),
        w.0.group == g.entity && w.1.group == g.entity,
        c.children@[i] == (w.0.render, w.0.entity),
        c.children@[j] == (w.1.render, w.1.entity),
        w.0.z.value() <= w.1.z.value(),
{
    let ms = members_of(members, g.entity, members.len());
    let p = choose|p: Seq<int>| #[trigger]
        order::ordered(depths(ms), false, p) && c.children@ == Seq::new(
            ms.len(),
            |i: int| (ms[p[i]].render, ms[p[i]].entity),
        );
    assert(order::ordered(depths(ms), false, p));
    assert(0 <= p[i] < ms.len() && 0 <= p[j] < ms.len());
    assert(depths(ms)[p[i]] == ms[p[i]].z && depths(ms)[p[j]] == ms[p[j]].z);
    lemma_members(members, g.entity, members.len(), p[i]);
    lemma_members(members, g.entity, members.len(), p[j]);
    (ms[p[i]], ms[p[j]])
}

/// No depth texture is made twice, and none for a side that has one or that no render
/// target has.
pub proof fn lemma_no_needless_depth(
    have: Seq<u32>,
    list: Seq<ExtractedComposite>,
    k: nat,
    i: int,
    j: int,
) -> (w: int)
    requires
        k <= list.len(),
        0 <= i < missing_sides(have, list, k).len(),
        0 <= j < missing_sides(have, list, k).len(),
    ensures
        missing_sides(have, list, k)[i] == missing_sides(have, list, k)[j] ==> i == j,
        !have.contains(missing_sides(have, list, k)[i]),
        0 <= w < k,
        list[w].rt is Some,
        list[w].rt_side == missing_sides(have, list, k)[i],
    decreases k,
{
    let before = missing_sides(have, list, (k - 1) as nat);
    let now = missing_sides(have, list, k);
    if i < before.len() && j < before.len() {
        assert(now[i] == before[i] && now[j] == before[j]);
        lemma_no_needless_depth(have, list, (k - 1) as nat, i, j)
    } else if i < before.len() {
        assert(now[i] == before[i] && before.contains(before[i]));
        lemma_no_needless_depth(have, list, (k - 1) as nat, i, i)
    } else {
        if j < before.len() {
            assert(now[j] == before[j] && before.contains(before[j]));
        }
        k - 1
    }
}

} // verus!
