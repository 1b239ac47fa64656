//! Resolving the params of a puppet into the poses and deforms of its nodes.

use crate::animation;
use crate::arith;
use crate::exact;
use crate::grid_interpolation;
use crate::grid_interpolation::{
    interpolate_binding, interpolate_binding_deform, is_addressable, DeformAccum, NodeAccum,
};
use crate::id_map;
use crate::mesh_group;
use crate::mesh_group::{carry, InxMeshGroupWarp, MgChildMap};
use crate::model::{InxBindingValues, InxDeform, InxParam};
use crate::param_values::InxParamState;
use crate::scalar::{Scalar, MICRO, ONE};
use crate::slots::Slots;
use vstd::prelude::*;

verus! {

/// The bindings of a puppet with the nodes that they drive.
#[derive(Debug, Clone)]
pub struct InxResolvedBindings {
    /// Params by their position in the list of params; for each, which of its
    /// bindings drives which node.
    pub params: Vec<(u64, Vec<(u32, u64)>)>,
    /// The nodes that have a deform.
    pub deform_nodes: Vec<u64>,
}

/// Authored pose of a node.
#[derive(Debug, Clone, Copy)]
pub struct InxBasePose {
    pub translation: [Scalar; 3],
    /// Quaternion (x, y, z, w).
    pub rotation: [Scalar; 4],
    pub scale: [Scalar; 3],
}

/// What params do to the nodes of a puppet.
pub struct Effects {
    pub poses: Map<u64, NodeAccum>,
    /// The nodes with a pose, in the order in which they got it.
    pub posed: Seq<u64>,
    pub deforms: Map<u64, Seq<[Scalar; 2]>>,
    /// The nodes with a deform of their own, in the order in which they got it.
    pub deformed: Seq<u64>,
}

/// What params do to the nodes of a puppet.
pub struct ParamEffects {
    pub poses: Slots<NodeAccum>,
    /// The nodes with a pose, in the order in which they got it.
    pub posed: Vec<u64>,
    pub deforms: Slots<DeformAccum>,
    /// The nodes with a deform of their own, in the order in which they got it.
    pub deformed: Vec<u64>,
}

pub open spec fn offsets_of(d: Map<u64, DeformAccum>) -> Map<u64, Seq<[Scalar; 2]>> {
    d.map_values(|a: DeformAccum| a.offsets@)
}

impl View for ParamEffects {
    type V = Effects;

    open spec fn view(&self) -> Effects {
        Effects {
            poses: self.poses@,
            posed: self.posed@,
            deforms: offsets_of(self.deforms@),
            deformed: self.deformed@,
        }
    }
}

impl ParamEffects {
    pub open spec fn wf(&self) -> bool {
        self.poses.wf() && self.deforms.wf()
    }
}

/// No effect on any node.
pub open spec fn untouched() -> Effects {
    Effects {
        poses: Map::empty(),
        posed: Seq::empty(),
        deforms: Map::empty(),
        deformed: Seq::empty(),
    }
}

/// `n` times no offset.
pub open spec fn no_offsets(n: nat) -> Seq<[Scalar; 2]> {
    Seq::new(n, |i: int| [arith::num(0), arith::num(0)])
}

/// Offsets added one by one.
pub open spec fn summed(a: Seq<[Scalar; 2]>, b: Seq<[Scalar; 2]>) -> Seq<[Scalar; 2]> {
    Seq::new(a.len(), |i: int| [a[i][0].plus(b[i][0]), a[i][1].plus(b[i][1])])
}

/// What a map holds for an id, or else `n` times no offset.
pub open spec fn offsets_or(d: Map<u64, Seq<[Scalar; 2]>>, id: u64, n: nat) -> Seq<[Scalar; 2]> {
    match id_map::found(d, id) {
        Some(o) => o,
        None => no_offsets(n),
    }
}

/// The effects with those of one binding. Offsets for another number of
/// vertices are not added.
pub open spec fn after_binding(
    e: Effects,
    param: InxParam,
    value: [Scalar; 2],
    binding: u32,
    node: u64,
) -> Effects {
    if binding >= param.bindings@.len() {
        e
    } else {
        let b = param.bindings@[binding as int];
        match b.values {
            InxBindingValues::Transform(_) => {
                let (before, posed) = match id_map::found(e.poses, node) {
                    Some(a) => (a, e.posed),
                    None => (grid_interpolation::no_effect(), e.posed.push(node)),
                };
                Effects {
                    poses: e.poses.insert(
                        node,
                        grid_interpolation::accumulated(
                            before,
                            b.param_name,
                            grid_interpolation::binding_value(param, value, b),
                            param.merge_mode,
                        ),
                    ),
                    posed,
                    ..e
                }
            },
            InxBindingValues::Deform(_) => match grid_interpolation::binding_offsets(
                param,
                value,
                b,
            ) {
                Some(o) => {
                    let before = offsets_or(e.deforms, node, o.len());
                    let next = if before.len() == o.len() {
                        summed(before, o)
                    } else {
                        before
                    };
                    Effects {
                        deforms: e.deforms.insert(node, next),
                        deformed: if e.deforms.dom().contains(node) {
                            e.deformed
                        } else {
                            e.deformed.push(node)
                        },
                        ..e
                    }
                },
                None => e,
            },
            InxBindingValues::Other => e,
        }
    }
}

/// The effects with those of the first `k` bindings of a param.
pub open spec fn after_bindings(
    e: Effects,
    param: InxParam,
    value: [Scalar; 2],
    bindings: Seq<(u32, u64)>,
    k: nat,
) -> Effects
    decreases k,
{
    if k == 0 {
        e
    } else {
        after_binding(
            after_bindings(e, param, value, bindings, (k - 1) as nat),
            param,
            value,
            bindings[k - 1].0,
            bindings[k - 1].1,
        )
    }
}

/// The value of a param: that of the state, or else its default.
pub open spec fn value_in(state: Map<u32, [Scalar; 2]>, param: InxParam) -> [Scalar; 2] {
    match id_map::found(state, param.uuid) {
        Some(v) => v,
        None => param.defaults,
    }
}

/// The effects of the first `k` params. A param that does not exist has none.
pub open spec fn after_params(
    state: Map<u32, [Scalar; 2]>,
    resolved: Seq<(u64, Vec<(u32, u64)>)>,
    params: Seq<InxParam>,
    k: nat,
) -> Effects
    decreases k,
{
    if k == 0 {
        untouched()
    } else {
        let before = after_params(state, resolved, params, (k - 1) as nat);
        let (at, bindings) = resolved[k - 1];
        if at < params.len() {
            let param = params[at as int];
            after_bindings(before, param, value_in(state, param), bindings@, bindings@.len())
        } else {
            before
        }
    }
}

/// The deforms after a group has carried one part.
pub open spec fn after_child(
    d: Map<u64, Seq<[Scalar; 2]>>,
    warp: InxMeshGroupWarp,
    child: MgChildMap,
    offsets: Seq<[Scalar; 2]>,
) -> Map<u64, Seq<[Scalar; 2]>> {
    let own = offsets_or(d, child.entity, child.map@.len());
    d.insert(
        child.entity,
        if own.len() == child.map@.len() {
            mesh_group::carried(own, warp, child, offsets)
        } else {
            own
        },
    )
}

/// The deforms after a group has carried its first `k` parts.
pub open spec fn after_children(
    d: Map<u64, Seq<[Scalar; 2]>>,
    warp: InxMeshGroupWarp,
    offsets: Seq<[Scalar; 2]>,
    k: nat,
) -> Map<u64, Seq<[Scalar; 2]>>
    decreases k,
{
    if k == 0 {
        d
    } else {
        after_child(
            after_children(d, warp, offsets, (k - 1) as nat),
            warp,
            warp.children@[k - 1],
            offsets,
        )
    }
}

/// The deforms after the groups among the first `k` nodes have handed theirs on
/// to the parts below them.
pub open spec fn after_groups(
    d: Map<u64, Seq<[Scalar; 2]>>,
    warps: Map<u64, InxMeshGroupWarp>,
    nodes: Seq<u64>,
    k: nat,
) -> Map<u64, Seq<[Scalar; 2]>>
    decreases k,
{
    if k == 0 {
        d
    } else {
        let before = after_groups(d, warps, nodes, (k - 1) as nat);
        let id = nodes[k - 1];
        if warps.dom().contains(id) && before.dom().contains(id) {
            after_children(
                before.remove(id),
                warps[id],
                before[id],
                warps[id].children@.len(),
            )
        } else {
            before
        }
    }
}

/// The effects of all params, with the deforms of groups handed on.
pub open spec fn applied(
    state: Map<u32, [Scalar; 2]>,
    resolved: Seq<(u64, Vec<(u32, u64)>)>,
    params: Seq<InxParam>,
    warps: Map<u64, InxMeshGroupWarp>,
) -> Effects {
    let e = after_params(state, resolved, params, resolved.len());
    Effects { deforms: after_groups(e.deforms, warps, e.deformed, e.deformed.len()), ..e }
}

/// The data of all bindings that are resolved can be read.
pub open spec fn readable(resolved: Seq<(u64, Vec<(u32, u64)>)>, params: Seq<InxParam>) -> bool {
    forall|p: int, b: int|
        #![trigger resolved[p].1@[b]]
        0 <= p < resolved.len() && 0 <= b < resolved[p].1@.len() && resolved[p].0 < params.len()
            ==> binding_readable(params[resolved[p].0 as int], resolved[p].1@[b].0)
}

pub open spec fn binding_readable(param: InxParam, binding: u32) -> bool {
    binding < param.bindings@.len() ==> grid_interpolation::addressable(
        param,
        param.bindings@[binding as int],
    )
}

/// Whether the data of all bindings that are resolved can be read.
pub fn is_readable(resolved: &InxResolvedBindings, params: &Vec<InxParam>) -> (r: bool)
    ensures
        r == readable(resolved.params@, params@),
{
    let count: usize = params.len();
    let mut p: usize = 0;
    while p < resolved.params.len()
        invariant
            count == params@.len(),
            p <= resolved.params@.len(),
            forall|i: int, b: int|
                #![trigger resolved.params@[i].1@[b]]
                0 <= i < p && 0 <= b < resolved.params@[i].1@.len() && resolved.params@[i].0
                    < params@.len() ==> binding_readable(
                    params@[resolved.params@[i].0 as int],
                    resolved.params@[i].1@[b].0,
                ),
        decreases resolved.params@.len() - p,
    {
        let entry = &resolved.params[p];
        if entry.0 < count as u64 {
            let param = &params[entry.0 as usize];
            let bindings = &entry.1;
            let mut b: usize = 0;
            while b < bindings.len()
                invariant
                    p < resolved.params@.len(),
                    *entry == resolved.params@[p as int],
                    *bindings == entry.1,
                    entry.0 < params@.len(),
                    *param == params@[entry.0 as int],
                    b <= bindings@.len(),
                    forall|j: int|
                        0 <= j < b ==> binding_readable(*param, (#[trigger] bindings@[j]).0),
                decreases bindings@.len() - b,
            {
                let at: u32 = bindings[b].0;
                if (at as usize) < param.bindings.len() {
                    if !is_addressable(param, &param.bindings[at as usize]) {
                        assert(!binding_readable(
                            params@[resolved.params@[p as int].0 as int],
                            resolved.params@[p as int].1@[b as int].0,
                        ));
                        return false;
                    }
                }
                b = b + 1;
            }
        }
        p = p + 1;
    }
    true
}

fn zero_offsets(n: usize) -> (r: Vec<[Scalar; 2]>)
    ensures
        r@ == no_offsets(n as nat),
{
    let mut r: Vec<[Scalar; 2]> = Vec::new();
    let mut i: usize = 0;
    while i < n
        invariant
            i <= n,
            r@ == no_offsets(i as nat),
        decreases n - i,
    {
        r.push([Scalar { bits: 0 }, Scalar { bits: 0 }]);
        i = i + 1;
        assert(r@ =~= no_offsets(i as nat));
    }
    r
}

fn sum_offsets(a: &Vec<[Scalar; 2]>, b: &Vec<[Scalar; 2]>) -> (r: Vec<[Scalar; 2]>)
    requires
        a@.len() == b@.len(),
    ensures
        r@ == summed(a@, b@),
{
    let mut r: Vec<[Scalar; 2]> = Vec::new();
    let mut i: usize = 0;
    while i < a.len()
        invariant
            a@.len() == b@.len(),
            i <= a@.len(),
            r@ == summed(a@, b@).take(i as int),
        decreases a@.len() - i,
    {
        let x = a[i];
        let y = b[i];
        r.push([x[0].add(y[0]), x[1].add(y[1])]);
        i = i + 1;
        assert(r@ =~= summed(a@, b@).take(i as int));
    }
    assert(r@ =~= summed(a@, b@));
    r
}

fn copy_offsets(a: &Vec<[Scalar; 2]>) -> (r: Vec<[Scalar; 2]>)
    ensures
        r@ == a@,
{
    let mut r: Vec<[Scalar; 2]> = Vec::new();
    let mut i: usize = 0;
    while i < a.len()
        invariant
            i <= a@.len(),
            r@ == a@.take(i as int),
        decreases a@.len() - i,
    {
        r.push(a[i]);
        i = i + 1;
        assert(r@ =~= a@.take(i as int));
    }
    assert(r@ =~= a@);
    r
}

impl ParamEffects {
    /// Takes in the effect of one binding on one node.
    fn take_binding(&mut self, param: &InxParam, value: &[Scalar; 2], binding: u32, node: u64)
        requires
            old(self).wf(),
            binding_readable(*param, binding),
        ensures
            final(self).wf(),
            final(self)@ == after_binding(old(self)@, *param, *value, binding, node),
    {
        if binding as usize >= param.bindings.len() {
            return;
        }
        let b = &param.bindings[binding as usize];
        let ghost before = self@;
        match &b.values {
            InxBindingValues::Transform(_) => {
                let amount = interpolate_binding(param, value, b);
                let mut accum = match self.poses.get(node) {
                    Some(a) => *a,
                    None => {
                        self.posed.push(node);
                        NodeAccum::default()
                    },
                };
                accum.accumulate(&b.param_name, amount, param.merge_mode);
                self.poses.set(node, accum);
            },
            InxBindingValues::Deform(_) => {
                if let Some(offsets) = interpolate_binding_deform(param, value, b) {
                    let next = match self.deforms.get(node) {
                        Some(a) => if a.offsets.len() == offsets.len() {
                            sum_offsets(&a.offsets, &offsets)
                        } else {
                            copy_offsets(&a.offsets)
                        },
                        None => {
                            self.deformed.push(node);
                            let zero = zero_offsets(offsets.len());
                            sum_offsets(&zero, &offsets)
                        },
                    };
                    let ghost held = self.deforms@;
                    let ghost placed = next@;
                    self.deforms.set(node, DeformAccum { offsets: next });
                    assert(offsets_of(self.deforms@) =~= offsets_of(held).insert(node, placed));
                }
            },
            InxBindingValues::Other => {},
        }
    }

    /// Lets a group carry one part.
    fn carry_child(
        &mut self,
        warp: &InxMeshGroupWarp,
        child: &MgChildMap,
        offsets: &Vec<[Scalar; 2]>,
    )
        requires
            old(self).wf(),
            mesh_group::corners_exist(warp.lattice_rest@.len() as int, warp.tris@),
            child.map@.len() == child.rest_query@.len(),
        ensures
            final(self).wf(),
            final(self)@ == (Effects {
                deforms: after_child(old(self)@.deforms, *warp, *child, offsets@),
                ..old(self)@
            }),
    {
        let next = match self.deforms.get(child.entity) {
            Some(a) => if a.offsets.len() == child.map.len() {
                carry(&a.offsets, warp, child, offsets)
            } else {
                copy_offsets(&a.offsets)
            },
            None => {
                let zero = zero_offsets(child.map.len());
                carry(&zero, warp, child, offsets)
            },
        };
        let ghost held = self.deforms@;
        let ghost placed = next@;
        self.deforms.set(child.entity, DeformAccum { offsets: next });
        assert(offsets_of(self.deforms@) =~= offsets_of(held).insert(child.entity, placed));
    }

    /// Lets a node, if it is a group with a deform, hand it on.
    fn carry_group(&mut self, warps: &Slots<InxMeshGroupWarp>, id: u64)
        requires
            old(self).wf(),
            warps.wf(),
            forall|g: u64| #[trigger]
                warps@.dom().contains(g) ==> mesh_group::warp_sound(warps@[g]),
        ensures
            final(self).wf(),
            final(self)@ == (Effects {
                deforms: if warps@.dom().contains(id) && old(self)@.deforms.dom().contains(id) {
                    after_children(
                        old(self)@.deforms.remove(id),
                        warps@[id],
                        old(self)@.deforms[id],
                        warps@[id].children@.len(),
                    )
                } else {
                    old(self)@.deforms
                },
                ..old(self)@
            }),
    {
        let warp = match warps.get(id) {
            Some(w) => w,
            None => {
                return;
            },
        };
        let offsets = match self.deforms.get(id) {
            Some(a) => copy_offsets(&a.offsets),
            None => {
                return;
            },
        };
        let ghost start = self@;
        let ghost held = self.deforms@;
        self.deforms.remove(id);
        assert(offsets_of(self.deforms@) =~= offsets_of(held).remove(id));
        let mut k: usize = 0;
        while k < warp.children.len()
            invariant
                self.wf(),
                mesh_group::warp_sound(*warp),
                k <= warp.children@.len(),
                self@ == (Effects {
                    deforms: after_children(start.deforms.remove(id), *warp, offsets@, k as nat),
                    ..start
                }),
            decreases warp.children@.len() - k,
        {
            self.carry_child(warp, &warp.children[k], &offsets);
            k = k + 1;
        }
    }
}

/// Resolves the bindings of a puppet into the effects on its nodes. A param
/// without a value in the state is at its default.
pub fn apply_params_for_puppet(
    state: &InxParamState,
    resolved: &InxResolvedBindings,
    params: &Vec<InxParam>,
    warps: &Slots<InxMeshGroupWarp>,
) -> (r: ParamEffects)
    requires
        readable(resolved.params@, params@),
        warps.wf(),
        forall|g: u64| #[trigger]
            warps@.dom().contains(g) ==> mesh_group::warp_sound(warps@[g]),
    ensures
        r.wf(),
        r@ == applied(state.values@, resolved.params@, params@, warps@),
{
    let mut r = ParamEffects {
        poses: Slots::new(),
        posed: Vec::new(),
        deforms: Slots::new(),
        deformed: Vec::new(),
    };
    assert(offsets_of(r.deforms@) =~= Map::<u64, Seq<[Scalar; 2]>>::empty());
    let mut p: usize = 0;
    while p < resolved.params.len()
        invariant
            readable(resolved.params@, params@),
            r.wf(),
            p <= resolved.params@.len(),
            r@ == after_params(state.values@, resolved.params@, params@, p as nat),
        decreases resolved.params@.len() - p,
    {
        let entry = &resolved.params[p];
        let count: usize = params.len();
        if entry.0 < count as u64 {
            let param = &params[entry.0 as usize];
            let value = match state.values.get(param.uuid) {
                Some(v) => v,
                None => param.defaults,
            };
            let bindings = &entry.1;
            let ghost before = r@;
            let mut b: usize = 0;
            while b < bindings.len()
                invariant
                    readable(resolved.params@, params@),
                    p < resolved.params@.len(),
                    *entry == resolved.params@[p as int],
                    *bindings == entry.1,
                    entry.0 < params@.len(),
                    *param == params@[entry.0 as int],
                    r.wf(),
                    b <= bindings@.len(),
                    r@ == after_bindings(before, *param, value, bindings@, b as nat),
                decreases bindings@.len() - b,
            {
                let (binding, node) = bindings[b];
                assert(resolved.params@[p as int].1@[b as int] == (binding, node));
                r.take_binding(param, &value, binding, node);
                b = b + 1;
            }
        }
        p = p + 1;
    }
    let ghost start = r@;
    let mut k: usize = 0;
    while k < r.deformed.len()
        invariant
            warps.wf(),
            forall|g: u64| #[trigger]
                warps@.dom().contains(g) ==> mesh_group::warp_sound(warps@[g]),
            r.wf(),
            r.deformed@ == start.deformed,
            k <= start.deformed.len(),
            r@ == (Effects {
                deforms: after_groups(start.deforms, warps@, start.deformed, k as nat),
                ..start
            }),
        decreases start.deformed.len() - k,
    {
        let id: u64 = r.deformed[k];
        r.carry_group(warps, id);
        k = k + 1;
    }
    r
}

/// The pose of a node with the effects of params: moved and scaled, and turned
/// by an angle if there is one to tell.
#[derive(Debug, Clone, Copy)]
pub struct BoundPose {
    pub translation: [Scalar; 3],
    pub scale: [Scalar; 3],
    pub turn: Option<Scalar>,
}

/// The authored pose of a node with the effects of params. Y points down in
/// effects and up in poses.
pub open spec fn bound(base: InxBasePose, offsets: NodeAccum) -> BoundPose {
    BoundPose {
        translation: [
            base.translation[0].plus(offsets.tx),
            base.translation[1].minus(offsets.ty),
            base.translation[2].plus(offsets.tz),
        ],
        scale: [
            base.scale[0].times(offsets.sx),
            base.scale[1].times(offsets.sy),
            arith::num(ONE),
        ],
        turn: if arith::num(MICRO).less(offsets.rz.absolute()) {
            Some(offsets.rz.negated())
        } else {
            None
        },
    }
}

/// The authored pose of a node with the effects of params.
pub fn bound_pose(base: &InxBasePose, offsets: &NodeAccum) -> (r: BoundPose)
    ensures
        r == bound(*base, *offsets),
{
    BoundPose {
        translation: [
            base.translation[0].add(offsets.tx),
            base.translation[1].sub(offsets.ty),
            base.translation[2].add(offsets.tz),
        ],
        scale: [
            base.scale[0].mul(offsets.sx),
            base.scale[1].mul(offsets.sy),
            Scalar { bits: ONE },
        ],
        turn: if (Scalar { bits: MICRO }).lt(offsets.rz.abs()) {
            Some(offsets.rz.neg())
        } else {
            None
        },
    }
}

/// Both poses are equal as numbers.
pub open spec fn same_pose(a: InxBasePose, b: InxBasePose) -> bool {
    &&& a.translation[0].same(b.translation[0])
    &&& a.translation[1].same(b.translation[1])
    &&& a.translation[2].same(b.translation[2])
    &&& a.rotation[0].same(b.rotation[0])
    &&& a.rotation[1].same(b.rotation[1])
    &&& a.rotation[2].same(b.rotation[2])
    &&& a.rotation[3].same(b.rotation[3])
    &&& a.scale[0].same(b.scale[0])
    &&& a.scale[1].same(b.scale[1])
    &&& a.scale[2].same(b.scale[2])
}

/// The pose of a node after a write: an equal one stays as it is.
pub open spec fn pose_after(now: InxBasePose, wanted: InxBasePose) -> InxBasePose {
    if same_pose(now, wanted) {
        now
    } else {
        wanted
    }
}

/// Whether a node has to be written to get a pose.
pub fn pose_differs(now: &InxBasePose, wanted: &InxBasePose) -> (r: bool)
    ensures
        r == !same_pose(*now, *wanted),
        pose_after(*now, *wanted) == (if r {
            *wanted
        } else {
            *now
        }),
{
    let (a, b) = (now.translation, wanted.translation);
    let (c, d) = (now.rotation, wanted.rotation);
    let (e, f) = (now.scale, wanted.scale);
    !(a[0].num_eq(b[0]) && a[1].num_eq(b[1]) && a[2].num_eq(b[2]) && c[0].num_eq(d[0])
        && c[1].num_eq(d[1]) && c[2].num_eq(d[2]) && c[3].num_eq(d[3]) && e[0].num_eq(f[0])
        && e[1].num_eq(f[1]) && e[2].num_eq(f[2]))
}

/// The opacity of a material after a write: one that params do not drive, or
/// that is equal, stays as it is.
pub open spec fn opacity_after(now: Scalar, offsets: NodeAccum) -> Scalar {
    if offsets.has_opacity && !now.same(offsets.opacity) {
        offsets.opacity
    } else {
        now
    }
}

/// The opacity to write to a material, if params drive it and it is another.
pub fn opacity_to_write(now: Scalar, offsets: &NodeAccum) -> (r: Option<Scalar>)
    ensures
        r == (if offsets.has_opacity && !now.same(offsets.opacity) {
            Some(offsets.opacity)
        } else {
            None
        }),
        opacity_after(now, *offsets) == (match r {
            Some(o) => o,
            None => now,
        }),
{
    if offsets.has_opacity && !now.num_eq(offsets.opacity) {
        Some(offsets.opacity)
    } else {
        None
    }
}

/// Both lists of offsets are equal as numbers.
pub open spec fn same_offsets(a: Seq<[Scalar; 2]>, b: Seq<[Scalar; 2]>) -> bool {
    a.len() == b.len() && forall|i: int|
        0 <= i < a.len() ==> animation::same_pair(#[trigger] a[i], b[i])
}

fn equal_offsets(a: &Vec<[Scalar; 2]>, b: &Vec<[Scalar; 2]>) -> (r: bool)
    ensures
        r == same_offsets(a@, b@),
{
    if a.len() != b.len() {
        return false;
    }
    let mut i: usize = 0;
    while i < a.len()
        invariant
            a@.len() == b@.len(),
            i <= a@.len(),
            forall|j: int| 0 <= j < i ==> animation::same_pair(#[trigger] a@[j], b@[j]),
        decreases a@.len() - i,
    {
        let x = a[i];
        let y = b[i];
        if !(x[0].num_eq(y[0]) && x[1].num_eq(y[1])) {
            assert(!animation::same_pair(a@[i as int], b@[i as int]));
            return false;
        }
        i = i + 1;
    }
    true
}

/// New offsets leave those of a node as they are: they are equal, or an empty
/// list, or none while the node has no deform.
pub open spec fn deform_stays(now: Seq<[Scalar; 2]>, new: Option<Seq<[Scalar; 2]>>) -> bool {
    match new {
        Some(o) => same_offsets(now, o) || o.len() == 0,
        None => same_offsets(now, no_offsets(now.len())),
    }
}

/// The offsets of a node after a write. Without new ones they go back to zero.
pub open spec fn deform_after(now: Seq<[Scalar; 2]>, new: Option<Seq<[Scalar; 2]>>) -> Seq<
    [Scalar; 2],
> {
    if deform_stays(now, new) {
        now
    } else {
        match new {
            Some(o) => o,
            None => no_offsets(now.len()),
        }
    }
}

/// Writes the deform of a node and says whether that was necessary.
pub fn write_deform(deform: &mut InxDeform, new: Option<&DeformAccum>) -> (r: bool)
    ensures
        final(deform).offsets@ == deform_after(
            old(deform).offsets@,
            match new {
                Some(a) => Some(a.offsets@),
                None => None,
            },
        ),
        r == !deform_stays(
            old(deform).offsets@,
            match new {
                Some(a) => Some(a.offsets@),
                None => None,
            },
        ),
{
    match new {
        Some(a) => {
            if equal_offsets(&deform.offsets, &a.offsets) || a.offsets.len() == 0 {
                return false;
            }
            deform.offsets = copy_offsets(&a.offsets);
        },
        None => {
            let zero = zero_offsets(deform.offsets.len());
            if equal_offsets(&deform.offsets, &zero) {
                return false;
            }
            deform.offsets = zero;
        },
    }
    true
}

/// A node that no param drives keeps its authored translation as a number.
pub proof fn lemma_rest_pose(x: Scalar)
    requires
        x.finite(),
    ensures
        x.plus(grid_interpolation::no_effect().tx).same(x),
        x.times(grid_interpolation::no_effect().sx).same(x),
{
    if x.mag() != 0 {
        arith::lemma_plus_zero(x);
    } else {
        arith::lemma_exact(0);
    }
    arith::lemma_times_one(x);
}

/// What is written of a node.
pub struct Shown {
    pub pose: InxBasePose,
    pub opacity: Scalar,
    pub deform: Seq<[Scalar; 2]>,
}

/// The pose that a node gets. `turned` is its authored rotation with the turn
/// of the bound pose.
pub open spec fn wanted(base: InxBasePose, offsets: NodeAccum, turned: [Scalar; 4]) -> InxBasePose {
    InxBasePose {
        translation: bound(base, offsets).translation,
        rotation: turned,
        scale: bound(base, offsets).scale,
    }
}

/// A node with a deform after the effects of params were written to it. Without
/// an effect on its pose it keeps pose and opacity.
pub open spec fn shown_after(
    now: Shown,
    e: Effects,
    node: u64,
    base: InxBasePose,
    turned: [Scalar; 4],
) -> Shown {
    let deform = deform_after(now.deform, id_map::found(e.deforms, node));
    match id_map::found(e.poses, node) {
        Some(offsets) => Shown {
            pose: pose_after(now.pose, wanted(base, offsets, turned)),
            opacity: opacity_after(now.opacity, offsets),
            deform,
        },
        None => Shown { deform, ..now },
    }
}

/// Nothing of a node has to be written for the effects of params.
pub open spec fn settled(
    now: Shown,
    e: Effects,
    node: u64,
    base: InxBasePose,
    turned: [Scalar; 4],
) -> bool {
    &&& deform_stays(now.deform, id_map::found(e.deforms, node))
    &&& match id_map::found(e.poses, node) {
        Some(offsets) => same_pose(now.pose, wanted(base, offsets, turned)) && (offsets.has_opacity
            ==> now.opacity.same(offsets.opacity)),
        None => true,
    }
}

/// All that params write to a node is a number.
pub open spec fn numeric(e: Effects, node: u64, base: InxBasePose, turned: [Scalar; 4]) -> bool {
    &&& match id_map::found(e.deforms, node) {
        Some(o) => same_offsets(o, o),
        None => true,
    }
    &&& match id_map::found(e.poses, node) {
        Some(offsets) => same_pose(wanted(base, offsets, turned), wanted(base, offsets, turned))
            && (offsets.has_opacity ==> !offsets.opacity.nan()),
        None => true,
    }
}

/// A second write of the same deform changes nothing.
pub proof fn lemma_deform_settles(now: Seq<[Scalar; 2]>, new: Option<Seq<[Scalar; 2]>>)
    ensures
        deform_after(deform_after(now, new), new) == deform_after(now, new),
{
    assert(no_offsets(no_offsets(now.len()).len()) =~= no_offsets(now.len()));
}

/// Params of the same state change nothing of a node that they were written to
/// before. Where all that they write is a number, nothing is even written.
pub proof fn lemma_second_call_changes_nothing(
    state: Map<u32, [Scalar; 2]>,
    resolved: Seq<(u64, Vec<(u32, u64)>)>,
    params: Seq<InxParam>,
    warps: Map<u64, InxMeshGroupWarp>,
    node: u64,
    base: InxBasePose,
    turned: [Scalar; 4],
    now: Shown,
)
    ensures
        ({
            let e = applied(state, resolved, params, warps);
            let first = shown_after(now, e, node, base, turned);
            &&& shown_after(first, e, node, base, turned) == first
            &&& numeric(e, node, base, turned) ==> settled(first, e, node, base, turned)
        }),
{
    let e = applied(state, resolved, params, warps);
    let new = id_map::found(e.deforms, node);
    let first = shown_after(now, e, node, base, turned);
    lemma_deform_settles(now.deform, new);
    if new is None {
        let zero = no_offsets(now.deform.len());
        assert(no_offsets(zero.len()) =~= zero);
        assert(same_offsets(zero, zero));
    }
    assert(shown_after(first, e, node, base, turned).pose == first.pose);
    assert(shown_after(first, e, node, base, turned).opacity == first.opacity);
}

/// The effects of params are the same for two states in which each param has
/// the same value.
proof fn lemma_same_values(
    a: Map<u32, [Scalar; 2]>,
    b: Map<u32, [Scalar; 2]>,
    resolved: Seq<(u64, Vec<(u32, u64)>)>,
    params: Seq<InxParam>,
    k: nat,
)
    requires
        forall|i: int|
            0 <= i < params.len() ==> value_in(a, #[trigger] params[i]) == value_in(b, params[i]),
    ensures
        after_params(a, resolved, params, k) == after_params(b, resolved, params, k),
    decreases k,
{
    if k > 0 {
        lemma_same_values(a, b, resolved, params, (k - 1) as nat);
    }
}

/// A missing param counts as its default, where params of its UUID share
/// their defaults.
pub proof fn lemma_missing_param_is_at_its_default(
    state: Map<u32, [Scalar; 2]>,
    resolved: Seq<(u64, Vec<(u32, u64)>)>,
    params: Seq<InxParam>,
    warps: Map<u64, InxMeshGroupWarp>,
    param: InxParam,
)
    requires
        params.contains(param),
        !state.dom().contains(param.uuid),
        forall|i: int|
            0 <= i < params.len() && (#[trigger] params[i]).uuid == param.uuid ==> params[i].defaults
                == param.defaults,
    ensures
        applied(state, resolved, params, warps) == applied(
            state.insert(param.uuid, param.defaults),
            resolved,
            params,
            warps,
        ),
{
    lemma_same_values(
        state,
        state.insert(param.uuid, param.defaults),
        resolved,
        params,
        resolved.len(),
    );
}

/// A node is moved by what params add, to the right and up, where Y of params points
/// down; it is stretched by what they multiply, and turned the other way round. The
/// numbers have few digits.
pub proof fn lemma_bound_exact(
    base: InxBasePose,
    offsets: NodeAccum,
    b: Seq<int>,
    t: Seq<int>,
    c: Seq<int>,
    e: Seq<int>,
)
    requires
        b.len() == 3,
        t.len() == 3,
        c.len() == 2,
        e.len() == 2,
        forall|k: int| 0 <= k < 3 ==> -0x800 <= #[trigger] b[k] <= 0x800,
        forall|k: int| 0 <= k < 3 ==> -0x800 <= #[trigger] t[k] <= 0x800,
        forall|k: int| 0 <= k < 2 ==> -0x800 <= #[trigger] c[k] <= 0x800,
        forall|k: int| 0 <= k < 2 ==> -0x800 <= #[trigger] e[k] <= 0x800,
        exact::stands_for(base.translation[0], b[0], 149),
        exact::stands_for(base.translation[1], b[1], 149),
        exact::stands_for(base.translation[2], b[2], 149),
        exact::stands_for(offsets.tx, t[0], 149),
        exact::stands_for(offsets.ty, t[1], 149),
        exact::stands_for(offsets.tz, t[2], 149),
        exact::stands_for(base.scale[0], c[0], 149),
        exact::stands_for(base.scale[1], c[1], 149),
        exact::stands_for(offsets.sx, e[0], 149),
        exact::stands_for(offsets.sy, e[1], 149),
    ensures
        ({
            let r = bound(base, offsets);
            &&& exact::stands_for(r.translation[0], b[0] + t[0], 149)
            &&& exact::stands_for(r.translation[1], b[1] - t[1], 149)
            &&& exact::stands_for(r.translation[2], b[2] + t[2], 149)
            &&& exact::stands_for(r.scale[0], c[0] * e[0], 149)
            &&& exact::stands_for(r.scale[1], c[1] * e[1], 149)
            &&& exact::stands_for(r.scale[2], 1, 149)
            &&& r.turn matches Some(angle) ==> angle == offsets.rz.negated()
            &&& offsets.rz.mag() == 0 ==> r.turn is None
            &&& offsets.rz.finite() && arith::num(ONE).value() <= offsets.rz.absolute().value()
                ==> r.turn is Some
        }),
{
    exact::lemma_small();
    exact::lemma_sum(base.translation[0], b[0], offsets.tx, t[0], 149);
    exact::lemma_difference(base.translation[1], b[1], offsets.ty, t[1], 149);
    exact::lemma_sum(base.translation[2], b[2], offsets.tz, t[2], 149);
    let (c0, c1, e0, e1) = (c[0], c[1], e[0], e[1]);
    assert(-0x40_0000 <= c0 * e0 <= 0x40_0000 && -0x40_0000 <= c1 * e1 <= 0x40_0000)
        by (nonlinear_arith)
        requires
            -0x800 <= c0 <= 0x800,
            -0x800 <= c1 <= 0x800,
            -0x800 <= e0 <= 0x800,
            -0x800 <= e1 <= 0x800,
    ;
    exact::lemma_product(base.scale[0], c0, 149, offsets.sx, e0, 149);
    exact::lemma_product(base.scale[1], c1, 149, offsets.sy, e1, 149);
    exact::lemma_zero_value(offsets.rz.absolute());
    crate::scalar::lemma_value_order(arith::num(0), arith::num(MICRO));
    crate::scalar::lemma_value_order(arith::num(MICRO), arith::num(ONE));
    exact::lemma_zero_value(arith::num(0));
}

/// A binding changes nothing of other nodes; one that drives a number changes no
/// deform, and one that deforms changes no pose.
pub proof fn lemma_binding_drives_its_node(
    e: Effects,
    param: InxParam,
    value: [Scalar; 2],
    binding: u32,
    node: u64,
    other: u64,
)
    requires
        binding < param.bindings@.len(),
        other != node,
    ensures
        ({
            let r = after_binding(e, param, value, binding, node);
            let b = param.bindings@[binding as int];
            &&& id_map::found(r.poses, other) == id_map::found(e.poses, other)
            &&& id_map::found(r.deforms, other) == id_map::found(e.deforms, other)
            &&& b.values is Transform ==> r.deforms == e.deforms && r.deformed == e.deformed
                && r.poses.dom().contains(node)
            &&& b.values is Deform ==> r.poses == e.poses && r.posed == e.posed
            &&& b.values is Other ==> r == e
        }),
{
}

/// The offsets of two bindings on one node add up, vertex by vertex; a node without
/// offsets starts from none. `x` is what the node has, `y` what the binding gives, in one
/// component of vertex `v`, with few digits.
pub proof fn lemma_deforms_add_up(
    e: Effects,
    param: InxParam,
    value: [Scalar; 2],
    binding: u32,
    node: u64,
    o: Seq<[Scalar; 2]>,
    v: int,
    j: int,
    x: int,
    y: int,
    s: nat,
)
    requires
        binding < param.bindings@.len(),
        grid_interpolation::binding_offsets(param, value, param.bindings@[binding as int]) == Some(
            o,
        ),
        match id_map::found(e.deforms, node) {
            Some(had) => had.len() == o.len() && exact::stands_for(had[v][j], x, s),
            None => x == 0,
        },
        0 <= v < o.len(),
        0 <= j < 2,
        exact::stands_for(o[v][j], y, s),
        -0x80_0000 <= x <= 0x80_0000,
        -0x80_0000 <= y <= 0x80_0000,
        s <= 252,
    ensures
        ({
            let r = after_binding(e, param, value, binding, node);
            &&& r.deforms.dom().contains(node)
            &&& r.deforms[node].len() == o.len()
            &&& exact::stands_for(r.deforms[node][v][j], x + y, s)
        }),
{
    let had = offsets_or(e.deforms, node, o.len());
    exact::lemma_zero_value(arith::num(0));
    assert(exact::stands_for(arith::num(0), 0, s));
    assert(exact::stands_for(had[v][j], x, s));
    exact::lemma_sum(had[v][j], x, o[v][j], y, s);
    let r = after_binding(e, param, value, binding, node);
    assert(r.deforms[node] == summed(had, o));
    assert(summed(had, o)[v] == [had[v][0].plus(o[v][0]), had[v][1].plus(o[v][1])]);
}

/// A group hands its deform on: it has none left unless it carries itself, and the
/// nodes that it does not carry keep theirs.
pub proof fn lemma_group_hands_on(
    d: Map<u64, Seq<[Scalar; 2]>>,
    warp: InxMeshGroupWarp,
    offsets: Seq<[Scalar; 2]>,
    k: nat,
    other: u64,
)
    requires
        k <= warp.children@.len(),
        forall|i: int| 0 <= i < k ==> (#[trigger] warp.children@[i]).entity != other,
    ensures
        id_map::found(after_children(d, warp, offsets, k), other) == id_map::found(d, other),
    decreases k,
{
    if k > 0 {
        lemma_group_hands_on(d, warp, offsets, (k - 1) as nat, other);
    }
}

} // verus!
