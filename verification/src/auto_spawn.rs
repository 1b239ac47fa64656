//! What is spawned for a puppet: its nodes, the bindings of its params, and the
//! warps of its mesh groups.

use crate::arith;
use crate::exact;
use crate::composite;
use crate::composite::{classify, ComposeMode, InxCompositeGroup};
use crate::controller::InxAnimationController;
use crate::id_map;
use crate::id_map::IdMap;
use crate::mesh_group;
use crate::mesh_group::{
    has_corners, lattice_rest_and_tris, map_part_to_lattice, Aff2, InxMeshGroupWarp, MgChildMap,
};
use crate::model::{
    InxBindingValues, InxMesh, InxNode, InxNodeType, InxParam, InxPuppet, SimplePhysicsConfig,
};
use crate::param_values::{InxParamState, ParamValues};
use crate::pose::InxResolvedBindings;
use crate::scalar::{Scalar, ONE};
use vstd::prelude::*;

verus! {

/// A node to spawn. Other nodes are named by their place in the plan.
#[derive(Debug, Clone, Copy)]
pub struct SpawnNode {
    /// The node, by its position in the puppet.
    pub node: usize,
    pub parent: Option<usize>,
    /// The innermost group around it.
    pub composite: Option<usize>,
    /// Translation in the scene, where Y points up.
    pub translation: [Scalar; 3],
    /// Angle around Z in the scene, where it runs the other way.
    pub angle: Scalar,
    pub scale: [Scalar; 3],
    /// Whether it is shown where its parent is.
    pub visible: bool,
    /// How many vertices it can deform, if it has a mesh.
    pub deform_vertices: Option<usize>,
    /// The simulation that it runs.
    pub physics: Option<SimplePhysicsConfig>,
    /// The group that it makes of its children.
    pub group: Option<(InxCompositeGroup, ComposeMode)>,
    /// It should have been a group, but has no children.
    pub empty_group: bool,
}

/// All children stand before their parents.
pub open spec fn children_first(nodes: Seq<InxNode>) -> bool {
    forall|i: int, j: int|
        #![trigger nodes[i].children@[j]]
        0 <= i < nodes.len() && 0 <= j < nodes[i].children@.len() ==> nodes[i].children@[j] < i
}

/// Whether every child comes before its parent.
pub fn is_children_first(nodes: &Vec<InxNode>) -> (r: bool)
    ensures
        r == children_first(nodes@),
{
    let mut i: usize = 0;
    while i < nodes.len()
        invariant
            i <= nodes@.len(),
            forall|a: int, b: int|
                #![trigger nodes@[a].children@[b]]
                0 <= a < i && 0 <= b < nodes@[a].children@.len() ==> nodes@[a].children@[b] < a,
        decreases nodes@.len() - i,
    {
        let children = &nodes[i].children;
        let mut j: usize = 0;
        while j < children.len()
            invariant
                i < nodes@.len(),
                *children == nodes@[i as int].children,
                j <= children@.len(),
                forall|b: int| 0 <= b < j ==> #[trigger] children@[b] < i,
            decreases children@.len() - j,
        {
            if children[j] >= i {
                assert(nodes@[i as int].children@[j as int] >= i);
                return false;
            }
            j = j + 1;
        }
        i = i + 1;
    }
    true
}

/// The group that a node makes of its children, from its material where it has
/// one.
pub open spec fn group_made(n: InxNode) -> Option<(InxCompositeGroup, ComposeMode)> {
    if n.node_type == InxNodeType::Composite && n.children@.len() > 0 {
        let plain = composite::plain_group();
        let group = match n.material {
            Some(m) => InxCompositeGroup {
                blend_mode: m.blend_mode,
                opacity: m.opacity,
                tint: m.tint,
                screen_tint: m.screen_tint,
                mask_threshold: m.mask_threshold,
                padding: plain.padding,
                zsort: n.zsort,
            },
            None => InxCompositeGroup { zsort: n.zsort, ..plain },
        };
        Some((group, composite::mode_of(group, n.compose_hint)))
    } else {
        None
    }
}

/// The mesh that a node draws.
pub open spec fn drawn_mesh(n: InxNode) -> Option<InxMesh> {
    match n.material {
        Some(m) => m.mesh,
        None => None,
    }
}

/// A node as it is spawned.
pub open spec fn spawned(
    n: InxNode,
    at: usize,
    parent: Option<usize>,
    composite: Option<usize>,
) -> SpawnNode {
    SpawnNode {
        node: at,
        parent,
        composite,
        translation: [
            n.transform.translation[0],
            n.transform.translation[1].negated(),
            n.transform.translation[2],
        ],
        angle: n.transform.rotation[2].negated(),
        scale: [n.transform.scale[0], n.transform.scale[1], arith::num(ONE)],
        visible: n.enabled,
        deform_vertices: match drawn_mesh(n) {
            Some(mesh) => Some(mesh.vertex_buffer@.len() as usize),
            None => None,
        },
        physics: match n.physics_data {
            Some(p) => if n.node_type == InxNodeType::SimplePhysics && p.param_uuid != u32::MAX {
                Some(p)
            } else {
                None
            },
            None => None,
        },
        group: group_made(n),
        empty_group: n.node_type == InxNodeType::Composite && n.children@.len() == 0,
    }
}

/// The group around the children of a node.
pub open spec fn inner_group(n: InxNode, composite: Option<usize>, base: nat) -> Option<usize> {
    if group_made(n) is Some {
        Some(base as usize)
    } else {
        composite
    }
}

/// What is spawned for a node and all below it: the node, then its children one
/// after the other. `base` is the place of the node in the plan.
pub open spec fn planned(
    nodes: Seq<InxNode>,
    at: int,
    parent: Option<usize>,
    composite: Option<usize>,
    base: nat,
) -> Seq<SpawnNode>
    decreases at, nodes[at].children@.len() + 1,
    when 0 <= at < nodes.len() && children_first(nodes)
{
    let inner = inner_group(nodes[at], composite, base);
    seq![spawned(nodes[at], at as usize, parent, composite)] + planned_children(
        nodes,
        at,
        nodes[at].children@.len(),
        inner,
        base,
    )
}

/// What is spawned for the first `k` children of a node.
pub open spec fn planned_children(
    nodes: Seq<InxNode>,
    at: int,
    k: nat,
    composite: Option<usize>,
    base: nat,
) -> Seq<SpawnNode>
    decreases at, k,
    when 0 <= at < nodes.len() && children_first(nodes) && k <= nodes[at].children@.len()
{
    if k == 0 {
        Seq::empty()
    } else {
        let before = planned_children(nodes, at, (k - 1) as nat, composite, base);
        before + planned(
            nodes,
            nodes[at].children@[k - 1] as int,
            Some(base as usize),
            composite,
            base + 1 + before.len(),
        )
    }
}

fn plan_group(n: &InxNode) -> (r: Option<(InxCompositeGroup, ComposeMode)>)
    ensures
        r == group_made(*n),
{
    if n.node_type != InxNodeType::Composite || n.children.len() == 0 {
        return None;
    }
    let plain = InxCompositeGroup::default();
    let group = match &n.material {
        Some(m) => InxCompositeGroup {
            blend_mode: m.blend_mode,
            opacity: m.opacity,
            tint: m.tint,
            screen_tint: m.screen_tint,
            mask_threshold: m.mask_threshold,
            padding: plain.padding,
            zsort: n.zsort,
        },
        None => InxCompositeGroup {
            blend_mode: plain.blend_mode,
            opacity: plain.opacity,
            tint: plain.tint,
            screen_tint: plain.screen_tint,
            mask_threshold: plain.mask_threshold,
            padding: plain.padding,
            zsort: n.zsort,
        },
    };
    let mode = classify(&group, n.compose_hint);
    Some((group, mode))
}

fn plan_node(
    n: &InxNode,
    at: usize,
    parent: Option<usize>,
    composite: Option<usize>,
) -> (r: SpawnNode)
    ensures
        r == spawned(*n, at, parent, composite),
{
    let t = n.transform.translation;
    let s = n.transform.scale;
    let deform_vertices = match &n.material {
        Some(m) => match &m.mesh {
            Some(mesh) => Some(mesh.vertex_buffer.len()),
            None => None,
        },
        None => None,
    };
    let physics = match n.physics_data {
        Some(p) => if n.node_type == InxNodeType::SimplePhysics && p.param_uuid != u32::MAX {
            Some(p)
        } else {
            None
        },
        None => None,
    };
    SpawnNode {
        node: at,
        parent,
        composite,
        translation: [t[0], t[1].neg(), t[2]],
        angle: n.transform.rotation[2].neg(),
        scale: [s[0], s[1], Scalar { bits: ONE }],
        visible: n.enabled,
        deform_vertices,
        physics,
        group: plan_group(n),
        empty_group: n.node_type == InxNodeType::Composite && n.children.len() == 0,
    }
}

/// Plans a node and all below it, after what is planned already.
pub fn spawn_node_recursive(
    nodes: &Vec<InxNode>,
    at: usize,
    parent: Option<usize>,
    composite: Option<usize>,
    plan: &mut Vec<SpawnNode>,
)
    requires
        at < nodes@.len(),
        children_first(nodes@),
    ensures
        final(plan)@ == old(plan)@ + planned(
            nodes@,
            at as int,
            parent,
            composite,
            old(plan)@.len(),
        ),
    decreases at,
{
    let ghost start = plan@;
    let base: usize = plan.len();
    let own = plan_node(&nodes[at], at, parent, composite);
    let inner = if own.group.is_some() {
        Some(base)
    } else {
        composite
    };
    plan.push(own);
    let ghost first = seq![own];
    assert(plan@ =~= start + first + planned_children(nodes@, at as int, 0, inner, base as nat));
    let mut k: usize = 0;
    while k < nodes[at].children.len()
        invariant
            at < nodes@.len(),
            children_first(nodes@),
            base == start.len(),
            first.len() == 1,
            k <= nodes@[at as int].children@.len(),
            plan@ == start + first + planned_children(
                nodes@,
                at as int,
                k as nat,
                inner,
                base as nat,
            ),
        decreases nodes@[at as int].children@.len() - k,
    {
        let child: usize = nodes[at].children[k];
        assert(nodes@[at as int].children@[k as int] == child);
        let ghost before = planned_children(nodes@, at as int, k as nat, inner, base as nat);
        spawn_node_recursive(nodes, child, Some(base), inner, plan);
        assert(plan@ =~= start + first + (before + planned(
            nodes@,
            child as int,
            Some(base),
            inner,
            base as nat + 1 + before.len(),
        )));
        k = k + 1;
    }
    assert(plan@ =~= start + (first + planned_children(
        nodes@,
        at as int,
        nodes@[at as int].children@.len(),
        inner,
        base as nat,
    )));
}

/// Where the nodes of a plan stand, by UUID; of two with one UUID, the later.
pub open spec fn places_by_uuid(nodes: Seq<InxNode>, plan: Seq<SpawnNode>, k: nat) -> Map<u64, u64>
    decreases k,
{
    if k == 0 {
        Map::empty()
    } else {
        places_by_uuid(nodes, plan, (k - 1) as nat).insert(
            nodes[plan[k - 1].node as int].uuid as u64,
            (k - 1) as u64,
        )
    }
}

/// The places of the nodes that can deform.
pub open spec fn deforming(plan: Seq<SpawnNode>, k: nat) -> Seq<u64>
    decreases k,
{
    if k == 0 {
        Seq::empty()
    } else {
        let before = deforming(plan, (k - 1) as nat);
        if plan[k - 1].deform_vertices is Some {
            before.push((k - 1) as u64)
        } else {
            before
        }
    }
}

/// The first `k` bindings of a param whose nodes exist, with the places of these.
pub open spec fn resolved_bindings(
    param: InxParam,
    places: Map<u64, u64>,
    k: nat,
) -> Seq<(u32, u64)>
    decreases k,
{
    if k == 0 {
        Seq::empty()
    } else {
        let before = resolved_bindings(param, places, (k - 1) as nat);
        match id_map::found(places, param.bindings@[k - 1].node_uuid as u64) {
            Some(at) => before.push(((k - 1) as u32, at)),
            None => before,
        }
    }
}

/// The UUIDs with those of the first `k` bindings that deform, each once.
pub open spec fn with_deform_targets(targets: Seq<u32>, param: InxParam, k: nat) -> Seq<u32>
    decreases k,
{
    if k == 0 {
        targets
    } else {
        let before = with_deform_targets(targets, param, (k - 1) as nat);
        let b = param.bindings@[k - 1];
        if b.values is Deform && !before.contains(b.node_uuid) {
            before.push(b.node_uuid)
        } else {
            before
        }
    }
}

/// The UUIDs of the nodes that some param deforms.
pub open spec fn deform_targets(params: Seq<InxParam>, k: nat) -> Seq<u32>
    decreases k,
{
    if k == 0 {
        Seq::empty()
    } else {
        with_deform_targets(
            deform_targets(params, (k - 1) as nat),
            params[k - 1],
            params[k - 1].bindings@.len(),
        )
    }
}

/// The defaults of the first `k` params.
pub open spec fn defaults_of(params: Seq<InxParam>, k: nat) -> Map<u32, [Scalar; 2]>
    decreases k,
{
    if k == 0 {
        Map::empty()
    } else {
        defaults_of(params, (k - 1) as nat).insert(params[k - 1].uuid, params[k - 1].defaults)
    }
}

fn contains_uuid(list: &Vec<u32>, uuid: u32) -> (r: bool)
    ensures
        r == list@.contains(uuid),
{
    let mut i: usize = 0;
    while i < list.len()
        invariant
            i <= list@.len(),
            forall|j: int| 0 <= j < i ==> list@[j] != uuid,
        decreases list@.len() - i,
    {
        if list[i] == uuid {
            return true;
        }
        i = i + 1;
    }
    false
}

/// The values of all params at their defaults.
pub fn default_values(params: &Vec<InxParam>) -> (r: ParamValues)
    ensures
        r@ == defaults_of(params@, params@.len()),
{
    let mut r = ParamValues::new();
    let mut i: usize = 0;
    while i < params.len()
        invariant
            i <= params@.len(),
            r@ == defaults_of(params@, i as nat),
        decreases params@.len() - i,
    {
        r = r.insert(params[i].uuid, params[i].defaults);
        i = i + 1;
    }
    r
}

/// The state of params at their defaults.
pub fn init_param_state(params: &Vec<InxParam>) -> (r: InxParamState)
    ensures
        r.values@ == defaults_of(params@, params@.len()),
{
    InxParamState { values: default_values(params) }
}

/// All that is spawned for a puppet.
pub struct ScenePlan {
    /// The nodes, parents before their children; the root is first.
    pub nodes: Vec<SpawnNode>,
    /// Where the nodes stand in the plan, by UUID.
    pub places: IdMap,
    /// The bindings of params to places in the plan, and the places that can
    /// deform.
    pub resolved: InxResolvedBindings,
    /// UUIDs of the nodes that some param deforms.
    pub deform_targets: Vec<u32>,
    /// Params at their defaults.
    pub param_state: InxParamState,
    /// Name of the puppet.
    pub name: String,
    /// The controller on the root, if the scene is to be animated.
    pub controller: Option<InxAnimationController>,
    /// Whether the root is marked to be kept in its default pose.
    pub default_pose: bool,
}

/// A controller that plays nothing, with the defaults of all params.
pub open spec fn at_rest(controller: InxAnimationController, params: Seq<InxParam>) -> bool {
    &&& controller.layers@.len() == 0
    &&& !controller.paused
    &&& controller.param_defaults@ == defaults_of(params, params.len())
}

/// The controller of a scene, if it is to be animated.
pub fn scene_controller(animation: bool, params: &Vec<InxParam>) -> (r: Option<
    InxAnimationController,
>)
    ensures
        r is Some <==> animation,
        r matches Some(controller) ==> at_rest(controller, params@),
{
    if animation {
        let mut controller = InxAnimationController::new();
        controller.param_defaults = default_values(params);
        Some(controller)
    } else {
        None
    }
}

/// The plan of a puppet.
pub open spec fn plans(puppet: InxPuppet, r: ScenePlan) -> bool {
    let nodes = puppet.nodes@;
    let params = puppet.params@;
    &&& r.nodes@ == planned(nodes, nodes.len() - 1, None, None, 0)
    &&& r.places@ == places_by_uuid(nodes, r.nodes@, r.nodes@.len())
    &&& r.resolved.deform_nodes@ == deforming(r.nodes@, r.nodes@.len())
    &&& r.resolved.params@.len() == params.len()
    &&& forall|i: int|
        0 <= i < params.len() ==> (#[trigger] r.resolved.params@[i]).0 == i
            && r.resolved.params@[i].1@ == resolved_bindings(
            params[i],
            r.places@,
            params[i].bindings@.len(),
        )
    &&& r.deform_targets@ == deform_targets(params, params.len())
    &&& r.param_state.values@ == defaults_of(params, params.len())
    &&& r.name@ == if puppet.meta.name@.len() == 0 {
        "InxScene Root"@
    } else {
        puppet.meta.name@
    }
}

proof fn lemma_planned_positions(
    nodes: Seq<InxNode>,
    at: int,
    parent: Option<usize>,
    composite: Option<usize>,
    base: nat,
)
    requires
        0 <= at < nodes.len(),
        nodes.len() <= usize::MAX,
        children_first(nodes),
    ensures
        forall|i: int|
            0 <= i < planned(nodes, at, parent, composite, base).len() ==> (#[trigger] planned(
                nodes,
                at,
                parent,
                composite,
                base,
            )[i]).node < nodes.len(),
    decreases at, nodes[at].children@.len() + 1,
{
    let inner = inner_group(nodes[at], composite, base);
    lemma_planned_children_positions(nodes, at, nodes[at].children@.len(), inner, base);
    let all = planned(nodes, at, parent, composite, base);
    let below = planned_children(nodes, at, nodes[at].children@.len(), inner, base);
    assert forall|i: int| 0 <= i < all.len() implies (#[trigger] all[i]).node < nodes.len() by {
        if i > 0 {
            assert(all[i] == below[i - 1]);
        }
    }
}

proof fn lemma_planned_children_positions(
    nodes: Seq<InxNode>,
    at: int,
    k: nat,
    composite: Option<usize>,
    base: nat,
)
    requires
        0 <= at < nodes.len(),
        nodes.len() <= usize::MAX,
        children_first(nodes),
        k <= nodes[at].children@.len(),
    ensures
        forall|i: int|
            0 <= i < planned_children(nodes, at, k, composite, base).len() ==> (
            #[trigger] planned_children(nodes, at, k, composite, base)[i]).node < nodes.len(),
    decreases at, k,
{
    if k > 0 {
        lemma_planned_children_positions(nodes, at, (k - 1) as nat, composite, base);
        let before = planned_children(nodes, at, (k - 1) as nat, composite, base);
        let child = nodes[at].children@[k - 1] as int;
        lemma_planned_positions(
            nodes,
            child,
            Some(base as usize),
            composite,
            base + 1 + before.len(),
        );
    }
}

fn resolve_param(param: &InxParam, places: &IdMap) -> (r: Vec<(u32, u64)>)
    ensures
        r@ == resolved_bindings(*param, places@, param.bindings@.len()),
{
    let mut r: Vec<(u32, u64)> = Vec::new();
    let mut i: usize = 0;
    while i < param.bindings.len()
        invariant
            i <= param.bindings@.len(),
            r@ == resolved_bindings(*param, places@, i as nat),
        decreases param.bindings@.len() - i,
    {
        if let Some(at) = places.get(param.bindings[i].node_uuid as u64) {
            r.push((i as u32, at));
        }
        i = i + 1;
    }
    r
}

fn add_deform_targets(targets: &mut Vec<u32>, param: &InxParam)
    ensures
        final(targets)@ == with_deform_targets(old(targets)@, *param, param.bindings@.len()),
{
    let ghost start = targets@;
    let mut i: usize = 0;
    while i < param.bindings.len()
        invariant
            i <= param.bindings@.len(),
            targets@ == with_deform_targets(start, *param, i as nat),
        decreases param.bindings@.len() - i,
    {
        let b = &param.bindings[i];
        let deforms = match &b.values {
            InxBindingValues::Deform(_) => true,
            _ => false,
        };
        if deforms && !contains_uuid(targets, b.node_uuid) {
            targets.push(b.node_uuid);
        }
        i = i + 1;
    }
}

/// Plans the scene of a puppet, with a controller and a default-pose mark where
/// they are asked for. A puppet without nodes has none.
pub fn spawn_scene_system(puppet: &InxPuppet, animation: bool, default_pose: bool) -> (r: Option<
    ScenePlan,
>)
    requires
        children_first(puppet.nodes@),
    ensures
        r is None <==> puppet.nodes@.len() == 0,
        r matches Some(plan) ==> {
            &&& plans(*puppet, plan)
            &&& plan.controller is Some <==> animation
            &&& plan.controller matches Some(controller) ==> at_rest(controller, puppet.params@)
            &&& plan.default_pose == default_pose
        },
{
    let count: usize = puppet.nodes.len();
    if count == 0 {
        return None;
    }
    let mut nodes: Vec<SpawnNode> = Vec::new();
    spawn_node_recursive(&puppet.nodes, count - 1, None, None, &mut nodes);
    proof {
        assert(nodes@ =~= planned(puppet.nodes@, count - 1, None, None, 0));
        lemma_planned_positions(puppet.nodes@, count - 1, None, None, 0);
    }
    let mut places = IdMap::new();
    let mut deform_nodes: Vec<u64> = Vec::new();
    let mut i: usize = 0;
    while i < nodes.len()
        invariant
            forall|j: int| 0 <= j < nodes@.len() ==> (#[trigger] nodes@[j]).node < puppet.nodes@.len(),
            i <= nodes@.len(),
            places@ == places_by_uuid(puppet.nodes@, nodes@, i as nat),
            deform_nodes@ == deforming(nodes@, i as nat),
        decreases nodes@.len() - i,
    {
        let own = nodes[i];
        places.insert(puppet.nodes[own.node].uuid as u64, i as u64);
        if own.deform_vertices.is_some() {
            deform_nodes.push(i as u64);
        }
        i = i + 1;
    }
    let mut params: Vec<(u64, Vec<(u32, u64)>)> = Vec::new();
    let mut targets: Vec<u32> = Vec::new();
    let mut p: usize = 0;
    while p < puppet.params.len()
        invariant
            p <= puppet.params@.len(),
            params@.len() == p,
            forall|j: int|
                0 <= j < p ==> (#[trigger] params@[j]).0 == j && params@[j].1@ == resolved_bindings(
                    puppet.params@[j],
                    places@,
                    puppet.params@[j].bindings@.len(),
                ),
            targets@ == deform_targets(puppet.params@, p as nat),
        decreases puppet.params@.len() - p,
    {
        let param = &puppet.params[p];
        params.push((p as u64, resolve_param(param, &places)));
        add_deform_targets(&mut targets, param);
        p = p + 1;
    }
    let name = if crate::inr_names::same_text(&puppet.meta.name, "") {
        "InxScene Root".to_owned()
    } else {
        puppet.meta.name.clone()
    };
    proof {
        reveal_strlit("");
        assert(puppet.meta.name@.len() == 0 <==> puppet.meta.name@ == ""@) by {
            if puppet.meta.name@.len() == 0 {
                assert(puppet.meta.name@ =~= ""@);
            }
        }
    }
    Some(
        ScenePlan {
            nodes,
            places,
            resolved: InxResolvedBindings { params, deform_nodes },
            deform_targets: targets,
            param_state: init_param_state(&puppet.params),
            name,
            controller: scene_controller(animation, &puppet.params),
            default_pose,
        },
    )
}

/// The mesh of a part.
pub open spec fn part_mesh(n: InxNode) -> Option<InxMesh> {
    if n.node_type == InxNodeType::Part {
        drawn_mesh(n)
    } else {
        None
    }
}

/// The lattice of a mesh group that some param deforms.
pub open spec fn lattice_of(n: InxNode, targets: Seq<u32>) -> Option<InxMesh> {
    if n.node_type == InxNodeType::MeshGroup && targets.contains(n.uuid) {
        n.mesh
    } else {
        None
    }
}

/// The warps of groups around a composite stop at it.
pub open spec fn stops_warps(n: InxNode) -> bool {
    n.node_type == InxNodeType::Composite && !n.composite_propagate_meshgroup
}

/// The local map of a node. `turn` holds the sine and cosine of its angle in the
/// scene.
pub open spec fn local_map(n: InxNode, turn: [Scalar; 2]) -> Aff2 {
    mesh_group::placed(n.transform.translation, n.transform.scale, turn[0], turn[1])
}

/// What a group does to a part, if any of its vertices lies in the lattice.
pub open spec fn carried_part(
    mesh: InxMesh,
    entity: u64,
    lattice: InxMesh,
    to_group: Aff2,
) -> Seq<mesh_group::CarriedPart> {
    let map = mesh_group::part_places(
        mesh_group::rest_of(lattice),
        mesh_group::tris_of(lattice.index_buffer@),
        mesh,
        to_group,
    );
    if exists|i: int| 0 <= i < map.len() && #[trigger] map[i] is Some {
        seq![mesh_group::CarriedPart {
            entity,
            map,
            inv_linear: mesh_group::inverse_linear(to_group.l),
            fwd_linear: to_group.l,
            rest_query: mesh_group::part_points(mesh, to_group),
        }]
    } else {
        Seq::empty()
    }
}

/// What a group does to the parts at and below a node. `before` takes the space
/// of the node's parent to that of the group.
pub open spec fn gathered(
    nodes: Seq<InxNode>,
    turns: Seq<[Scalar; 2]>,
    places: Map<u64, u64>,
    lattice: InxMesh,
    at: int,
    before: Aff2,
) -> Seq<mesh_group::CarriedPart>
    decreases at, nodes[at].children@.len() + 1,
    when 0 <= at < nodes.len() && children_first(nodes)
{
    let n = nodes[at];
    let to_group = mesh_group::composed(before, local_map(n, turns[at]));
    let own = match part_mesh(n) {
        Some(mesh) => match id_map::found(places, n.uuid as u64) {
            Some(entity) => carried_part(mesh, entity, lattice, to_group),
            None => Seq::empty(),
        },
        None => Seq::empty(),
    };
    if stops_warps(n) {
        own
    } else {
        own + gathered_below(nodes, turns, places, lattice, at, n.children@.len(), to_group)
    }
}

/// What a group does to the parts below the first `k` children of a node.
pub open spec fn gathered_below(
    nodes: Seq<InxNode>,
    turns: Seq<[Scalar; 2]>,
    places: Map<u64, u64>,
    lattice: InxMesh,
    at: int,
    k: nat,
    to_group: Aff2,
) -> Seq<mesh_group::CarriedPart>
    decreases at, k,
    when 0 <= at < nodes.len() && children_first(nodes) && k <= nodes[at].children@.len()
{
    if k == 0 {
        Seq::empty()
    } else {
        gathered_below(nodes, turns, places, lattice, at, (k - 1) as nat, to_group) + gathered(
            nodes,
            turns,
            places,
            lattice,
            nodes[at].children@[k - 1] as int,
            to_group,
        )
    }
}

/// The warp of the group at a node, with the place of the node, if it is a group
/// that some param deforms and has parts to carry.
pub open spec fn own_warp(
    nodes: Seq<InxNode>,
    turns: Seq<[Scalar; 2]>,
    places: Map<u64, u64>,
    targets: Seq<u32>,
    at: int,
) -> Seq<(u64, mesh_group::WarpView)> {
    let n = nodes[at];
    match lattice_of(n, targets) {
        Some(lattice) => {
            let children = gathered_below(
                nodes,
                turns,
                places,
                lattice,
                at,
                n.children@.len(),
                mesh_group::unit_map(),
            );
            match id_map::found(places, n.uuid as u64) {
                Some(entity) => if children.len() > 0 {
                    seq![
                        (
                            entity,
                            mesh_group::WarpView {
                                children,
                                lattice_rest: mesh_group::rest_of(lattice),
                                tris: mesh_group::tris_of(lattice.index_buffer@),
                                dynamic: n.mesh_group_dynamic,
                            },
                        ),
                    ]
                } else {
                    Seq::empty()
                },
                None => Seq::empty(),
            }
        },
        None => Seq::empty(),
    }
}

/// The warps of the groups at and below a node, inner ones first.
pub open spec fn warps_at(
    nodes: Seq<InxNode>,
    turns: Seq<[Scalar; 2]>,
    places: Map<u64, u64>,
    targets: Seq<u32>,
    at: int,
) -> Seq<(u64, mesh_group::WarpView)>
    decreases at, nodes[at].children@.len() + 1,
    when 0 <= at < nodes.len() && children_first(nodes)
{
    warps_below(nodes, turns, places, targets, at, nodes[at].children@.len()) + own_warp(
        nodes,
        turns,
        places,
        targets,
        at,
    )
}

pub open spec fn warps_below(
    nodes: Seq<InxNode>,
    turns: Seq<[Scalar; 2]>,
    places: Map<u64, u64>,
    targets: Seq<u32>,
    at: int,
    k: nat,
) -> Seq<(u64, mesh_group::WarpView)>
    decreases at, k,
    when 0 <= at < nodes.len() && children_first(nodes) && k <= nodes[at].children@.len()
{
    if k == 0 {
        Seq::empty()
    } else {
        warps_below(nodes, turns, places, targets, at, (k - 1) as nat) + warps_at(
            nodes,
            turns,
            places,
            targets,
            nodes[at].children@[k - 1] as int,
        )
    }
}

/// All lattices that some param deforms have the corners of their triangles.
pub open spec fn lattices_meshed(nodes: Seq<InxNode>, targets: Seq<u32>) -> bool {
    forall|i: int|
        0 <= i < nodes.len() ==> (lattice_of(#[trigger] nodes[i], targets) matches Some(lattice)
            ==> mesh_group::meshed(lattice))
}

/// Whether the lattices that params deform have all their corners.
pub fn has_meshed_lattices(nodes: &Vec<InxNode>, targets: &Vec<u32>) -> (r: bool)
    ensures
        r == lattices_meshed(nodes@, targets@),
{
    let mut i: usize = 0;
    while i < nodes.len()
        invariant
            i <= nodes@.len(),
            forall|j: int|
                0 <= j < i ==> (lattice_of(#[trigger] nodes@[j], targets@) matches Some(lattice)
                    ==> mesh_group::meshed(lattice)),
        decreases nodes@.len() - i,
    {
        let n = &nodes[i];
        if let Some(mesh) = &n.mesh {
            if n.node_type == InxNodeType::MeshGroup && contains_uuid(targets, n.uuid)
                && !has_corners(mesh.vertex_buffer.len(), &mesh.index_buffer) {
                assert(lattice_of(nodes@[i as int], targets@) == Some(*mesh));
                return false;
            }
        }
        i = i + 1;
    }
    true
}

fn any_place(map: &Vec<Option<([u32; 3], [Scalar; 3])>>) -> (r: bool)
    ensures
        r == exists|i: int| 0 <= i < map@.len() && #[trigger] map@[i] is Some,
{
    let mut i: usize = 0;
    while i < map.len()
        invariant
            i <= map@.len(),
            forall|j: int| 0 <= j < i ==> !(#[trigger] map@[j] is Some),
        decreases map@.len() - i,
    {
        if map[i].is_some() {
            assert(map@[i as int] is Some);
            return true;
        }
        i = i + 1;
    }
    false
}

/// Adds what a group does to the parts at and below a node.
fn gather(
    nodes: &Vec<InxNode>,
    turns: &Vec<[Scalar; 2]>,
    places: &IdMap,
    lattice: Ghost<InxMesh>,
    rest: &Vec<[Scalar; 2]>,
    tris: &Vec<[u32; 3]>,
    at: usize,
    before: &Aff2,
    out: &mut Vec<MgChildMap>,
)
    requires
        at < nodes@.len(),
        turns@.len() == nodes@.len(),
        children_first(nodes@),
        rest@ == mesh_group::rest_of(lattice@),
        tris@ == mesh_group::tris_of(lattice@.index_buffer@),
        mesh_group::corners_exist(rest@.len() as int, tris@),
    ensures
        mesh_group::parts_of(final(out)@) == mesh_group::parts_of(old(out)@) + gathered(
            nodes@,
            turns@,
            places@,
            lattice@,
            at as int,
            *before,
        ),
    decreases at,
{
    let n = &nodes[at];
    let turn = turns[at];
    let local = Aff2::from_node(&n.transform.translation, &n.transform.scale, turn[0], turn[1]);
    let to_group = before.compose(&local);
    let ghost start = mesh_group::parts_of(out@);
    let ghost own = match part_mesh(*n) {
        Some(mesh) => match id_map::found(places@, n.uuid as u64) {
            Some(entity) => carried_part(mesh, entity, lattice@, to_group),
            None => Seq::empty(),
        },
        None => Seq::empty(),
    };
    if n.node_type == InxNodeType::Part {
        if let Some(m) = &n.material {
            if let Some(mesh) = &m.mesh {
                if let Some(entity) = places.get(n.uuid as u64) {
                    let (map, rest_query) = map_part_to_lattice(rest, tris, mesh, &to_group);
                    if any_place(&map) {
                        let child = MgChildMap {
                            entity,
                            map,
                            inv_linear: to_group.inv_linear(),
                            fwd_linear: to_group.l,
                            rest_query,
                        };
                        let ghost had = out@;
                        let ghost view = child@;
                        out.push(child);
                        assert(mesh_group::parts_of(out@) =~= mesh_group::parts_of(had).push(view));
                        assert(own =~= seq![view]);
                    }
                }
            }
        }
    }
    assert(mesh_group::parts_of(out@) =~= start + own);
    if n.node_type == InxNodeType::Composite && !n.composite_propagate_meshgroup {
        return;
    }
    assert(mesh_group::parts_of(out@) =~= start + own + gathered_below(
        nodes@,
        turns@,
        places@,
        lattice@,
        at as int,
        0,
        to_group,
    ));
    let mut k: usize = 0;
    while k < n.children.len()
        invariant
            at < nodes@.len(),
            *n == nodes@[at as int],
            turns@.len() == nodes@.len(),
            children_first(nodes@),
            rest@ == mesh_group::rest_of(lattice@),
            tris@ == mesh_group::tris_of(lattice@.index_buffer@),
            mesh_group::corners_exist(rest@.len() as int, tris@),
            k <= n.children@.len(),
            mesh_group::parts_of(out@) == start + own + gathered_below(
                nodes@,
                turns@,
                places@,
                lattice@,
                at as int,
                k as nat,
                to_group,
            ),
        decreases n.children@.len() - k,
    {
        let child: usize = n.children[k];
        assert(nodes@[at as int].children@[k as int] == child);
        let ghost so_far = gathered_below(
            nodes@,
            turns@,
            places@,
            lattice@,
            at as int,
            k as nat,
            to_group,
        );
        gather(nodes, turns, places, lattice, rest, tris, child, &to_group, out);
        assert(mesh_group::parts_of(out@) =~= start + own + (so_far + gathered(
            nodes@,
            turns@,
            places@,
            lattice@,
            child as int,
            to_group,
        )));
        k = k + 1;
    }
    assert(mesh_group::parts_of(out@) =~= start + (own + gathered_below(
        nodes@,
        turns@,
        places@,
        lattice@,
        at as int,
        n.children@.len(),
        to_group,
    )));
}

pub open spec fn warp_views(r: Seq<(u64, InxMeshGroupWarp)>) -> Seq<(u64, mesh_group::WarpView)> {
    r.map_values(|w: (u64, InxMeshGroupWarp)| (w.0, w.1@))
}

/// Adds the warp of the group at a node.
fn build_own_warp(
    nodes: &Vec<InxNode>,
    turns: &Vec<[Scalar; 2]>,
    places: &IdMap,
    targets: &Vec<u32>,
    at: usize,
    out: &mut Vec<(u64, InxMeshGroupWarp)>,
)
    requires
        at < nodes@.len(),
        turns@.len() == nodes@.len(),
        children_first(nodes@),
        lattices_meshed(nodes@, targets@),
    ensures
        warp_views(final(out)@) == warp_views(old(out)@) + own_warp(
            nodes@,
            turns@,
            places@,
            targets@,
            at as int,
        ),
{
    let n = &nodes[at];
    assert(warp_views(out@) + Seq::<(u64, mesh_group::WarpView)>::empty() =~= warp_views(out@));
    if n.node_type != InxNodeType::MeshGroup || !contains_uuid(targets, n.uuid) {
        return;
    }
    let lattice = match &n.mesh {
        Some(mesh) => mesh,
        None => {
            return;
        },
    };
    assert(lattice_of(nodes@[at as int], targets@) == Some(*lattice));
    let (rest, tris) = lattice_rest_and_tris(lattice);
    let unit = Aff2::identity();
    let mut children: Vec<MgChildMap> = Vec::new();
    let mut k: usize = 0;
    assert(mesh_group::parts_of(children@) =~= Seq::<mesh_group::CarriedPart>::empty());
    while k < n.children.len()
        invariant
            at < nodes@.len(),
            *n == nodes@[at as int],
            turns@.len() == nodes@.len(),
            children_first(nodes@),
            rest@ == mesh_group::rest_of(*lattice),
            tris@ == mesh_group::tris_of(lattice.index_buffer@),
            mesh_group::corners_exist(rest@.len() as int, tris@),
            unit == mesh_group::unit_map(),
            k <= n.children@.len(),
            mesh_group::parts_of(children@) == gathered_below(
                nodes@,
                turns@,
                places@,
                *lattice,
                at as int,
                k as nat,
                unit,
            ),
        decreases n.children@.len() - k,
    {
        let child: usize = n.children[k];
        assert(nodes@[at as int].children@[k as int] == child);
        gather(
            nodes,
            turns,
            places,
            Ghost(*lattice),
            &rest,
            &tris,
            child,
            &unit,
            &mut children,
        );
        k = k + 1;
    }
    if children.len() == 0 {
        return;
    }
    if let Some(entity) = places.get(n.uuid as u64) {
        let warp = InxMeshGroupWarp {
            children,
            lattice_rest: rest,
            tris,
            dynamic: n.mesh_group_dynamic,
        };
        let ghost had = out@;
        let ghost view = (entity, warp@);
        out.push((entity, warp));
        assert(warp_views(out@) =~= warp_views(had) + seq![view]);
    }
}

fn build_warps_at(
    nodes: &Vec<InxNode>,
    turns: &Vec<[Scalar; 2]>,
    places: &IdMap,
    targets: &Vec<u32>,
    at: usize,
    out: &mut Vec<(u64, InxMeshGroupWarp)>,
)
    requires
        at < nodes@.len(),
        turns@.len() == nodes@.len(),
        children_first(nodes@),
        lattices_meshed(nodes@, targets@),
    ensures
        warp_views(final(out)@) == warp_views(old(out)@) + warps_at(
            nodes@,
            turns@,
            places@,
            targets@,
            at as int,
        ),
    decreases at,
{
    let ghost start = warp_views(out@);
    assert(start =~= start + warps_below(nodes@, turns@, places@, targets@, at as int, 0));
    let mut k: usize = 0;
    while k < nodes[at].children.len()
        invariant
            at < nodes@.len(),
            turns@.len() == nodes@.len(),
            children_first(nodes@),
            lattices_meshed(nodes@, targets@),
            k <= nodes@[at as int].children@.len(),
            warp_views(out@) == start + warps_below(
                nodes@,
                turns@,
                places@,
                targets@,
                at as int,
                k as nat,
            ),
        decreases nodes@[at as int].children@.len() - k,
    {
        let child: usize = nodes[at].children[k];
        assert(nodes@[at as int].children@[k as int] == child);
        let ghost before = warps_below(nodes@, turns@, places@, targets@, at as int, k as nat);
        build_warps_at(nodes, turns, places, targets, child, out);
        assert(warp_views(out@) =~= start + (before + warps_at(
            nodes@,
            turns@,
            places@,
            targets@,
            child as int,
        )));
        k = k + 1;
    }
    let ghost below = warps_below(
        nodes@,
        turns@,
        places@,
        targets@,
        at as int,
        nodes@[at as int].children@.len(),
    );
    build_own_warp(nodes, turns, places, targets, at, out);
    assert(warp_views(out@) =~= start + (below + own_warp(
        nodes@,
        turns@,
        places@,
        targets@,
        at as int,
    )));
}

/// Builds the warps of all mesh groups that some param deforms: for each, how its
/// lattice carries the parts below it, from their rest. `turns` holds the sine
/// and cosine of the angle of each node in the scene. The warps come with the
/// places of their groups.
pub fn build_meshgroup_warps(
    nodes: &Vec<InxNode>,
    turns: &Vec<[Scalar; 2]>,
    places: &IdMap,
    mg_deform_targets: &Vec<u32>,
) -> (r: Vec<(u64, InxMeshGroupWarp)>)
    requires
        nodes@.len() > 0,
        turns@.len() == nodes@.len(),
        children_first(nodes@),
        lattices_meshed(nodes@, mg_deform_targets@),
    ensures
        warp_views(r@) == warps_at(
            nodes@,
            turns@,
            places@,
            mg_deform_targets@,
            nodes@.len() - 1,
        ),
        forall|i: int| 0 <= i < r@.len() ==> mesh_group::warp_sound((#[trigger] r@[i]).1),
{
    let mut r: Vec<(u64, InxMeshGroupWarp)> = Vec::new();
    let last: usize = nodes.len() - 1;
    build_warps_at(nodes, turns, places, mg_deform_targets, last, &mut r);
    assert(warp_views(r@) =~= warps_at(
        nodes@,
        turns@,
        places@,
        mg_deform_targets@,
        nodes@.len() - 1,
    ));
    proof {
        let views = warp_views(r@);
        lemma_warps_at_sound(nodes@, turns@, places@, mg_deform_targets@, nodes@.len() - 1);
        assert forall|i: int| 0 <= i < r@.len() implies mesh_group::warp_sound(
            (#[trigger] r@[i]).1,
        ) by {
            let w = r@[i].1;
            assert(views[i].1 == w@);
            assert forall|j: int| 0 <= j < w.children@.len() implies (
            #[trigger] w.children@[j]).map@.len() == w.children@[j].rest_query@.len() by {
                assert(views[i].1.children[j] == w.children@[j]@);
            }
        }
    }
    r
}

/// A composite that stops warps keeps them from everything below it.
pub proof fn lemma_composite_stops_warps(
    nodes: Seq<InxNode>,
    turns: Seq<[Scalar; 2]>,
    places: Map<u64, u64>,
    lattice: InxMesh,
    at: int,
    before: Aff2,
)
    requires
        0 <= at < nodes.len(),
        children_first(nodes),
        stops_warps(nodes[at]),
    ensures
        gathered(nodes, turns, places, lattice, at, before).len() == 0,
{
}

pub open spec fn parts_matched(parts: Seq<mesh_group::CarriedPart>) -> bool {
    forall|i: int|
        0 <= i < parts.len() ==> (#[trigger] parts[i]).map.len() == parts[i].rest_query.len()
}

proof fn lemma_gathered_matched(
    nodes: Seq<InxNode>,
    turns: Seq<[Scalar; 2]>,
    places: Map<u64, u64>,
    lattice: InxMesh,
    at: int,
    before: Aff2,
)
    requires
        0 <= at < nodes.len(),
        children_first(nodes),
    ensures
        parts_matched(gathered(nodes, turns, places, lattice, at, before)),
    decreases at, nodes[at].children@.len() + 1,
{
    let n = nodes[at];
    let to_group = mesh_group::composed(before, local_map(n, turns[at]));
    lemma_gathered_below_matched(
        nodes,
        turns,
        places,
        lattice,
        at,
        n.children@.len(),
        to_group,
    );
}

proof fn lemma_gathered_below_matched(
    nodes: Seq<InxNode>,
    turns: Seq<[Scalar; 2]>,
    places: Map<u64, u64>,
    lattice: InxMesh,
    at: int,
    k: nat,
    to_group: Aff2,
)
    requires
        0 <= at < nodes.len(),
        children_first(nodes),
        k <= nodes[at].children@.len(),
    ensures
        parts_matched(gathered_below(nodes, turns, places, lattice, at, k, to_group)),
    decreases at, k,
{
    if k > 0 {
        lemma_gathered_below_matched(nodes, turns, places, lattice, at, (k - 1) as nat, to_group);
        lemma_gathered_matched(
            nodes,
            turns,
            places,
            lattice,
            nodes[at].children@[k - 1] as int,
            to_group,
        );
    }
}

pub open spec fn views_sound(ws: Seq<(u64, mesh_group::WarpView)>) -> bool {
    forall|i: int|
        0 <= i < ws.len() ==> parts_matched((#[trigger] ws[i]).1.children)
            && mesh_group::corners_exist(ws[i].1.lattice_rest.len() as int, ws[i].1.tris)
}

proof fn lemma_warps_at_sound(
    nodes: Seq<InxNode>,
    turns: Seq<[Scalar; 2]>,
    places: Map<u64, u64>,
    targets: Seq<u32>,
    at: int,
)
    requires
        0 <= at < nodes.len(),
        children_first(nodes),
        lattices_meshed(nodes, targets),
    ensures
        views_sound(warps_at(nodes, turns, places, targets, at)),
    decreases at, nodes[at].children@.len() + 1,
{
    let n = nodes[at];
    lemma_warps_below_sound(nodes, turns, places, targets, at, n.children@.len());
    if let Some(lattice) = lattice_of(n, targets) {
        lemma_gathered_below_matched(
            nodes,
            turns,
            places,
            lattice,
            at,
            n.children@.len(),
            mesh_group::unit_map(),
        );
    }
}

proof fn lemma_warps_below_sound(
    nodes: Seq<InxNode>,
    turns: Seq<[Scalar; 2]>,
    places: Map<u64, u64>,
    targets: Seq<u32>,
    at: int,
    k: nat,
)
    requires
        0 <= at < nodes.len(),
        children_first(nodes),
        lattices_meshed(nodes, targets),
        k <= nodes[at].children@.len(),
    ensures
        views_sound(warps_below(nodes, turns, places, targets, at, k)),
    decreases at, k,
{
    if k > 0 {
        lemma_warps_below_sound(nodes, turns, places, targets, at, (k - 1) as nat);
        lemma_warps_at_sound(nodes, turns, places, targets, nodes[at].children@[k - 1] as int);
    }
}

/// The links of a node in a plan: its parent stands before it and has it as a
/// child, and the group around it stands before it and is a group. `given` and
/// `around` are the parent and the group of the first node of the plan.
pub open spec fn linked(
    nodes: Seq<InxNode>,
    plan: Seq<SpawnNode>,
    base: nat,
    given: Option<usize>,
    around: Option<usize>,
    i: int,
) -> bool {
    let s = plan[i];
    &&& if i == 0 {
        s.parent == given
    } else {
        s.parent matches Some(p) && base <= p < base + i && nodes[plan[p
            - base].node as int].children@.contains(s.node)
    }
    &&& s.composite == around || (s.composite matches Some(c) && base <= c < base + i && plan[c
        - base].group is Some)
}

/// A node and what is spawned for its first `k` children.
spec fn partly_planned(
    nodes: Seq<InxNode>,
    at: int,
    k: nat,
    parent: Option<usize>,
    composite: Option<usize>,
    base: nat,
) -> Seq<SpawnNode> {
    seq![spawned(nodes[at], at as usize, parent, composite)] + planned_children(
        nodes,
        at,
        k,
        inner_group(nodes[at], composite, base),
        base,
    )
}

proof fn lemma_planned_linked(
    nodes: Seq<InxNode>,
    at: int,
    parent: Option<usize>,
    composite: Option<usize>,
    base: nat,
)
    requires
        0 <= at < nodes.len() <= usize::MAX,
        children_first(nodes),
        base + planned(nodes, at, parent, composite, base).len() <= usize::MAX,
    ensures
        planned(nodes, at, parent, composite, base).len() > 0,
        planned(nodes, at, parent, composite, base)[0].node == at,
        forall|i: int|
            0 <= i < planned(nodes, at, parent, composite, base).len() ==> #[trigger] linked(
                nodes,
                planned(nodes, at, parent, composite, base),
                base,
                parent,
                composite,
                i,
            ),
    decreases at, nodes[at].children@.len() + 1,
{
    let all = planned(nodes, at, parent, composite, base);
    let n = nodes[at].children@.len();
    assert(all == partly_planned(nodes, at, n, parent, composite, base));
    lemma_children_linked(nodes, at, n, parent, composite, base);
    assert(base as usize == base);
    assert forall|i: int| 0 <= i < all.len() implies #[trigger] linked(
        nodes,
        all,
        base,
        parent,
        composite,
        i,
    ) by {
        if i > 0 {
            assert(linked(
                nodes,
                partly_planned(nodes, at, n, parent, composite, base),
                base,
                parent,
                composite,
                i,
            ));
        }
    }
}

proof fn lemma_children_linked(
    nodes: Seq<InxNode>,
    at: int,
    k: nat,
    parent: Option<usize>,
    composite: Option<usize>,
    base: nat,
)
    requires
        0 <= at < nodes.len() <= usize::MAX,
        children_first(nodes),
        k <= nodes[at].children@.len(),
        base + partly_planned(nodes, at, k, parent, composite, base).len() <= usize::MAX,
    ensures
        forall|i: int|
            0 < i < partly_planned(nodes, at, k, parent, composite, base).len()
                ==> #[trigger] linked(
                nodes,
                partly_planned(nodes, at, k, parent, composite, base),
                base,
                parent,
                composite,
                i,
            ),
    decreases at, k,
{
    if k > 0 {
        let inner = inner_group(nodes[at], composite, base);
        let own = seq![spawned(nodes[at], at as usize, parent, composite)];
        let before = planned_children(nodes, at, (k - 1) as nat, inner, base);
        let child = nodes[at].children@[k - 1] as int;
        let start = base + 1 + before.len();
        let here = Some(base as usize);
        let new = planned(nodes, child, here, inner, start);
        assert(planned_children(nodes, at, k, inner, base) == before + new);
        lemma_children_linked(nodes, at, (k - 1) as nat, parent, composite, base);
        lemma_planned_linked(nodes, child, here, inner, start);
        let had = partly_planned(nodes, at, (k - 1) as nat, parent, composite, base);
        let all = partly_planned(nodes, at, k, parent, composite, base);
        assert(base as usize == base);
        assert forall|i: int| 0 < i < all.len() implies #[trigger] linked(
            nodes,
            all,
            base,
            parent,
            composite,
            i,
        ) by {
            if i < had.len() {
                assert(linked(nodes, had, base, parent, composite, i));
                assert(all[i] == had[i]);
                if let Some(p) = had[i].parent {
                    assert(all[p - base] == had[p - base]);
                }
                if let Some(c) = had[i].composite {
                    if base <= c < base + i {
                        assert(all[c - base] == had[c - base]);
                    }
                }
            } else {
                let j = i - had.len();
                assert(linked(nodes, new, start, here, inner, j));
                assert(all[i] == new[j]);
                if j == 0 {
                    assert(all[0] == own[0]);
                    assert(nodes[at].children@.contains(child as usize)) by {
                        assert(nodes[at].children@[k - 1] == child);
                    }
                } else {
                    let p = new[j].parent->0;
                    assert(all[p - base] == new[p - start]);
                }
                if new[j].composite == inner {
                    assert(all[0] == own[0]);
                } else {
                    let c = new[j].composite->0;
                    assert(all[c - base] == new[c - start]);
                }
            }
        }
    }
}

/// In the plan of a puppet every node but the first has a parent before it that
/// has it as a child, and every group that a node names stands before it and is
/// a group.
pub proof fn lemma_plan_linked(puppet: InxPuppet, plan: ScenePlan, i: int)
    requires
        children_first(puppet.nodes@),
        0 < puppet.nodes@.len() <= usize::MAX,
        plans(puppet, plan),
        plan.nodes@.len() <= usize::MAX,
        0 <= i < plan.nodes@.len(),
    ensures
        linked(puppet.nodes@, plan.nodes@, 0, None, None, i),
{
    lemma_planned_linked(puppet.nodes@, puppet.nodes@.len() - 1, None, None, 0);
}

/// A node is spawned where its map takes its own origin.
pub proof fn lemma_spawned_at_its_origin(
    n: InxNode,
    turn: [Scalar; 2],
    at: usize,
    parent: Option<usize>,
    composite: Option<usize>,
)
    requires
        mesh_group::placed(n.transform.translation, n.transform.scale, turn[0], turn[1]).l[0][0].finite(),
        mesh_group::placed(n.transform.translation, n.transform.scale, turn[0], turn[1]).l[0][1].finite(),
        mesh_group::placed(n.transform.translation, n.transform.scale, turn[0], turn[1]).l[1][0].finite(),
        mesh_group::placed(n.transform.translation, n.transform.scale, turn[0], turn[1]).l[1][1].finite(),
        n.transform.translation[0].finite(),
        n.transform.translation[1].finite(),
    ensures
        ({
            let s = spawned(n, at, parent, composite);
            let zero = arith::num(0);
            &&& exact::alike2(
                mesh_group::image(local_map(n, turn), [zero, zero]),
                [s.translation[0], s.translation[1]],
            )
            &&& s.translation[2] == n.transform.translation[2]
            &&& s.node == at && s.parent == parent && s.composite == composite
        }),
{
    let m = local_map(n, turn);
    let zero = arith::num(0);
    exact::lemma_times_zero(m.l[0][0], zero);
    exact::lemma_times_zero(m.l[0][1], zero);
    exact::lemma_times_zero(m.l[1][0], zero);
    exact::lemma_times_zero(m.l[1][1], zero);
    exact::lemma_plus_zero(m.l[0][0].times(zero), m.l[0][1].times(zero));
    exact::lemma_plus_zero(m.l[1][0].times(zero), m.l[1][1].times(zero));
    exact::lemma_plus_zero(m.t[0], m.l[0][0].times(zero).plus(m.l[0][1].times(zero)));
    crate::scalar::lemma_negated(n.transform.translation[1]);
    exact::lemma_plus_zero(m.t[1], m.l[1][0].times(zero).plus(m.l[1][1].times(zero)));
}

/// The nodes that some param deforms are those of its deform bindings, and no others.
pub proof fn lemma_deform_targets(params: Seq<InxParam>, k: nat, uuid: u32)
    requires
        k <= params.len(),
    ensures
        deform_targets(params, k).contains(uuid) <==> exists|p: int, b: int|
            #![trigger params[p].bindings@[b]]
            0 <= p < k && 0 <= b < params[p].bindings@.len() && params[p].bindings@[b].values
                is Deform && params[p].bindings@[b].node_uuid == uuid,
    decreases k,
{
    if k > 0 {
        let j = (k - 1) as nat;
        lemma_deform_targets(params, j, uuid);
        let had = deform_targets(params, j);
        let param = params[k - 1];
        lemma_with_targets(had, param, param.bindings@.len(), uuid);
        if deform_targets(params, k).contains(uuid) && !had.contains(uuid) {
            let b = choose|b: int|
                0 <= b < param.bindings@.len() && (#[trigger] param.bindings@[b]).values is Deform
                    && param.bindings@[b].node_uuid == uuid;
            assert(params[k - 1].bindings@[b].node_uuid == uuid);
        }
    }
}

proof fn lemma_with_targets(targets: Seq<u32>, param: InxParam, k: nat, uuid: u32)
    requires
        k <= param.bindings@.len(),
    ensures
        with_deform_targets(targets, param, k).contains(uuid) <==> targets.contains(uuid) || exists|
            b: int,
        |
            0 <= b < k && (#[trigger] param.bindings@[b]).values is Deform
                && param.bindings@[b].node_uuid == uuid,
    decreases k,
{
    if k > 0 {
        let j = (k - 1) as nat;
        lemma_with_targets(targets, param, j, uuid);
        let before = with_deform_targets(targets, param, j);
        let b = param.bindings@[k - 1];
        if b.values is Deform && !before.contains(b.node_uuid) {
            let now = before.push(b.node_uuid);
            assert(now[before.len() as int] == b.node_uuid);
            assert forall|u: u32| now.contains(u) <==> before.contains(u) || u == b.node_uuid by {
                if before.contains(u) {
                    let i = choose|i: int| 0 <= i < before.len() && before[i] == u;
                    assert(now[i] == u);
                }
            }
        }
    }
}

/// A param whose UUID no later param has starts at its own default.
pub proof fn lemma_param_starts_at_its_default(params: Seq<InxParam>, k: nat, p: int)
    requires
        0 <= p < k <= params.len(),
        forall|q: int| p < q < k ==> (#[trigger] params[q]).uuid != params[p].uuid,
    ensures
        defaults_of(params, k).dom().contains(params[p].uuid),
        defaults_of(params, k)[params[p].uuid] == params[p].defaults,
    decreases k,
{
    if p < k - 1 {
        assert(params[k - 1].uuid != params[p].uuid);
        lemma_param_starts_at_its_default(params, (k - 1) as nat, p);
    }
}

/// The bindings that are resolved are those whose nodes are in the scene, each with the
/// place of its node, in their order.
pub proof fn lemma_resolved_bindings(param: InxParam, places: Map<u64, u64>, k: nat, i: int)
    requires
        k <= param.bindings@.len(),
        param.bindings@.len() <= u32::MAX,
        0 <= i < resolved_bindings(param, places, k).len(),
    ensures
        ({
            let (b, at) = resolved_bindings(param, places, k)[i];
            &&& b < k
            &&& places.dom().contains(param.bindings@[b as int].node_uuid as u64)
            &&& places[param.bindings@[b as int].node_uuid as u64] == at
        }),
    decreases k,
{
    if k > 0 {
        let before = resolved_bindings(param, places, (k - 1) as nat);
        if i < before.len() {
            lemma_resolved_bindings(param, places, (k - 1) as nat, i);
        }
    }
}

/// A part is seen from a group through the node that it is on and what lies between: a
/// vertex rests where the node's own map takes it, and then the map of what is above.
pub proof fn lemma_part_is_seen_from_group(
    nodes: Seq<InxNode>,
    turns: Seq<[Scalar; 2]>,
    places: Map<u64, u64>,
    lattice: InxMesh,
    at: int,
    before: Aff2,
    m: Seq<int>,
    n: Seq<int>,
    i: int,
    x: int,
    y: int,
)
    requires
        0 <= at < nodes.len(),
        children_first(nodes),
        nodes[at].children@.len() == 0,
        part_mesh(nodes[at]) is Some,
        gathered(nodes, turns, places, lattice, at, before).len() > 0,
        mesh_group::whole_map(before, m, 16),
        mesh_group::whole_map(local_map(nodes[at], turns[at]), n, 16),
        0 <= i < part_mesh(nodes[at])->0.vertex_buffer@.len(),
        exact::stands_for(mesh_group::from_origin(part_mesh(nodes[at])->0, i)[0], x, 149),
        exact::stands_for(mesh_group::from_origin(part_mesh(nodes[at])->0, i)[1], y, 149),
        -16 <= x <= 16,
        -16 <= y <= 16,
    ensures
        ({
            let r = gathered(nodes, turns, places, lattice, at, before);
            let p = mesh_group::from_origin(part_mesh(nodes[at])->0, i);
            &&& r.len() == 1
            &&& id_map::found(places, nodes[at].uuid as u64) == Some(r[0].entity)
            &&& exact::alike2(
                r[0].rest_query[i],
                mesh_group::image(
                    before,
                    mesh_group::image(local_map(nodes[at], turns[at]), p),
                ),
            )
        }),
{
    let p = mesh_group::from_origin(part_mesh(nodes[at])->0, i);
    let local = local_map(nodes[at], turns[at]);
    mesh_group::lemma_composed_follows(before, local, m, n, p, x, y);
    let r = gathered(nodes, turns, places, lattice, at, before);
    let to_group = mesh_group::composed(before, local);
    let below = gathered_below(nodes, turns, places, lattice, at, 0, to_group);
    assert(below.len() == 0);
    let mesh = part_mesh(nodes[at])->0;
    assert(r[0].rest_query == mesh_group::part_points(mesh, to_group));
}

/// Nodes between a group and a part add their own maps, the innermost first: `m` is the
/// map above the outer node, `k` the same with that node's own map, `n` that of the
/// outer node and `l` that of the part.
pub proof fn lemma_part_is_seen_through_nodes(
    nodes: Seq<InxNode>,
    turns: Seq<[Scalar; 2]>,
    places: Map<u64, u64>,
    lattice: InxMesh,
    at: int,
    before: Aff2,
    m: Seq<int>,
    k: Seq<int>,
    n: Seq<int>,
    l: Seq<int>,
    i: int,
    v: [int; 2],
    w: [int; 2],
)
    requires
        0 <= at < nodes.len(),
        children_first(nodes),
        nodes[at].children@.len() == 1,
        part_mesh(nodes[at]) is None,
        !stops_warps(nodes[at]),
        gathered(nodes, turns, places, lattice, at, before).len() > 0,
        ({
            let c = nodes[at].children@[0] as int;
            let outer = local_map(nodes[at], turns[at]);
            let inner = local_map(nodes[c], turns[c]);
            let p = mesh_group::from_origin(part_mesh(nodes[c])->0, i);
            let q = mesh_group::image(inner, p);
            &&& nodes[c].children@.len() == 0
            &&& part_mesh(nodes[c]) is Some
            &&& 0 <= i < part_mesh(nodes[c])->0.vertex_buffer@.len()
            &&& mesh_group::whole_map(before, m, 16)
            &&& mesh_group::whole_map(mesh_group::composed(before, outer), k, 16)
            &&& mesh_group::whole_map(outer, n, 16)
            &&& mesh_group::whole_map(inner, l, 16)
            &&& exact::stands_for(p[0], v[0], 149) && exact::stands_for(p[1], v[1], 149)
            &&& exact::stands_for(q[0], w[0], 149) && exact::stands_for(q[1], w[1], 149)
        }),
        -16 <= v[0] <= 16,
        -16 <= v[1] <= 16,
        -16 <= w[0] <= 16,
        -16 <= w[1] <= 16,
    ensures
        ({
            let c = nodes[at].children@[0] as int;
            let r = gathered(nodes, turns, places, lattice, at, before);
            let p = mesh_group::from_origin(part_mesh(nodes[c])->0, i);
            let q = mesh_group::image(local_map(nodes[c], turns[c]), p);
            &&& r.len() == 1
            &&& id_map::found(places, nodes[c].uuid as u64) == Some(r[0].entity)
            &&& exact::alike2(
                r[0].rest_query[i],
                mesh_group::image(before, mesh_group::image(local_map(nodes[at], turns[at]), q)),
            )
        }),
{
    let c = nodes[at].children@[0] as int;
    let outer = local_map(nodes[at], turns[at]);
    let inner = local_map(nodes[c], turns[c]);
    let to_group = mesh_group::composed(before, outer);
    let p = mesh_group::from_origin(part_mesh(nodes[c])->0, i);
    let q = mesh_group::image(inner, p);
    let r = gathered(nodes, turns, places, lattice, at, before);
    let child = gathered(nodes, turns, places, lattice, c, to_group);
    assert(gathered_below(nodes, turns, places, lattice, at, 0, to_group).len() == 0);
    assert(gathered_below(nodes, turns, places, lattice, at, 1, to_group) =~= child);
    assert(r =~= child);
    lemma_part_is_seen_from_group(
        nodes,
        turns,
        places,
        lattice,
        c,
        to_group,
        k,
        l,
        i,
        v[0],
        v[1],
    );
    mesh_group::lemma_composed_follows(before, outer, m, n, q, w[0], w[1]);
}

/// A composite with children makes a group of them with the colors of its material, at
/// its own depth. A node of another kind, or without children, makes none.
pub proof fn lemma_group_takes_its_material(n: InxNode, m: crate::model::InxMaterial)
    requires
        n.material == Some(m),
    ensures
        group_made(n) is Some <==> n.node_type == InxNodeType::Composite && n.children@.len() > 0,
        group_made(n) matches Some((g, _)) ==> g.opacity == m.opacity && g.tint == m.tint
            && g.screen_tint == m.screen_tint && g.blend_mode == m.blend_mode && g.mask_threshold
            == m.mask_threshold && g.zsort == n.zsort,
{
}

} // verus!
