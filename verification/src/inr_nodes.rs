//! Building the node list of a puppet from an INR document.

use crate::id_map::NameMap;
use crate::inr::{InrComposite, InrDoc, InrError, InrMesh, InrModel, InrNode, InrPart, InrPhysics};
use crate::inr_loader;
use crate::inr_loader::{blend_mode, convert_masks, convert_mesh, node_type, tex_handle};
use crate::inr_names::same_text;
use crate::mask_clip;
use crate::model::{
    InxMaterial, InxMesh, InxNode, InxNodeType, NodeTransform, PhysicsMapMode, PhysicsModel,
    SimplePhysicsConfig,
};
use crate::scalar::Scalar;
use vstd::prelude::*;

verus! {

/// The mesh of a node, as it can be read.
pub open spec fn node_mesh(model: InrModel, mesh: Option<InrMesh>, r: Option<InxMesh>) -> bool {
    match (mesh, r) {
        (Some(m), Some(made)) => inr_loader::mesh_reads(model, m, made),
        (None, None) => true,
        _ => false,
    }
}

/// The polygons of a silhouette.
pub open spec fn silhouette(contours: Option<Vec<Vec<[Scalar; 2]>>>) -> Option<
    Seq<Seq<[Scalar; 2]>>,
> {
    match contours {
        Some(cs) => Some(mask_clip::contour_points(cs@)),
        None => None,
    }
}

/// The silhouette that the first `k` entries have for a node, if any.
pub open spec fn baked(
    entries: Seq<(u32, Vec<Vec<[Scalar; 2]>>)>,
    uuid: u32,
    k: nat,
) -> Option<Seq<Seq<[Scalar; 2]>>>
    decreases k,
{
    if k == 0 {
        None
    } else if entries[k - 1].0 == uuid {
        Some(mask_clip::contour_points(entries[k - 1].1@))
    } else {
        baked(entries, uuid, (k - 1) as nat)
    }
}

fn copy_contour(points: &Vec<[Scalar; 2]>) -> (r: Vec<[Scalar; 2]>)
    ensures
        r@ == points@,
{
    let mut r: Vec<[Scalar; 2]> = Vec::new();
    let mut i: usize = 0;
    while i < points.len()
        invariant
            i <= points@.len(),
            r@ == points@.take(i as int),
        decreases points@.len() - i,
    {
        r.push(points[i]);
        i = i + 1;
        assert(r@ =~= points@.take(i as int));
    }
    assert(r@ =~= points@);
    r
}

/// The baked silhouette of a node, if the document has one.
fn find_baked(doc: &InrDoc, uuid: u32) -> (r: Option<Vec<Vec<[Scalar; 2]>>>)
    ensures
        silhouette(r) == baked(doc.mask_contours@, uuid, doc.mask_contours@.len()),
{
    let mut k: usize = doc.mask_contours.len();
    while k > 0
        invariant
            k <= doc.mask_contours@.len(),
            baked(doc.mask_contours@, uuid, doc.mask_contours@.len()) == baked(
                doc.mask_contours@,
                uuid,
                k as nat,
            ),
        decreases k,
    {
        let entry = &doc.mask_contours[k - 1];
        if entry.0 == uuid {
            let ghost want = mask_clip::contour_points(entry.1@);
            let mut copies: Vec<Vec<[Scalar; 2]>> = Vec::new();
            let mut i: usize = 0;
            while i < entry.1.len()
                invariant
                    i <= entry.1@.len(),
                    want == mask_clip::contour_points(entry.1@),
                    mask_clip::contour_points(copies@) == want.take(i as int),
                decreases entry.1@.len() - i,
            {
                let c = copy_contour(&entry.1[i]);
                let ghost had = copies@;
                copies.push(c);
                i = i + 1;
                assert(mask_clip::contour_points(copies@) =~= mask_clip::contour_points(had).push(
                    c@,
                ));
                assert(mask_clip::contour_points(copies@) =~= want.take(i as int));
            }
            assert(want.take(i as int) =~= want);
            return Some(copies);
        }
        k = k - 1;
    }
    None
}

/// An authored texture index; a negative one means none.
pub open spec fn texture_index(t: i32) -> u32 {
    if t < 0 {
        u32::MAX
    } else {
        t as u32
    }
}

/// The material of a part. Its mesh has the silhouette that is baked for the node.
pub open spec fn part_material(model: InrModel, n: InrNode, part: InrPart, r: InxMaterial) -> bool {
    let images = model.doc.textures@.len() as int;
    &&& node_mesh(model, n.mesh, r.mesh)
    &&& r.mesh matches Some(mesh) ==> silhouette(mesh.mask_contour_uv) == baked(
        model.doc.mask_contours@,
        n.uuid,
        model.doc.mask_contours@.len(),
    )
    &&& r.texture_albedo == inr_loader::image_at(images, part.textures[0] as int)
    &&& r.texture_emissive == inr_loader::image_at(images, part.textures[1] as int)
    &&& r.texture_bumpmap == inr_loader::image_at(images, part.textures[2] as int)
    &&& r.textures == [
        texture_index(part.textures[0]),
        texture_index(part.textures[1]),
        texture_index(part.textures[2]),
    ]
    &&& r.tint == part.tint
    &&& r.screen_tint == part.screen_tint
    &&& r.opacity == part.opacity
    &&& r.emissive_strength == part.emission_strength
    &&& r.mask_threshold == part.mask_threshold
    &&& r.blend_mode == inr_loader::blend_named(part.blend_mode.name())
    &&& r.masks@ == inr_loader::masks_read(model.doc.nodes@, part.masks@, part.masks@.len())
}

/// The material of a composite: colors and masks, no mesh and no textures.
pub open spec fn composite_material(model: InrModel, comp: InrComposite, r: InxMaterial) -> bool {
    &&& r.mesh is None
    &&& r.texture_albedo is None
    &&& r.texture_emissive is None
    &&& r.texture_bumpmap is None
    &&& r.textures == [u32::MAX, u32::MAX, u32::MAX]
    &&& r.tint == comp.tint
    &&& r.screen_tint == comp.screen_tint
    &&& r.opacity == comp.opacity
    &&& r.emissive_strength == (Scalar { bits: 0 })
    &&& r.mask_threshold == comp.mask_threshold
    &&& r.blend_mode == inr_loader::blend_named(comp.blend_mode.name())
    &&& r.masks@ == inr_loader::masks_read(model.doc.nodes@, comp.masks@, comp.masks@.len())
}

/// The simulation type that a name stands for.
pub open spec fn physics_model_named(s: Seq<char>) -> PhysicsModel {
    if s == "spring_pendulum"@ {
        PhysicsModel::SpringPendulum
    } else {
        PhysicsModel::Pendulum
    }
}

/// The map mode that a name stands for.
pub open spec fn map_mode_named(s: Seq<char>) -> PhysicsMapMode {
    if s == "xy"@ {
        PhysicsMapMode::XY
    } else if s == "length_angle"@ {
        PhysicsMapMode::LengthAngle
    } else if s == "yx"@ {
        PhysicsMapMode::YX
    } else {
        PhysicsMapMode::AngleLength
    }
}

/// The configuration of a physics node. A param that does not exist has the
/// UUID `u32::MAX`.
pub open spec fn physics_config(model: InrModel, p: InrPhysics) -> SimplePhysicsConfig {
    SimplePhysicsConfig {
        param_uuid: if 0 <= p.param < model.doc.params@.len() {
            model.doc.params@[p.param as int].uuid
        } else {
            u32::MAX
        },
        model: physics_model_named(p.model.name()),
        map_mode: map_mode_named(p.map_mode.name()),
        gravity: p.gravity,
        length: p.length,
        frequency: p.frequency,
        angle_damping: p.angle_damping,
        length_damping: p.length_damping,
        output_scale: p.output_scale,
        local_only: p.local_only,
    }
}

fn convert_physics(model: &InrModel, p: &InrPhysics) -> (r: SimplePhysicsConfig)
    ensures
        r == physics_config(*model, *p),
{
    let param_uuid: u32 = if p.param >= 0 && (p.param as usize) < model.doc.params.len() {
        model.doc.params[p.param as usize].uuid
    } else {
        u32::MAX
    };
    let kind = p.model.as_str();
    let map = p.map_mode.as_str();
    SimplePhysicsConfig {
        param_uuid,
        model: if same_text(kind, "spring_pendulum") {
            PhysicsModel::SpringPendulum
        } else {
            PhysicsModel::Pendulum
        },
        map_mode: if same_text(map, "xy") {
            PhysicsMapMode::XY
        } else if same_text(map, "length_angle") {
            PhysicsMapMode::LengthAngle
        } else if same_text(map, "yx") {
            PhysicsMapMode::YX
        } else {
            PhysicsMapMode::AngleLength
        },
        gravity: p.gravity,
        length: p.length,
        frequency: p.frequency,
        angle_damping: p.angle_damping,
        length_damping: p.length_damping,
        output_scale: p.output_scale,
        local_only: p.local_only,
    }
}

/// A node of the document as it can be read, but for its children. A part's
/// mesh is in its material; a mesh group keeps its own.
pub open spec fn node_reads(model: InrModel, n: InrNode, r: InxNode) -> bool {
    &&& r.uuid == n.uuid
    &&& r.name@ == n.name@
    &&& r.node_type == inr_loader::node_type_named(n.kind.name())
    &&& match (n.part, n.composite) {
        (Some(part), _) => r.material matches Some(mat) && part_material(model, n, part, mat),
        (None, Some(comp)) => r.material matches Some(mat) && composite_material(model, comp, mat),
        (None, None) => r.material is None,
    }
    &&& if n.part is None && r.node_type == InxNodeType::MeshGroup {
        node_mesh(model, n.mesh, r.mesh) && (r.mesh matches Some(mesh) ==> mesh.mask_contour_uv
            is None)
    } else {
        r.mesh is None
    }
    &&& r.mesh_group_dynamic == n.mesh_group_dynamic
    &&& r.composite_propagate_meshgroup == (match n.composite {
        Some(comp) => comp.propagate_meshgroup,
        None => true,
    })
    &&& r.compose_hint == (match n.composite {
        Some(comp) => comp.compose_hint,
        None => None,
    })
    &&& r.transform == (NodeTransform {
        translation: n.translation,
        rotation: n.rotation,
        scale: [n.scale[0], n.scale[1], Scalar { bits: 0x3f80_0000 }],
    })
    &&& r.zsort == n.zsort
    &&& r.enabled == n.enabled
    &&& r.physics_data == (match n.physics {
        Some(p) => Some(physics_config(model, p)),
        None => None,
    })
}

/// The first view of a node's mesh that cannot be read.
pub open spec fn node_error(model: InrModel, n: InrNode) -> Option<u32> {
    match n.mesh {
        Some(m) => inr_loader::mesh_error(model, m),
        None => None,
    }
}

fn index_or_none(t: i32) -> (r: u32)
    ensures
        r == texture_index(t),
{
    if t < 0 {
        u32::MAX
    } else {
        t as u32
    }
}

/// A mesh with the silhouette that is baked for its node.
fn outline_mesh(mesh: Option<InxMesh>, doc: &InrDoc, uuid: u32) -> (r: Option<InxMesh>)
    ensures
        mesh is None ==> r is None,
        mesh matches Some(m) ==> r matches Some(made) && m.vertex_buffer == made.vertex_buffer
            && m.uv_buffer == made.uv_buffer && m.index_buffer == made.index_buffer && m.origin
            == made.origin && silhouette(made.mask_contour_uv) == baked(
            doc.mask_contours@,
            uuid,
            doc.mask_contours@.len(),
        ),
{
    match mesh {
        Some(m) => Some(
            InxMesh {
                vertex_buffer: m.vertex_buffer,
                uv_buffer: m.uv_buffer,
                index_buffer: m.index_buffer,
                origin: m.origin,
                mask_contour_uv: find_baked(doc, uuid),
            },
        ),
        None => None,
    }
}

/// Reads a node of the document, given where its children stand in the node
/// list.
pub fn convert_node(model: &InrModel, n: &InrNode, children: Vec<usize>) -> (r: Result<
    InxNode,
    InrError,
>)
    ensures
        match node_error(*model, *n) {
            Some(view) => r == Err::<InxNode, InrError>(InrError::BadView(view)),
            None => r matches Ok(node) && node_reads(*model, *n, node) && node.children@
                == children@,
        },
{
    let kind = node_type(n.kind.as_str());
    let mesh = match &n.mesh {
        Some(m) => match convert_mesh(model, m) {
            Ok(mesh) => Some(mesh),
            Err(e) => {
                return Err(e);
            },
        },
        None => None,
    };
    assert(node_mesh(*model, n.mesh, mesh));
    let images: usize = model.doc.textures.len();
    let zero = Scalar { bits: 0 };
    let mut own_mesh: Option<InxMesh> = None;
    let material = match &n.part {
        Some(part) => Some(
            InxMaterial {
                mesh: outline_mesh(mesh, &model.doc, n.uuid),
                texture_albedo: tex_handle(images, part.textures[0]),
                texture_emissive: tex_handle(images, part.textures[1]),
                texture_bumpmap: tex_handle(images, part.textures[2]),
                textures: [
                    index_or_none(part.textures[0]),
                    index_or_none(part.textures[1]),
                    index_or_none(part.textures[2]),
                ],
                tint: part.tint,
                screen_tint: part.screen_tint,
                opacity: part.opacity,
                emissive_strength: part.emission_strength,
                mask_threshold: part.mask_threshold,
                blend_mode: blend_mode(part.blend_mode.as_str()),
                masks: convert_masks(&model.doc, &part.masks),
            },
        ),
        None => {
            if kind == InxNodeType::MeshGroup {
                own_mesh = mesh;
            }
            match &n.composite {
                Some(comp) => Some(
                    InxMaterial {
                        mesh: None,
                        texture_albedo: None,
                        texture_emissive: None,
                        texture_bumpmap: None,
                        textures: [u32::MAX, u32::MAX, u32::MAX],
                        tint: comp.tint,
                        screen_tint: comp.screen_tint,
                        opacity: comp.opacity,
                        emissive_strength: zero,
                        mask_threshold: comp.mask_threshold,
                        blend_mode: blend_mode(comp.blend_mode.as_str()),
                        masks: convert_masks(&model.doc, &comp.masks),
                    },
                ),
                None => None,
            }
        },
    };
    let (propagate, hint) = match &n.composite {
        Some(comp) => (comp.propagate_meshgroup, comp.compose_hint),
        None => (true, None),
    };
    let physics_data = match &n.physics {
        Some(p) => Some(convert_physics(model, p)),
        None => None,
    };
    Ok(
        InxNode {
            uuid: n.uuid,
            name: n.name.clone(),
            node_type: kind,
            material,
            mesh: own_mesh,
            mesh_group_dynamic: n.mesh_group_dynamic,
            composite_propagate_meshgroup: propagate,
            transform: NodeTransform {
                translation: n.translation,
                rotation: n.rotation,
                scale: [n.scale[0], n.scale[1], Scalar { bits: 0x3f80_0000 }],
            },
            zsort: n.zsort,
            enabled: n.enabled,
            physics_data,
            compose_hint: hint,
            children,
        },
    )
}

/// Node `i` has the parent `p`.
pub open spec fn is_child(nodes: Seq<InrNode>, i: int, p: int) -> bool {
    nodes[i].parent matches Some(q) && q == p
}

/// The children of `p` among the first `k` nodes, in order.
pub open spec fn kids(nodes: Seq<InrNode>, p: int, k: nat) -> Seq<int>
    decreases k,
{
    if k == 0 {
        Seq::empty()
    } else {
        let before = kids(nodes, p, (k - 1) as nat);
        if is_child(nodes, k - 1, p) {
            before.push(k - 1)
        } else {
            before
        }
    }
}

pub open spec fn kids_of(nodes: Seq<InrNode>, p: int) -> Seq<int> {
    kids(nodes, p, nodes.len())
}

pub proof fn lemma_kids(nodes: Seq<InrNode>, p: int, k: nat)
    ensures
        forall|j: int|
            0 <= j < kids(nodes, p, k).len() ==> 0 <= #[trigger] kids(nodes, p, k)[j] < k
                && is_child(nodes, kids(nodes, p, k)[j], p),
    decreases k,
{
    if k > 0 {
        lemma_kids(nodes, p, (k - 1) as nat);
        let before = kids(nodes, p, (k - 1) as nat);
        let now = kids(nodes, p, k);
        assert forall|j: int| 0 <= j < now.len() implies 0 <= #[trigger] now[j] < k && is_child(
            nodes,
            now[j],
            p,
        ) by {
            if j < before.len() {
                assert(now[j] == before[j]);
            }
        }
    }
}

/// The root of the document: the last node without a parent, or else the first
/// node.
pub open spec fn root_among(nodes: Seq<InrNode>, k: nat) -> int
    decreases k,
{
    if k == 0 {
        0
    } else if nodes[k - 1].parent is None {
        k - 1
    } else {
        root_among(nodes, (k - 1) as nat)
    }
}

pub open spec fn root_of(nodes: Seq<InrNode>) -> int {
    root_among(nodes, nodes.len())
}

/// `reach` holds the root and the children of what it holds, and `rank` falls
/// from each of them to its children.
pub open spec fn grounded(
    nodes: Seq<InrNode>,
    root: int,
    reach: Set<int>,
    rank: spec_fn(int) -> nat,
) -> bool {
    &&& reach.contains(root)
    &&& forall|i: int, p: int|
        #![trigger is_child(nodes, i, p)]
        0 <= i < nodes.len() && is_child(nodes, i, p) && reach.contains(p) ==> reach.contains(i)
            && rank(i) < rank(p)
}

/// The nodes below the root form a tree.
pub open spec fn tree_at(nodes: Seq<InrNode>, root: int) -> bool {
    exists|reach: Set<int>, rank: spec_fn(int) -> nat| grounded(nodes, root, reach, rank)
}

pub open spec fn ground(nodes: Seq<InrNode>, root: int) -> (Set<int>, spec_fn(int) -> nat) {
    choose|reach: Set<int>, rank: spec_fn(int) -> nat| grounded(nodes, root, reach, rank)
}

/// The node can be reached from the root of a tree.
pub open spec fn below(nodes: Seq<InrNode>, root: int, e: int) -> bool {
    tree_at(nodes, root) && ground(nodes, root).0.contains(e)
}

/// The nodes at and below `e`, children before their parent.
pub open spec fn post_order(nodes: Seq<InrNode>, root: int, e: int) -> Seq<int>
    decreases ground(nodes, root).1(e), kids_of(nodes, e).len() + 1,
    when below(nodes, root, e)
{
    post_kids(nodes, root, e, kids_of(nodes, e).len()).push(e)
}

/// The nodes at and below the first `k` children of `e`.
pub open spec fn post_kids(nodes: Seq<InrNode>, root: int, e: int, k: nat) -> Seq<int>
    decreases ground(nodes, root).1(e), k,
    when below(nodes, root, e) && k <= kids_of(nodes, e).len()
{
    proof {
        lemma_kids(nodes, e, nodes.len());
    }
    if k == 0 {
        Seq::empty()
    } else {
        post_kids(nodes, root, e, (k - 1) as nat) + post_order(
            nodes,
            root,
            kids_of(nodes, e)[k - 1],
        )
    }
}

/// Each parent stands before its children.
pub open spec fn pre_ordered(nodes: Seq<InrNode>) -> bool {
    forall|i: int, p: int|
        #![trigger is_child(nodes, i, p)]
        0 <= i < nodes.len() && is_child(nodes, i, p) ==> p < i
}

/// A document in pre-order is a tree, whatever its root.
pub proof fn lemma_pre_order_is_tree(nodes: Seq<InrNode>, root: int)
    requires
        pre_ordered(nodes),
    ensures
        tree_at(nodes, root),
{
    let reach = Set::<int>::full();
    let rank = |i: int|
        if i < nodes.len() {
            (nodes.len() - i) as nat
        } else {
            0
        };
    assert(grounded(nodes, root, reach, rank));
}

/// Whether each parent stands before its children.
pub fn is_pre_ordered(nodes: &Vec<InrNode>) -> (r: bool)
    ensures
        r == pre_ordered(nodes@),
{
    let mut i: usize = 0;
    while i < nodes.len()
        invariant
            i <= nodes@.len(),
            forall|j: int, p: int|
                #![trigger is_child(nodes@, j, p)]
                0 <= j < i && is_child(nodes@, j, p) ==> p < j,
        decreases nodes@.len() - i,
    {
        if let Some(p) = nodes[i].parent {
            if p as usize >= i {
                assert(is_child(nodes@, i as int, p as int));
                return false;
            }
        }
        i = i + 1;
    }
    true
}

/// The ancestor `k` steps up; above a node without a parent there is only itself.
pub open spec fn ancestor(nodes: Seq<InrNode>, i: int, k: nat) -> int
    decreases k,
{
    if k == 0 {
        i
    } else {
        let j = ancestor(nodes, i, (k - 1) as nat);
        match nodes[j].parent {
            Some(p) => p as int,
            None => j,
        }
    }
}

proof fn lemma_ancestor_adds(nodes: Seq<InrNode>, i: int, a: nat, b: nat)
    ensures
        ancestor(nodes, ancestor(nodes, i, a), b) == ancestor(nodes, i, a + b),
    decreases b,
{
    if b > 0 {
        lemma_ancestor_adds(nodes, i, a, (b - 1) as nat);
    }
}

proof fn lemma_top_stays(nodes: Seq<InrNode>, i: int, k: nat)
    requires
        nodes[i].parent is None,
    ensures
        ancestor(nodes, i, k) == i,
    decreases k,
{
    if k > 0 {
        lemma_top_stays(nodes, i, (k - 1) as nat);
    }
}

proof fn lemma_ancestor_repeats(nodes: Seq<InrNode>, i: int, m: nat, q: nat)
    requires
        ancestor(nodes, i, m) == i,
    ensures
        ancestor(nodes, i, m * q) == i,
    decreases q,
{
    if q > 0 {
        lemma_ancestor_repeats(nodes, i, m, (q - 1) as nat);
        lemma_ancestor_adds(nodes, i, m * ((q - 1) as nat), m);
        assert(m * ((q - 1) as nat) + m == m * q) by (nonlinear_arith)
            requires
                q >= 1,
        ;
    } else {
        assert(m * q == 0) by (nonlinear_arith)
            requires
                q == 0,
        ;
    }
}

/// The root is above the node.
pub open spec fn under(nodes: Seq<InrNode>, i: int, top: int) -> bool {
    exists|k: nat| #[trigger] ancestor(nodes, i, k) == top
}

/// The nodes at and below a node.
pub open spec fn family(nodes: Seq<InrNode>, p: int) -> Set<int> {
    vstd::set_lib::set_int_range(0, nodes.len() as int).filter(|j: int| under(nodes, j, p))
}

/// The node has a parent, and stands above itself.
pub open spec fn circular(nodes: Seq<InrNode>, i: int) -> bool {
    nodes[i].parent is Some && exists|m: nat| m >= 1 && #[trigger] ancestor(nodes, i, m) == i
}

/// Below a node that does not stand above itself there is a tree, in whatever
/// order the nodes are.
pub proof fn lemma_top_is_tree(nodes: Seq<InrNode>, root: int)
    requires
        0 <= root < nodes.len(),
        !circular(nodes, root),
        parents_exist(nodes),
    ensures
        tree_at(nodes, root),
{
    let reach = Set::new(|i: int| 0 <= i < nodes.len() && under(nodes, i, root));
    let rank = |i: int| family(nodes, i).len();
    assert(ancestor(nodes, root, 0) == root);
    assert forall|i: int, p: int|
        #![trigger is_child(nodes, i, p)]
        0 <= i < nodes.len() && is_child(nodes, i, p) && reach.contains(p) implies reach.contains(i)
        && rank(i) < rank(p) by {
        let d = choose|k: nat| #[trigger] ancestor(nodes, p, k) == root;
        assert(ancestor(nodes, i, 0) == i);
        assert(ancestor(nodes, i, 1) == p);
        lemma_ancestor_adds(nodes, i, 1, d);
        assert(ancestor(nodes, i, 1 + d) == root);
        let all = vstd::set_lib::set_int_range(0, nodes.len() as int);
        vstd::set_lib::lemma_int_range(0, nodes.len() as int);
        let small = family(nodes, i);
        let large = family(nodes, p);
        vstd::set_lib::lemma_len_subset(large, all);
        assert forall|j: int| small.contains(j) implies #[trigger] large.contains(j) by {
            let k = choose|k: nat| #[trigger] ancestor(nodes, j, k) == i;
            lemma_ancestor_adds(nodes, j, k, 1);
            assert(ancestor(nodes, j, k + 1) == p);
        }
        assert(ancestor(nodes, p, 0) == p);
        assert(large.contains(p));
        if small.contains(p) {
            let k = choose|k: nat| #[trigger] ancestor(nodes, p, k) == i;
            lemma_ancestor_adds(nodes, p, k, 1);
            let m = k + 1;
            assert(ancestor(nodes, p, m) == p);
            lemma_ancestor_adds(nodes, p, m, d);
            lemma_ancestor_adds(nodes, p, d, m);
            assert(ancestor(nodes, root, m) == root);
            assert(nodes[root].parent is None);
            lemma_ancestor_repeats(nodes, p, m, d);
            assert(m * d >= d) by (nonlinear_arith)
                requires
                    m >= 1,
            ;
            lemma_ancestor_adds(nodes, p, d, (m * d - d) as nat);
            lemma_top_stays(nodes, root, (m * d - d) as nat);
            assert(p == root);
            lemma_top_stays(nodes, root, k);
            assert(i == root);
        }
        assert(small.subset_of(large.remove(p)));
        vstd::set_lib::lemma_len_subset(small, large.remove(p));
    }
    assert(grounded(nodes, root, reach, rank));
}

proof fn lemma_cycle_descends(
    nodes: Seq<InrNode>,
    root: int,
    reach: Set<int>,
    rank: spec_fn(int) -> nat,
    m: nat,
    k: nat,
)
    requires
        0 <= root < nodes.len(),
        parents_exist(nodes),
        forall|i: int| 0 <= i < nodes.len() ==> (#[trigger] nodes[i]).parent is Some,
        grounded(nodes, root, reach, rank),
        ancestor(nodes, root, m) == root,
        k <= m,
    ensures
        reach.contains(ancestor(nodes, root, k)),
        rank(ancestor(nodes, root, k)) + (m - k) <= rank(root),
    decreases m - k,
{
    if k < m {
        lemma_cycle_descends(nodes, root, reach, rank, m, k + 1);
        lemma_ancestor_in_range(nodes, root, k);
        let i = ancestor(nodes, root, k);
        assert(is_child(nodes, i, ancestor(nodes, root, k + 1)));
    }
}

proof fn lemma_ancestor_in_range(nodes: Seq<InrNode>, i: int, k: nat)
    requires
        0 <= i < nodes.len(),
        parents_exist(nodes),
    ensures
        0 <= ancestor(nodes, i, k) < nodes.len(),
    decreases k,
{
    if k > 0 {
        lemma_ancestor_in_range(nodes, i, (k - 1) as nat);
    }
}

/// Below a node that stands above itself there is no tree, if every node has a
/// parent.
proof fn lemma_circle_is_no_tree(nodes: Seq<InrNode>, root: int)
    requires
        0 <= root < nodes.len(),
        parents_exist(nodes),
        forall|i: int| 0 <= i < nodes.len() ==> (#[trigger] nodes[i]).parent is Some,
        circular(nodes, root),
    ensures
        !tree_at(nodes, root),
{
    let m = choose|m: nat| m >= 1 && #[trigger] ancestor(nodes, root, m) == root;
    if tree_at(nodes, root) {
        let (reach, rank) = ground(nodes, root);
        lemma_cycle_descends(nodes, root, reach, rank, m, 0);
        assert(ancestor(nodes, root, 0) == root);
    }
}

/// A node that stands above itself does so within as many steps as there are
/// nodes.
proof fn lemma_circle_is_short(nodes: Seq<InrNode>, i: int, m: nat)
    requires
        0 <= i < nodes.len(),
        parents_exist(nodes),
        m >= 1,
        ancestor(nodes, i, m) == i,
        forall|k: nat| 1 <= k < m ==> #[trigger] ancestor(nodes, i, k) != i,
    ensures
        m <= nodes.len(),
{
    let steps = Seq::new(m, |k: int| ancestor(nodes, i, k as nat));
    assert forall|a: int, b: int| 0 <= a < b < m implies steps[a] != steps[b] by {
        if steps[a] == steps[b] {
            let rest = (m - b) as nat;
            lemma_ancestor_adds(nodes, i, a as nat, rest);
            lemma_ancestor_adds(nodes, i, b as nat, rest);
            assert(ancestor(nodes, i, a as nat + rest) == i);
        }
    }
    assert(steps.no_duplicates());
    steps.unique_seq_to_set();
    let all = vstd::set_lib::set_int_range(0, nodes.len() as int);
    vstd::set_lib::lemma_int_range(0, nodes.len() as int);
    assert forall|x: int| steps.to_set().contains(x) implies #[trigger] all.contains(x) by {
        let k = choose|k: int| 0 <= k < steps.len() && steps[k] == x;
        lemma_ancestor_in_range(nodes, i, k as nat);
    }
    vstd::set_lib::lemma_len_subset(steps.to_set(), all);
}

/// The least number of steps in which a node stands above itself.
proof fn lemma_least_circle(nodes: Seq<InrNode>, i: int, m: nat) -> (least: nat)
    requires
        m >= 1,
        ancestor(nodes, i, m) == i,
    ensures
        1 <= least <= m,
        ancestor(nodes, i, least) == i,
        forall|k: nat| 1 <= k < least ==> #[trigger] ancestor(nodes, i, k) != i,
    decreases m,
{
    if exists|k: nat| 1 <= k < m && #[trigger] ancestor(nodes, i, k) == i {
        let k = choose|k: nat| 1 <= k < m && #[trigger] ancestor(nodes, i, k) == i;
        lemma_least_circle(nodes, i, k)
    } else {
        m
    }
}

/// Whether a node stands above itself, where every node has a parent.
fn is_circular(nodes: &Vec<InrNode>, at: usize) -> (r: bool)
    requires
        at < nodes@.len(),
        parents_exist(nodes@),
        forall|i: int| 0 <= i < nodes@.len() ==> (#[trigger] nodes@[i]).parent is Some,
    ensures
        r == circular(nodes@, at as int),
{
    let count: usize = nodes.len();
    let mut i: usize = at;
    let mut k: usize = 0;
    while k < count
        invariant
            count == nodes@.len(),
            at < count,
            i < count,
            k <= count,
            parents_exist(nodes@),
            forall|j: int| 0 <= j < nodes@.len() ==> (#[trigger] nodes@[j]).parent is Some,
            i == ancestor(nodes@, at as int, k as nat),
            forall|j: nat| 1 <= j <= k ==> #[trigger] ancestor(nodes@, at as int, j) != at,
        decreases count - k,
    {
        match nodes[i].parent {
            Some(p) => {
                i = p as usize;
            },
            None => {},
        }
        assert(i == ancestor(nodes@, at as int, (k + 1) as nat));
        if i == at {
            assert(nodes@[at as int].parent is Some);
            return true;
        }
        k = k + 1;
    }
    proof {
        if circular(nodes@, at as int) {
            let m = choose|m: nat| m >= 1 && #[trigger] ancestor(nodes@, at as int, m) == at;
            let least = lemma_least_circle(nodes@, at as int, m);
            lemma_circle_is_short(nodes@, at as int, least);
        }
    }
    false
}

/// Whether the nodes can be read as a tree: all parents exist, and nothing below
/// the root stands above it.
pub fn has_root(nodes: &Vec<InrNode>) -> (r: bool)
    ensures
        r == (nodes@.len() > 0 && parents_exist(nodes@) && tree_at(nodes@, root_of(nodes@))),
{
    let count: usize = nodes.len();
    if count == 0 {
        return false;
    }
    let mut found = false;
    let mut i: usize = 0;
    while i < count
        invariant
            count == nodes@.len(),
            i <= count,
            forall|j: int|
                0 <= j < i ==> ((#[trigger] nodes@[j]).parent matches Some(p) ==> p < count),
            !found ==> root_among(nodes@, i as nat) == 0,
            !found ==> forall|j: int| 0 <= j < i ==> (#[trigger] nodes@[j]).parent is Some,
            found ==> 0 <= root_among(nodes@, i as nat) < i && nodes@[root_among(
                nodes@,
                i as nat,
            )].parent is None,
        decreases count - i,
    {
        match nodes[i].parent {
            Some(p) => {
                if p as usize >= count {
                    assert(!parents_exist(nodes@)) by {
                        assert(nodes@[i as int].parent == Some(p));
                    }
                    return false;
                }
            },
            None => {
                found = true;
            },
        }
        i = i + 1;
    }
    if !found && is_circular(nodes, 0) {
        proof {
            lemma_circle_is_no_tree(nodes@, 0);
        }
        return false;
    }
    proof {
        lemma_top_is_tree(nodes@, root_of(nodes@));
    }
    true
}

/// The first unreadable view among the nodes, in the given order.
pub open spec fn order_error(model: InrModel, order: Seq<int>) -> Option<u32>
    decreases order.len(),
{
    if order.len() == 0 {
        None
    } else {
        match order_error(model, order.drop_last()) {
            Some(view) => Some(view),
            None => node_error(model, model.doc.nodes@[order.last()]),
        }
    }
}

/// The names after the nodes were listed in the given order, from position
/// `base` on.
pub open spec fn names_after(
    nodes: Seq<InrNode>,
    order: Seq<int>,
    base: int,
    names: Map<Seq<char>, u64>,
) -> Map<Seq<char>, u64>
    decreases order.len(),
{
    if order.len() == 0 {
        names
    } else {
        names_after(nodes, order.drop_last(), base, names).insert(
            nodes[order.last()].name@,
            (base + order.len() - 1) as u64,
        )
    }
}

/// Node `k` of the order, as it stands in a node list from position `base` on:
/// its children are listed before it.
pub open spec fn slot_reads(
    model: InrModel,
    order: Seq<int>,
    base: int,
    k: int,
    node: InxNode,
) -> bool {
    let children = kids_of(model.doc.nodes@, order[k]);
    &&& node_reads(model, model.doc.nodes@[order[k]], node)
    &&& node.children@.len() == children.len()
    &&& forall|j: int|
        0 <= j < children.len() ==> {
            &&& base <= #[trigger] node.children@[j] < base + k
            &&& order[node.children@[j] - base] == children[j]
        }
}

/// The node list holds the nodes of the order, from position `base` on.
pub open spec fn listed(
    model: InrModel,
    order: Seq<int>,
    base: int,
    nodes: Seq<InxNode>,
) -> bool {
    &&& base + order.len() <= nodes.len()
    &&& forall|k: int|
        0 <= k < order.len() ==> slot_reads(model, order, base, k, #[trigger] nodes[base + k])
}

proof fn lemma_order_error_concat(model: InrModel, a: Seq<int>, b: Seq<int>)
    ensures
        order_error(model, a + b) == (match order_error(model, a) {
            Some(view) => Some(view),
            None => order_error(model, b),
        }),
    decreases b.len(),
{
    if b.len() == 0 {
        assert(a + b =~= a);
    } else {
        lemma_order_error_concat(model, a, b.drop_last());
        assert((a + b).drop_last() =~= a + b.drop_last());
        assert((a + b).last() == b.last());
    }
}

proof fn lemma_names_concat(
    nodes: Seq<InrNode>,
    a: Seq<int>,
    b: Seq<int>,
    base: int,
    names: Map<Seq<char>, u64>,
)
    ensures
        names_after(nodes, a + b, base, names) == names_after(
            nodes,
            b,
            base + a.len(),
            names_after(nodes, a, base, names),
        ),
    decreases b.len(),
{
    if b.len() == 0 {
        assert(a + b =~= a);
    } else {
        lemma_names_concat(nodes, a, b.drop_last(), base, names);
        assert((a + b).drop_last() =~= a + b.drop_last());
        assert((a + b).last() == b.last());
    }
}

proof fn lemma_listed_concat(
    model: InrModel,
    a: Seq<int>,
    b: Seq<int>,
    base: int,
    nodes: Seq<InxNode>,
)
    requires
        listed(model, a, base, nodes),
        listed(model, b, base + a.len(), nodes),
    ensures
        listed(model, a + b, base, nodes),
{
    let c = a + b;
    assert forall|k: int| 0 <= k < c.len() implies slot_reads(
        model,
        c,
        base,
        k,
        #[trigger] nodes[base + k],
    ) by {
        let node = nodes[base + k];
        if k < a.len() {
            assert(slot_reads(model, a, base, k, nodes[base + k]));
        } else {
            assert(slot_reads(
                model,
                b,
                base + a.len(),
                k - a.len(),
                nodes[base + a.len() + (k - a.len())],
            ));
            assert forall|j: int| 0 <= j < node.children@.len() implies {
                &&& base <= #[trigger] node.children@[j] < base + k
                &&& c[node.children@[j] - base] == kids_of(model.doc.nodes@, c[k])[j]
            } by {
                assert(b[node.children@[j] - (base + a.len())] == kids_of(model.doc.nodes@, c[k])[j]);
            }
        }
    }
}

proof fn lemma_post_kids_error(model: InrModel, root: int, e: int, j: nat, k: nat)
    requires
        below(model.doc.nodes@, root, e),
        j <= k <= kids_of(model.doc.nodes@, e).len(),
        order_error(model, post_kids(model.doc.nodes@, root, e, j)) is Some,
    ensures
        order_error(model, post_kids(model.doc.nodes@, root, e, k)) == order_error(
            model,
            post_kids(model.doc.nodes@, root, e, j),
        ),
    decreases k,
{
    let nodes = model.doc.nodes@;
    if j < k {
        lemma_post_kids_error(model, root, e, j, (k - 1) as nat);
        let before = post_kids(nodes, root, e, (k - 1) as nat);
        let last = post_order(nodes, root, kids_of(nodes, e)[k - 1]);
        lemma_order_error_concat(model, before, last);
        lemma_kids(nodes, e, nodes.len());
        assert(is_child(nodes, kids_of(nodes, e)[k - 1], e));
        assert(grounded(nodes, root, ground(nodes, root).0, ground(nodes, root).1));
        assert(post_kids(nodes, root, e, k) == before + last);
    }
}

/// The children of each node, by position.
pub open spec fn child_lists_of(nodes: Seq<InrNode>, lists: Seq<Vec<usize>>) -> bool {
    &&& lists.len() == nodes.len()
    &&& forall|p: int|
        0 <= p < nodes.len() ==> crate::order::places((#[trigger] lists[p])@) == kids_of(nodes, p)
}

/// Every parent is a node.
pub open spec fn parents_exist(nodes: Seq<InrNode>) -> bool {
    forall|i: int|
        0 <= i < nodes.len() ==> ((#[trigger] nodes[i]).parent matches Some(p) ==> p < nodes.len())
}

/// The children of each node and the root.
pub fn child_lists(nodes: &Vec<InrNode>) -> (r: (Vec<Vec<usize>>, usize))
    requires
        parents_exist(nodes@),
    ensures
        child_lists_of(nodes@, r.0@),
        r.1 == root_of(nodes@),
{
    let mut lists: Vec<Vec<usize>> = Vec::new();
    let mut i: usize = 0;
    while i < nodes.len()
        invariant
            i <= nodes@.len(),
            lists@.len() == i,
            forall|p: int| 0 <= p < i ==> (#[trigger] lists@[p])@.len() == 0,
        decreases nodes@.len() - i,
    {
        lists.push(Vec::new());
        i = i + 1;
    }
    assert forall|p: int| 0 <= p < nodes@.len() implies crate::order::places(
        (#[trigger] lists@[p])@,
    ) == kids(nodes@, p, 0) by {
        assert(crate::order::places(lists@[p]@) =~= Seq::empty());
    }
    let mut root: usize = 0;
    let mut i: usize = 0;
    while i < nodes.len()
        invariant
            parents_exist(nodes@),
            i <= nodes@.len(),
            lists@.len() == nodes@.len(),
            forall|p: int|
                0 <= p < nodes@.len() ==> crate::order::places((#[trigger] lists@[p])@) == kids(
                    nodes@,
                    p,
                    i as nat,
                ),
            root == root_among(nodes@, i as nat),
        decreases nodes@.len() - i,
    {
        let ghost before = lists@;
        match nodes[i].parent {
            Some(p) => {
                let at: usize = p as usize;
                lists[at].push(i);
                proof {
                    assert forall|q: int| 0 <= q < nodes@.len() implies crate::order::places(
                        (#[trigger] lists@[q])@,
                    ) == kids(nodes@, q, (i + 1) as nat) by {
                        assert(crate::order::places(before[q]@) == kids(nodes@, q, i as nat));
                        if q == p {
                            assert(lists@[q]@ == before[q]@.push(i));
                            assert(crate::order::places(lists@[q]@) =~= crate::order::places(
                                before[q]@,
                            ).push(i as int));
                        } else {
                            assert(lists@[q]@ == before[q]@);
                        }
                    }
                }
            },
            None => {
                root = i;
            },
        }
        i = i + 1;
    }
    (lists, root)
}

/// Lists the nodes at and below a node, children first, and gives the position
/// of the node itself.
pub fn build_node(
    model: &InrModel,
    root: usize,
    index: usize,
    children: &Vec<Vec<usize>>,
    nodes: &mut Vec<InxNode>,
    named_nodes: &mut NameMap,
) -> (r: Result<usize, InrError>)
    requires
        below(model.doc.nodes@, root as int, index as int),
        index < model.doc.nodes@.len(),
        child_lists_of(model.doc.nodes@, children@),
    ensures
        match order_error(*model, post_order(model.doc.nodes@, root as int, index as int)) {
            Some(view) => r == Err::<usize, InrError>(InrError::BadView(view)),
            None => {
                let order = post_order(model.doc.nodes@, root as int, index as int);
                let base = old(nodes)@.len() as int;
                &&& r matches Ok(at) && at == base + order.len() - 1
                &&& final(nodes)@.len() == base + order.len()
                &&& final(nodes)@.take(base) == old(nodes)@
                &&& listed(*model, order, base, final(nodes)@)
                &&& final(named_nodes)@ == names_after(
                    model.doc.nodes@,
                    order,
                    base,
                    old(named_nodes)@,
                )
            },
        },
    decreases
            ground(model.doc.nodes@, root as int).1(index as int),
            kids_of(model.doc.nodes@, index as int).len() + 1,
{
    let ghost doc = model.doc.nodes@;
    let ghost rt = root as int;
    let ghost e = index as int;
    let ghost ks = kids_of(doc, e);
    let ghost base = nodes@.len() as int;
    let ghost start = nodes@;
    let ghost first_names = named_nodes@;
    let mut at_children: Vec<usize> = Vec::new();
    let mut k: usize = 0;
    proof {
        lemma_kids(doc, e, doc.len());
        assert(crate::order::places(children@[e]@) == ks);
        assert(nodes@.take(base) =~= start);
    }
    while k < children[index].len()
        invariant
            doc == model.doc.nodes@,
            rt == root,
            e == index,
            ks == kids_of(doc, e),
            below(doc, rt, e),
            index < doc.len(),
            child_lists_of(doc, children@),
            crate::order::places(children@[e]@) == ks,
            k <= ks.len(),
            base == start.len(),
            nodes@.len() == base + post_kids(doc, rt, e, k as nat).len(),
            nodes@.take(base) == start,
            listed(*model, post_kids(doc, rt, e, k as nat), base, nodes@),
            named_nodes@ == names_after(
                doc,
                post_kids(doc, rt, e, k as nat),
                base,
                first_names,
            ),
            order_error(*model, post_kids(doc, rt, e, k as nat)) is None,
            at_children@.len() == k,
            forall|j: int|
                0 <= j < k ==> {
                    &&& base <= #[trigger] at_children@[j] < base + post_kids(
                        doc,
                        rt,
                        e,
                        k as nat,
                    ).len()
                    &&& post_kids(doc, rt, e, k as nat)[at_children@[j] - base] == ks[j]
                },
            forall|j: int|
                0 <= j < ks.len() ==> 0 <= #[trigger] ks[j] < doc.len() && is_child(doc, ks[j], e),
        decreases ks.len() - k,
    {
        let ghost seq = post_kids(doc, rt, e, k as nat);
        let child: usize = children[index][k];
        proof {
            assert(crate::order::places(children@[e]@)[k as int] == child);
            assert(ks[k as int] == child);
            assert(is_child(doc, child as int, e));
            assert(grounded(doc, rt, ground(doc, rt).0, ground(doc, rt).1));
        }
        let ghost before = nodes@;
        let ghost sub = post_order(doc, rt, child as int);
        let ghost both = post_kids(doc, rt, e, (k + 1) as nat);
        proof {
            assert(both == seq + sub);
            lemma_order_error_concat(*model, seq, sub);
        }
        match build_node(model, root, child, children, nodes, named_nodes) {
            Err(err) => {
                proof {
                    lemma_post_kids_error(*model, rt, e, (k + 1) as nat, ks.len());
                    let all = post_kids(doc, rt, e, ks.len());
                    lemma_order_error_concat(*model, all, seq![e]);
                    assert(all.push(e) =~= all + seq![e]);
                }
                return Err(err);
            },
            Ok(at) => {
                at_children.push(at);
                proof {
                    assert(listed(*model, seq, base, nodes@)) by {
                        assert forall|i: int| 0 <= i < seq.len() implies slot_reads(
                            *model,
                            seq,
                            base,
                            i,
                            #[trigger] nodes@[base + i],
                        ) by {
                            assert(nodes@.take(before.len() as int)[base + i] == before[base + i]);
                        }
                    }
                    lemma_listed_concat(*model, seq, sub, base, nodes@);
                    lemma_names_concat(doc, seq, sub, base, first_names);
                    assert(nodes@.take(base) =~= start) by {
                        assert forall|i: int| 0 <= i < base implies nodes@[i] == start[i] by {
                            assert(nodes@.take(before.len() as int)[i] == before[i]);
                            assert(before.take(base)[i] == start[i]);
                        }
                    }
                    assert(sub.last() == child);
                    assert forall|j: int| 0 <= j < k + 1 implies {
                        &&& base <= #[trigger] at_children@[j] < base + both.len()
                        &&& both[at_children@[j] - base] == ks[j]
                    } by {
                        if j < k {
                            assert(seq[at_children@[j] - base] == ks[j]);
                        } else {
                            assert(both[seq.len() + (sub.len() - 1)] == sub[sub.len() - 1]);
                        }
                    }
                }
            },
        }
        k = k + 1;
    }
    let ghost all = post_kids(doc, rt, e, ks.len());
    let ghost order = post_order(doc, rt, e);
    proof {
        assert(order == all.push(e));
        assert(order =~= all + seq![e]);
        assert(order.drop_last() =~= all);
        lemma_order_error_concat(*model, all, seq![e]);
    }
    let ghost placed = at_children@;
    let node = match convert_node(model, &model.doc.nodes[index], at_children) {
        Ok(node) => node,
        Err(err) => {
            return Err(err);
        },
    };
    let at: usize = nodes.len();
    named_nodes.insert(model.doc.nodes[index].name.clone(), at as u64);
    let ghost prior = nodes@;
    nodes.push(node);
    proof {
        assert forall|i: int| 0 <= i < order.len() implies slot_reads(
            *model,
            order,
            base,
            i,
            #[trigger] nodes@[base + i],
        ) by {
            if i < all.len() {
                assert(nodes@[base + i] == prior[base + i]);
                assert(slot_reads(*model, all, base, i, prior[base + i]));
            } else {
                assert(order[i] == e);
                assert(nodes@[base + i] == node);
                assert forall|j: int| 0 <= j < ks.len() implies {
                    &&& base <= #[trigger] node.children@[j] < base + i
                    &&& order[node.children@[j] - base] == ks[j]
                } by {
                    assert(placed[j] == node.children@[j]);
                    assert(all[placed[j] - base] == ks[j]);
                }
            }
        }
        assert(nodes@.take(base) =~= start);
    }
    Ok(at)
}

proof fn lemma_root_in_range(nodes: Seq<InrNode>, k: nat)
    ensures
        0 <= root_among(nodes, k),
        k > 0 ==> root_among(nodes, k) < k,
    decreases k,
{
    if k > 0 {
        lemma_root_in_range(nodes, (k - 1) as nat);
    }
}

/// The root of a tree is a node of it.
pub proof fn lemma_root_is_below(nodes: Seq<InrNode>)
    requires
        nodes.len() > 0,
        tree_at(nodes, root_of(nodes)),
    ensures
        0 <= root_of(nodes) < nodes.len(),
        below(nodes, root_of(nodes), root_of(nodes)),
{
    lemma_root_in_range(nodes, nodes.len());
    let root = root_of(nodes);
    assert(grounded(nodes, root, ground(nodes, root).0, ground(nodes, root).1));
}

/// A simulation of a document is of the model and the map mode that are named, and
/// drives the param that it points at, or none.
pub proof fn lemma_physics_is_kept(model: InrModel, p: InrPhysics)
    ensures
        ({
            let r = physics_config(model, p);
            &&& r.model == match p.model {
                crate::inr_names::InrPhysicsModel::SpringPendulum => PhysicsModel::SpringPendulum,
                crate::inr_names::InrPhysicsModel::Pendulum => PhysicsModel::Pendulum,
            }
            &&& r.map_mode == match p.map_mode {
                crate::inr_names::InrMapMode::Xy => PhysicsMapMode::XY,
                crate::inr_names::InrMapMode::Yx => PhysicsMapMode::YX,
                crate::inr_names::InrMapMode::LengthAngle => PhysicsMapMode::LengthAngle,
                crate::inr_names::InrMapMode::AngleLength => PhysicsMapMode::AngleLength,
            }
        }),
{
    p.model.lemma_named();
    p.map_mode.lemma_named();
}

/// A part of a document is drawn as it says: with its own opacity, tints and blend mode,
/// with the images that it points at, and glowing only where it points at an image to
/// glow with.
pub proof fn lemma_part_is_drawn_as_told(model: InrModel, n: InrNode, part: InrPart, r: InxMaterial)
    requires
        part_material(model, n, part, r),
        model.doc.textures@.len() <= u64::MAX,
    ensures
        ({
            let v = crate::mesh2d::own_values(r);
            let images = model.doc.textures@.len();
            &&& v.opacity == part.opacity && v.tint == part.tint && v.screen_tint
                == part.screen_tint
            &&& 0 <= part.textures[1] < images ==> v.emissive_strength == part.emission_strength
            &&& !(0 <= part.textures[1] < images) ==> v.emissive_strength.mag() == 0
            &&& r.texture_albedo is Some <==> 0 <= part.textures[0] < images
            &&& r.texture_albedo matches Some(t) ==> t == part.textures[0]
            &&& r.texture_emissive matches Some(t) ==> t == part.textures[1]
            &&& r.texture_bumpmap matches Some(t) ==> t == part.textures[2]
            &&& r.texture_bumpmap is Some <==> 0 <= part.textures[2] < images
            &&& r.mask_threshold == part.mask_threshold
            &&& forall|k: int|
                0 <= k < 3 && part.textures[k] >= 0 ==> #[trigger] r.textures[k]
                    == part.textures[k]
        }),
{
}

/// A composite of a document has its own opacity, tints and blend mode, and neither mesh
/// nor images.
pub proof fn lemma_composite_is_kept(model: InrModel, comp: InrComposite, r: InxMaterial)
    requires
        composite_material(model, comp, r),
    ensures
        ({
            let v = crate::mesh2d::own_values(r);
            &&& v.opacity == comp.opacity && v.tint == comp.tint && v.screen_tint
                == comp.screen_tint
            &&& v.emissive_strength.mag() == 0
            &&& r.mask_threshold == comp.mask_threshold
            &&& r.mesh is None && r.texture_albedo is None
        }),
{
}

/// A node of a document is where, how large and how deep it says.
pub proof fn lemma_node_is_kept(model: InrModel, n: InrNode, r: InxNode, j: int)
    requires
        node_reads(model, n, r),
        0 <= j < 2,
    ensures
        r.transform.translation == n.translation,
        r.transform.rotation == n.rotation,
        r.transform.scale[j] == n.scale[j],
        r.transform.scale[2].value() == crate::scalar::unit(),
        r.zsort == n.zsort,
        r.enabled == n.enabled,
        r.uuid == n.uuid,
        r.physics_data is Some <==> n.physics is Some,
        r.material is Some <==> n.part is Some || n.composite is Some,
{
    crate::exact::lemma_one();
}

} // verus!
