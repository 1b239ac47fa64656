use bevy_inochi2d::auto_spawn::{
    build_meshgroup_warps, default_values, has_meshed_lattices, init_param_state,
    is_children_first, spawn_node_recursive, spawn_scene_system,
};
use bevy_inochi2d::blend::BlendMode;
use bevy_inochi2d::composite::ComposeMode;
use bevy_inochi2d::grid_interpolation::{DeformAccum, NodeAccum};
use bevy_inochi2d::id_map::{IdMap, NameMap};
use bevy_inochi2d::mesh_group::{
    barycentric, carry, has_corners, lattice_rest_and_tris, locate, map_part_to_lattice, Aff2,
    InxMeshGroupWarp, MgChildMap,
};
use bevy_inochi2d::model::{
    InxBinding, InxBindingValues, InxDeform, InxFlatDeform, InxFlatTransform, InxInterpolation,
    InxMaterial, InxMergeMode, InxMesh, InxMeta, InxNode, InxNodeType, InxParam, InxParamName,
    InxPhysics, InxPuppet, NodeTransform, PhysicsMapMode, PhysicsModel, SimplePhysicsConfig,
};
use bevy_inochi2d::param_values::{InxParamState, ParamValues};
use bevy_inochi2d::pose::{
    apply_params_for_puppet, bound_pose, is_readable, opacity_to_write, pose_differs,
    write_deform, InxBasePose, InxResolvedBindings,
};
use bevy_inochi2d::scalar::Scalar;
use bevy_inochi2d::slots::Slots;

fn s(x: f32) -> Scalar {
    Scalar { bits: x.to_bits() }
}

fn f(x: Scalar) -> f32 {
    f32::from_bits(x.bits)
}

fn p(x: f32, y: f32) -> [Scalar; 2] {
    [s(x), s(y)]
}

fn floats(v: [Scalar; 2]) -> [f32; 2] {
    [f(v[0]), f(v[1])]
}

fn v3(x: f32, y: f32, z: f32) -> [Scalar; 3] {
    [s(x), s(y), s(z)]
}

fn square() -> InxMesh {
    InxMesh {
        vertex_buffer: vec![p(0.0, 0.0), p(10.0, 0.0), p(10.0, 10.0), p(0.0, 10.0)],
        uv_buffer: vec![p(0.0, 0.0), p(1.0, 0.0), p(1.0, 1.0), p(0.0, 1.0)],
        index_buffer: vec![0, 1, 2, 0, 2, 3],
        origin: p(0.0, 0.0),
        mask_contour_uv: None,
    }
}

fn node(name: &str, uuid: u32, node_type: InxNodeType, children: Vec<usize>) -> InxNode {
    InxNode {
        uuid,
        name: String::from(name),
        node_type,
        material: None,
        mesh: None,
        mesh_group_dynamic: false,
        composite_propagate_meshgroup: true,
        transform: NodeTransform {
            translation: v3(1.0, 2.0, 3.0),
            rotation: v3(0.0, 0.0, 0.0),
            scale: v3(1.0, 1.0, 1.0),
        },
        zsort: s(0.0),
        enabled: true,
        physics_data: None,
        compose_hint: None,
        children,
    }
}

fn still(mut n: InxNode) -> InxNode {
    n.transform.translation = v3(0.0, 0.0, 0.0);
    n
}

fn meshed(mut n: InxNode) -> InxNode {
    n.material =
        Some(InxMaterial { mesh: Some(square()), opacity: s(1.0), ..Default::default() });
    n
}

fn param(uuid: u32, bindings: Vec<InxBinding>) -> InxParam {
    InxParam {
        uuid,
        name: String::from("tilt"),
        is_vec2: false,
        min: p(0.0, 0.0),
        max: p(1.0, 0.0),
        defaults: p(0.5, 0.0),
        axis_points: [vec![s(0.0), s(1.0)], vec![s(0.0)]],
        merge_mode: InxMergeMode::Additive,
        bindings,
    }
}

fn moves(node_uuid: u32, name: InxParamName, from: f32, to: f32) -> InxBinding {
    InxBinding {
        node_uuid,
        param_name: name,
        interpolation: InxInterpolation::Linear,
        values: InxBindingValues::Transform(InxFlatTransform {
            data: vec![s(from), s(to)],
            frames: 2,
            values_per_frame: 1,
        }),
        is_set: vec![vec![true]; 2],
    }
}

fn deforms(node_uuid: u32, to: Vec<[Scalar; 2]>) -> InxBinding {
    let n = to.len();
    let mut data = vec![p(0.0, 0.0); n];
    data.extend(to);
    InxBinding {
        node_uuid,
        param_name: InxParamName::Deform,
        interpolation: InxInterpolation::Linear,
        values: InxBindingValues::Deform(InxFlatDeform { data, frames: 2, vertices_per_frame: n }),
        is_set: vec![vec![true]; 2],
    }
}

fn puppet(nodes: Vec<InxNode>, params: Vec<InxParam>) -> InxPuppet {
    InxPuppet {
        nodes,
        params,
        animations: Vec::new(),
        textures: Vec::new(),
        named_nodes: NameMap::new(),
        named_params: NameMap::new(),
        named_animations: NameMap::new(),
        meta: InxMeta {
            name: String::from("Midori"),
            version: String::new(),
            rigger: String::new(),
            artist: String::new(),
            rights: String::new(),
            copyright: String::new(),
            license_url: String::new(),
            contact: String::new(),
            reference: String::new(),
            thumbnail_id: 0,
            preserve_pixels: false,
        },
        physics: InxPhysics { pixels_per_meter: s(1000.0), gravity: s(9.8) },
    }
}

#[test]
fn nodes_spawn_parents_first_with_y_up() {
    let mut part = meshed(node("part", 1, InxNodeType::Part, vec![]));
    part.enabled = false;
    let mut group = node("group", 2, InxNodeType::Composite, vec![0]);
    group.material = Some(InxMaterial {
        opacity: s(0.5),
        tint: v3(1.0, 1.0, 1.0),
        blend_mode: BlendMode::Normal,
        ..Default::default()
    });
    group.zsort = s(0.25);
    let hollow = node("hollow", 3, InxNodeType::Composite, vec![]);
    let mut root = node("root", 4, InxNodeType::Generic, vec![1, 2]);
    root.transform.rotation = v3(0.25, 0.0, 0.5);
    let nodes = vec![part, group, hollow, root];
    assert!(is_children_first(&nodes));
    let mut plan = Vec::new();
    spawn_node_recursive(&nodes, 3, None, None, &mut plan);
    let order: Vec<usize> = plan.iter().map(|n| n.node).collect();
    assert_eq!(order, vec![3, 1, 0, 2]);
    assert_eq!(plan[0].parent, None);
    assert_eq!(plan[2].parent, Some(1));
    // The part is in the group; the group is not in itself.
    assert_eq!(plan[2].composite, Some(1));
    assert_eq!(plan[1].composite, None);
    assert_eq!(f(plan[0].translation[1]), -2.0);
    assert_eq!(f(plan[0].translation[2]), 3.0);
    assert_eq!(f(plan[0].angle), -0.5);
    assert!(!plan[2].visible);
    assert_eq!(plan[2].deform_vertices, Some(4));
    let (made, mode) = plan[1].group.unwrap();
    assert_eq!(mode, ComposeMode::NeedsRt);
    assert_eq!(f(made.zsort), 0.25);
    assert_eq!(f(made.opacity), 0.5);
    assert!(plan[3].empty_group && plan[3].group.is_none());
    let looped = vec![node("loop", 9, InxNodeType::Generic, vec![0])];
    assert!(!is_children_first(&looped));
}

#[test]
fn physics_without_a_param_is_not_spawned() {
    let physics = SimplePhysicsConfig {
        param_uuid: 5,
        model: PhysicsModel::Pendulum,
        map_mode: PhysicsMapMode::XY,
        gravity: s(1.0),
        length: s(1.0),
        frequency: s(1.0),
        angle_damping: s(1.0),
        length_damping: s(1.0),
        output_scale: p(1.0, 1.0),
        local_only: false,
    };
    let mut a = node("a", 1, InxNodeType::SimplePhysics, vec![]);
    a.physics_data = Some(physics);
    let mut b = node("b", 2, InxNodeType::SimplePhysics, vec![]);
    b.physics_data = Some(SimplePhysicsConfig { param_uuid: u32::MAX, ..physics });
    let mut plan = Vec::new();
    spawn_node_recursive(&vec![a, b], 0, None, None, &mut plan);
    assert!(plan[0].physics.is_some());
    let mut plan = Vec::new();
    let mut c = node("c", 2, InxNodeType::SimplePhysics, vec![]);
    c.physics_data = Some(SimplePhysicsConfig { param_uuid: u32::MAX, ..physics });
    spawn_node_recursive(&vec![c], 0, None, None, &mut plan);
    assert!(plan[0].physics.is_none());
}

#[test]
fn a_scene_links_bindings_to_its_nodes() {
    let part = meshed(node("part", 1, InxNodeType::Part, vec![]));
    let root = node("root", 4, InxNodeType::Generic, vec![0]);
    let bindings = vec![
        moves(1, InxParamName::TransformTX, 0.0, 8.0),
        moves(99, InxParamName::TransformTX, 0.0, 8.0),
        deforms(1, vec![p(1.0, 1.0); 4]),
    ];
    let plan = spawn_scene_system(&puppet(vec![part, root], vec![param(7, bindings)]), true, false).unwrap();
    let controller = plan.controller.as_ref().unwrap();
    assert!(controller.layers.is_empty() && !controller.paused && !plan.default_pose);
    assert_eq!(controller.param_defaults.get(7).map(floats), Some([0.5, 0.0]));
    assert_eq!(plan.places.get(1), Some(1));
    assert_eq!(plan.places.get(4), Some(0));
    assert_eq!(plan.places.get(99), None);
    assert_eq!(plan.resolved.params[0].0, 0);
    assert_eq!(plan.resolved.params[0].1, vec![(0, 1), (2, 1)]);
    assert_eq!(plan.resolved.deform_nodes, vec![1]);
    assert_eq!(plan.deform_targets, vec![1]);
    assert_eq!(plan.param_state.values.get(7).map(floats), Some([0.5, 0.0]));
    assert_eq!(plan.name, "Midori");
    assert!(spawn_scene_system(&puppet(Vec::new(), Vec::new()), true, true).is_none());
    let mut nameless = puppet(vec![node("root", 4, InxNodeType::Generic, vec![])], Vec::new());
    nameless.meta.name = String::new();
    let still = spawn_scene_system(&nameless, false, true).unwrap();
    assert_eq!(still.name, "InxScene Root");
    assert!(still.controller.is_none() && still.default_pose);
}

#[test]
fn params_start_at_their_defaults() {
    let params = vec![param(1, Vec::new()), param(2, Vec::new())];
    assert_eq!(default_values(&params).len(), 2);
    assert_eq!(init_param_state(&params).values.get(2).map(floats), Some([0.5, 0.0]));
}

#[test]
fn maps_compose_and_invert() {
    let a = Aff2::from_node(&v3(3.0, 4.0, 0.0), &v3(2.0, 5.0, 1.0), s(1.0), s(0.0));
    // A quarter turn takes x to y. Y points down in nodes and up in the scene.
    assert_eq!(floats(a.apply(p(1.0, 0.0))), [3.0, -2.0]);
    assert_eq!(floats(a.apply(p(0.0, 1.0))), [-2.0, -4.0]);
    let twice = a.compose(&a);
    assert_eq!(floats(twice.apply(p(1.0, 0.0))), floats(a.apply(a.apply(p(1.0, 0.0)))));
    let id = Aff2::identity();
    assert_eq!(floats(id.compose(&a).apply(p(7.0, 8.0))), floats(a.apply(p(7.0, 8.0))));
    let inv = a.inv_linear();
    let x = f(inv[0][0]) * -5.0 + f(inv[0][1]) * 0.0;
    let y = f(inv[1][0]) * -5.0 + f(inv[1][1]) * 0.0;
    assert_eq!([x.abs(), y], [0.0, 1.0]);
}

#[test]
fn points_are_located_in_triangles() {
    let w = barycentric(p(1.0, 1.0), p(0.0, 0.0), p(4.0, 0.0), p(0.0, 4.0)).unwrap();
    assert_eq!([f(w[0]), f(w[1]), f(w[2])], [0.5, 0.25, 0.25]);
    assert!(barycentric(p(1.0, 1.0), p(0.0, 0.0), p(1.0, 1.0), p(2.0, 2.0)).is_none());
    let (rest, tris) = lattice_rest_and_tris(&square());
    assert_eq!(tris, vec![[0, 1, 2], [0, 2, 3]]);
    let (tri, _) = locate(&rest, &tris, p(8.0, 1.0)).unwrap();
    assert_eq!(tri, [0, 1, 2]);
    let (tri, _) = locate(&rest, &tris, p(1.0, 8.0)).unwrap();
    assert_eq!(tri, [0, 2, 3]);
    assert!(locate(&rest, &tris, p(11.0, 1.0)).is_none());
    assert!(has_corners(4, &square().index_buffer));
    assert!(!has_corners(3, &square().index_buffer));
    let (map, query) = map_part_to_lattice(&rest, &tris, &square(), &Aff2::identity());
    assert_eq!(map.len(), 4);
    assert_eq!(floats(query[2]), [10.0, 10.0]);
}

fn warp(dynamic: bool) -> InxMeshGroupWarp {
    let (rest, tris) = lattice_rest_and_tris(&square());
    let part = InxMesh { vertex_buffer: vec![p(5.0, 2.0), p(20.0, 2.0)], ..square() };
    let (map, rest_query) = map_part_to_lattice(&rest, &tris, &part, &Aff2::identity());
    let unit = [p(1.0, 0.0), p(0.0, 1.0)];
    InxMeshGroupWarp {
        children: vec![MgChildMap {
            entity: 2,
            map,
            inv_linear: unit,
            fwd_linear: unit,
            rest_query,
        }],
        lattice_rest: rest,
        tris,
        dynamic,
    }
}

#[test]
fn a_lattice_carries_the_points_inside_it() {
    let shift = vec![p(2.0, 4.0); 4];
    for dynamic in [false, true] {
        let w = warp(dynamic);
        let own = vec![p(1.0, 0.0), p(1.0, 0.0)];
        let r = carry(&own, &w, &w.children[0], &shift);
        assert_eq!(floats(r[0]), [3.0, 4.0]);
        // A point outside stays where its own deform puts it.
        assert_eq!(floats(r[1]), [1.0, 0.0]);
    }
}

#[test]
fn bindings_add_up_on_their_nodes() {
    let params = vec![
        param(7, vec![moves(1, InxParamName::TransformTX, 0.0, 8.0)]),
        param(8, vec![moves(1, InxParamName::TransformTX, 1.0, 3.0), deforms(1, vec![p(4.0, 2.0)])]),
    ];
    let resolved = InxResolvedBindings {
        params: vec![(0, vec![(0, 5)]), (1, vec![(0, 5), (1, 5)]), (9, vec![(0, 5)])],
        deform_nodes: vec![5],
    };
    assert!(is_readable(&resolved, &params));
    let state = InxParamState { values: ParamValues::new().insert(7, p(1.0, 0.0)) };
    let none: Slots<InxMeshGroupWarp> = Slots::new();
    let r = apply_params_for_puppet(&state, &resolved, &params, &none);
    // Param 7 as set, param 8 at its default.
    let pose = r.poses.get(5).unwrap();
    assert_eq!(f(pose.tx), 10.0);
    let deform = r.deforms.get(5).unwrap();
    assert_eq!(floats(deform.offsets[0]), [2.0, -1.0]);
    assert!(r.poses.get(6).is_none());
}

#[test]
fn a_missing_param_is_at_its_default_and_a_second_call_changes_nothing() {
    let params =
        vec![param(7, vec![moves(1, InxParamName::TransformTX, 0.0, 8.0), deforms(1, vec![p(4.0, 2.0)])])];
    let resolved =
        InxResolvedBindings { params: vec![(0, vec![(0, 5), (1, 5)])], deform_nodes: vec![5] };
    let none: Slots<InxMeshGroupWarp> = Slots::new();
    let missing = InxParamState { values: ParamValues::new() };
    let given = InxParamState { values: ParamValues::new().insert(7, p(0.5, 0.0)) };
    let base = InxBasePose {
        translation: v3(1.0, 2.0, 3.0),
        rotation: [s(0.0), s(0.0), s(0.0), s(1.0)],
        scale: v3(1.0, 1.0, 1.0),
    };
    let mut shown = base;
    let mut deform = InxDeform { offsets: vec![p(0.0, 0.0)] };
    for (state, changes) in [(&missing, true), (&given, false), (&given, false)] {
        let r = apply_params_for_puppet(state, &resolved, &params, &none);
        let bound = bound_pose(&base, r.poses.get(5).unwrap());
        assert_eq!(f(bound.translation[0]), 5.0);
        let wanted =
            InxBasePose { translation: bound.translation, scale: bound.scale, ..base };
        assert_eq!(pose_differs(&shown, &wanted), changes);
        assert_eq!(write_deform(&mut deform, r.deforms.get(5)), changes);
        assert_eq!(floats(deform.offsets[0]), [2.0, -1.0]);
        shown = wanted;
    }
}

#[test]
fn poses_follow_the_interpolation_of_their_bindings() {
    let mut step = moves(1, InxParamName::TransformTX, 2.0, 8.0);
    step.interpolation = InxInterpolation::Stepped;
    let mut jump = deforms(1, vec![p(4.0, 2.0)]);
    jump.interpolation = InxInterpolation::Stepped;
    // The second point is not authored: the first one stands for it.
    let mut unset = moves(1, InxParamName::TransformTY, 3.0, 9.0);
    unset.is_set = vec![vec![true], vec![false]];
    let params = vec![param(7, vec![step, jump, unset])];
    let resolved = InxResolvedBindings {
        params: vec![(0, vec![(0, 5), (1, 5), (2, 5)])],
        deform_nodes: vec![5],
    };
    assert!(is_readable(&resolved, &params));
    let state = InxParamState { values: ParamValues::new().insert(7, p(0.75, 0.0)) };
    let none: Slots<InxMeshGroupWarp> = Slots::new();
    let r = apply_params_for_puppet(&state, &resolved, &params, &none);
    let pose = r.poses.get(5).unwrap();
    assert_eq!((f(pose.tx), f(pose.ty)), (2.0, 3.0));
    assert_eq!(floats(r.deforms.get(5).unwrap().offsets[0]), [0.0, 0.0]);
}

#[test]
fn a_deformed_lattice_warps_the_parts_below() {
    let params = vec![param(7, vec![deforms(1, vec![p(4.0, -8.0); 4])])];
    let resolved =
        InxResolvedBindings { params: vec![(0, vec![(0, 1)])], deform_nodes: vec![1, 2] };
    let mut warps: Slots<InxMeshGroupWarp> = Slots::new();
    warps.set(1, warp(false));
    let state = InxParamState { values: ParamValues::new().insert(7, p(1.0, 0.0)) };
    let r = apply_params_for_puppet(&state, &resolved, &params, &warps);
    assert!(r.deforms.get(1).is_none());
    let carried = r.deforms.get(2).unwrap();
    assert_eq!(floats(carried.offsets[0]), [4.0, 8.0]);
    assert_eq!(floats(carried.offsets[1]), [0.0, 0.0]);
}

#[test]
fn poses_are_offset_from_the_authored_one() {
    let base = InxBasePose {
        translation: v3(1.0, 2.0, 3.0),
        rotation: [s(0.0), s(0.0), s(0.0), s(1.0)],
        scale: v3(2.0, 3.0, 1.0),
    };
    let rest = bound_pose(&base, &NodeAccum::default());
    assert_eq!([f(rest.translation[0]), f(rest.translation[1])], [1.0, 2.0]);
    assert_eq!([f(rest.scale[0]), f(rest.scale[1])], [2.0, 3.0]);
    assert!(rest.turn.is_none());
    let mut acc = NodeAccum::default();
    acc.tx = s(0.5);
    acc.ty = s(0.5);
    acc.sx = s(2.0);
    acc.rz = s(0.25);
    let moved = bound_pose(&base, &acc);
    // Y points down in params and up in poses.
    assert_eq!([f(moved.translation[0]), f(moved.translation[1])], [1.5, 1.5]);
    assert_eq!(f(moved.scale[0]), 4.0);
    assert_eq!(moved.turn.map(f), Some(-0.25));
    assert!(!pose_differs(&base, &base));
    let other = InxBasePose { translation: v3(1.0, 2.5, 3.0), ..base };
    assert!(pose_differs(&base, &other));
    assert!(opacity_to_write(s(1.0), &acc).is_none());
    acc.has_opacity = true;
    acc.opacity = s(0.5);
    assert_eq!(opacity_to_write(s(1.0), &acc).map(f), Some(0.5));
    assert!(opacity_to_write(s(0.5), &acc).is_none());
}

#[test]
fn deforms_are_written_once_and_reset() {
    let mut d = InxDeform { offsets: vec![p(0.0, 0.0); 2] };
    let new = DeformAccum { offsets: vec![p(1.0, 2.0), p(3.0, 4.0)] };
    assert!(write_deform(&mut d, Some(&new)));
    assert_eq!(floats(d.offsets[1]), [3.0, 4.0]);
    assert!(!write_deform(&mut d, Some(&new)));
    assert!(write_deform(&mut d, None));
    assert_eq!(floats(d.offsets[1]), [0.0, 0.0]);
    assert!(!write_deform(&mut d, None));
}

#[test]
fn mesh_groups_take_the_parts_below_them() {
    let build = |propagate: bool| {
        let part = still(meshed(node("part", 1, InxNodeType::Part, vec![])));
        let mut comp = still(node("comp", 2, InxNodeType::Composite, vec![0]));
        comp.composite_propagate_meshgroup = propagate;
        let mut lattice = still(node("lattice", 3, InxNodeType::MeshGroup, vec![1]));
        lattice.mesh = Some(square());
        lattice.mesh_group_dynamic = true;
        let root = still(node("root", 4, InxNodeType::Generic, vec![2]));
        let nodes = vec![part, comp, lattice, root];
        let turns = vec![p(0.0, 1.0); 4];
        let mut places = IdMap::new();
        for (uuid, place) in [(4, 0), (3, 1), (2, 2), (1, 3)] {
            places.insert(uuid, place);
        }
        assert!(has_meshed_lattices(&nodes, &vec![3]));
        build_meshgroup_warps(&nodes, &turns, &places, &vec![3])
    };
    let warps = build(true);
    assert_eq!(warps.len(), 1);
    assert_eq!(warps[0].0, 1);
    assert!(warps[0].1.dynamic);
    assert_eq!(warps[0].1.children.len(), 1);
    assert_eq!(warps[0].1.children[0].entity, 3);
    assert_eq!(warps[0].1.children[0].map.len(), 4);
    // A composite can keep the warps of groups around it out.
    let stopped = build(false);
    assert!(stopped.iter().all(|w| w.1.children.is_empty()));
    let mut bad = still(node("lattice", 3, InxNodeType::MeshGroup, vec![]));
    bad.mesh = Some(InxMesh { index_buffer: vec![0, 1, 9], ..square() });
    assert!(!has_meshed_lattices(&vec![bad], &vec![3]));
}
