use bevy_inochi2d::blend::BlendMode;
use bevy_inochi2d::composite::ComposeMode;
use bevy_inochi2d::mesh2d::{
    attach_part_meshes, deformed_local, link_part_masks, part_emissive_strength,
    part_material_values, part_positions, per_child_blend_group, sync_part_deforms,
    sync_part_materials, InxPartMaterialKey, MaskNode,
};
use bevy_inochi2d::model::{InxDeform, InxMask, InxMaskMode, InxMaterial, InxMesh, InxNodeType};
use bevy_inochi2d::scalar::Scalar;

fn s(x: f32) -> Scalar {
    Scalar { bits: x.to_bits() }
}

fn f(x: Scalar) -> f32 {
    f32::from_bits(x.bits)
}

fn p(x: f32, y: f32) -> [Scalar; 2] {
    [s(x), s(y)]
}

fn v3(x: f32, y: f32, z: f32) -> [Scalar; 3] {
    [s(x), s(y), s(z)]
}

fn near3(a: [Scalar; 3], b: [f32; 3], within: f32) -> bool {
    (0..3).all(|i| (f(a[i]) - b[i]).abs() <= within)
}

fn triangle() -> InxMesh {
    InxMesh {
        vertex_buffer: vec![p(0.0, 0.0), p(4.0, 0.0), p(0.0, 2.0)],
        uv_buffer: vec![p(0.0, 0.0), p(1.0, 0.0), p(0.0, 1.0)],
        index_buffer: vec![0, 1, 2],
        origin: p(1.0, 0.5),
        mask_contour_uv: None,
    }
}

#[test]
fn per_child_blend_combines_group_and_part_values() {
    let part = InxMaterial {
        tint: v3(1.0, 0.8, 0.6),
        opacity: s(0.9),
        screen_tint: v3(0.2, 0.0, 0.0),
        blend_mode: BlendMode::Normal,
        ..Default::default()
    };
    let group = InxMaterial {
        tint: v3(0.5, 1.0, 1.0),
        opacity: s(0.5),
        screen_tint: v3(0.0, 0.5, 0.0),
        blend_mode: BlendMode::Multiply,
        ..Default::default()
    };

    let (data, blend) = part_material_values(&part, Some(&group));
    assert_eq!(blend, BlendMode::Multiply);
    assert!((f(data.opacity) - 0.45).abs() < 1e-6);
    assert!(near3(data.tint, [0.5, 0.8, 0.6], 1e-6));
    // screen: 1-(1-a)(1-b) per channel
    assert!(near3(data.screen_tint, [0.2, 0.5, 0.0], 1e-6));

    let (solo, solo_blend) = part_material_values(&part, None);
    assert_eq!(solo_blend, BlendMode::Normal);
    assert!((f(solo.opacity) - 0.9).abs() < 1e-6);
    assert!(near3(solo.tint, [1.0, 0.8, 0.6], 1e-6));
    assert!(near3(solo.screen_tint, [0.2, 0.0, 0.0], 1e-6));
}

#[test]
fn default_material_is_blank() {
    let m = InxMaterial::default();
    assert!(m.mesh.is_none() && m.texture_albedo.is_none() && m.masks.is_empty());
    assert_eq!(m.textures, [0, 0, 0]);
    assert_eq!(f(m.opacity), 0.0);
    assert_eq!(m.blend_mode, BlendMode::Normal);
}

#[test]
fn parts_without_an_emissive_texture_do_not_glow() {
    let mut m = InxMaterial { emissive_strength: s(2.0), ..Default::default() };
    assert_eq!(f(part_emissive_strength(&m)), 0.0);
    assert_eq!(f(part_material_values(&m, None).0.emissive_strength), 0.0);
    m.texture_emissive = Some(3);
    assert_eq!(f(part_emissive_strength(&m)), 2.0);
    assert_eq!(f(part_material_values(&m, None).0.emissive_strength), 2.0);
    assert_eq!(part_material_values(&m, None).0.composite, 0);
}

#[test]
fn only_disjoint_groups_fold_into_their_parts() {
    let g = InxMaterial { opacity: s(0.5), ..Default::default() };
    assert!(per_child_blend_group(Some((&g, ComposeMode::PerChildBlend))).is_some());
    assert!(per_child_blend_group(Some((&g, ComposeMode::NeedsRt))).is_none());
    assert!(per_child_blend_group(Some((&g, ComposeMode::Grouping))).is_none());
    assert!(per_child_blend_group(None).is_none());
}

#[test]
fn materials_are_written_after_a_change_only() {
    let part = InxMaterial { opacity: s(0.5), ..Default::default() };
    let g = InxMaterial { opacity: s(0.5), ..Default::default() };
    let folded = Some((&g, ComposeMode::PerChildBlend));
    assert!(sync_part_materials(&part, false, folded, false).is_none());
    assert_eq!(f(sync_part_materials(&part, true, folded, false).unwrap().opacity), 0.25);
    assert_eq!(f(sync_part_materials(&part, false, folded, true).unwrap().opacity), 0.25);
    let target = Some((&g, ComposeMode::NeedsRt));
    assert_eq!(f(sync_part_materials(&part, true, target, false).unwrap().opacity), 0.5);
}

#[test]
fn deforms_move_vertices_around_the_origin() {
    let m = InxMaterial { mesh: Some(triangle()), ..Default::default() };
    let rest = deformed_local(&m, None).unwrap();
    let mesh = triangle();
    let flat: Vec<[f32; 2]> = rest.iter().map(|v| [f(v[0]), f(v[1])]).collect();
    let deform = InxDeform { offsets: vec![p(1.0, -1.0), p(0.0, 0.0)] };
    let moved = deformed_local(&m, Some(&deform)).unwrap();
    assert_eq!(f(moved[0][0]) - flat[0][0], 1.0);
    assert_eq!(f(moved[0][1]) - flat[0][1], -1.0);
    // A vertex without an offset stays.
    assert_eq!([f(moved[2][0]), f(moved[2][1])], flat[2]);
    assert_eq!(rest.len(), mesh.vertex_buffer.len());
    let lifted = part_positions(&m, Some(&deform)).unwrap();
    assert_eq!(lifted[1][0].bits, moved[1][0].bits);
    assert_eq!(f(lifted[1][2]), 0.0);
    assert!(part_positions(&InxMaterial::default(), None).is_none());
}

#[test]
fn masked_parts_keep_their_clipped_mesh() {
    let m = InxMaterial { mesh: Some(triangle()), ..Default::default() };
    let deform = InxDeform { offsets: Vec::new() };
    assert!(sync_part_deforms(&m, &deform, true).is_none());
    assert_eq!(sync_part_deforms(&m, &deform, false).unwrap().len(), 3);
    assert!(sync_part_deforms(&InxMaterial::default(), &deform, false).is_none());
}

#[test]
fn parts_with_a_mesh_get_one() {
    let with = InxMaterial { mesh: Some(triangle()), ..Default::default() };
    let without = InxMaterial::default();
    assert!(attach_part_meshes(InxNodeType::Part, &with));
    assert!(!attach_part_meshes(InxNodeType::Part, &without));
    assert!(!attach_part_meshes(InxNodeType::Mask, &with));
    let key = InxPartMaterialKey { blend_mode: BlendMode::Screen };
    assert_eq!(key, InxPartMaterialKey { blend_mode: BlendMode::Screen });
}

#[test]
fn masks_are_looked_up_in_the_same_puppet() {
    let m = InxMaterial {
        mesh: Some(triangle()),
        masks: vec![
            InxMask { source_uuid: 5, mode: InxMaskMode::Dodge },
            InxMask { source_uuid: 6, mode: InxMaskMode::Mask },
            InxMask { source_uuid: 7, mode: InxMaskMode::Mask },
        ],
        ..Default::default()
    };
    let nodes = vec![
        MaskNode { entity: 100, root: 2, uuid: 5, has_mesh: true },
        MaskNode { entity: 101, root: 1, uuid: 5, has_mesh: true },
        MaskNode { entity: 102, root: 1, uuid: 6, has_mesh: false },
        MaskNode { entity: 103, root: 1, uuid: 7, has_mesh: true },
    ];
    let linked = link_part_masks(&m, 1, &nodes);
    assert!(linked.contains(&(101, InxMaskMode::Dodge)));
    assert!(linked.contains(&(103, InxMaskMode::Mask)));
    assert_eq!(linked.len(), 2);
    let bare = InxMaterial { mesh: None, ..m };
    assert!(link_part_masks(&bare, 1, &nodes).is_empty());
}
