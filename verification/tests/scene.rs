use bevy_inochi2d::blend::BlendMode;
use bevy_inochi2d::draw_order::{accumulate_depths, sync_part_z, InxZBand, Unit, ZNode};
use bevy_inochi2d::hierarchy::{is_rooted, root_of};
use bevy_inochi2d::id_map::{IdMap, NameMap};
use bevy_inochi2d::param_values::ParamValues;
use bevy_inochi2d::props::{
    next_prop_uuid, next_version, prop_material, quad_mesh, sync_props, InxProp,
    InxStructureVersion, FIRST_PROP_UUID,
};
use bevy_inochi2d::scalar::Scalar;
use bevy_inochi2d::slots::Slots;

fn s(x: f32) -> Scalar {
    Scalar { bits: x.to_bits() }
}

fn f(x: Scalar) -> f32 {
    f32::from_bits(x.bits)
}

fn node(entity: u64, zsort: f32, tag: Option<u64>, children: Vec<usize>) -> ZNode {
    ZNode {
        entity,
        zsort: s(zsort),
        is_part: children.is_empty(),
        is_group: false,
        tag,
        children,
    }
}

fn group(entity: u64, zsort: f32, children: Vec<usize>) -> ZNode {
    ZNode { is_group: true, ..node(entity, zsort, None, children) }
}

#[test]
fn depths_add_up_on_the_way_down() {
    let nodes = vec![
        node(1, 0.5, None, vec![1, 2]),
        node(2, 0.25, None, vec![3]),
        node(3, -1.0, None, vec![]),
        node(4, 0.125, None, vec![]),
    ];
    let listed = accumulate_depths(&nodes);
    let got: Vec<(usize, f32)> = listed.iter().map(|(i, z)| (*i, f(*z))).collect();
    assert_eq!(got, vec![(0, 0.5), (1, 0.75), (3, 0.875), (2, -0.5)]);
}

#[test]
fn parts_are_placed_by_falling_depth() {
    let nodes = vec![
        node(1, 0.0, None, vec![1, 2, 3]),
        node(2, 0.5, None, vec![]),
        node(3, 2.0, None, vec![]),
        node(4, 0.5, None, vec![]),
    ];
    let listed = accumulate_depths(&nodes);
    let band = InxZBand { base: s(1.0), step: s(0.5) };
    let placed = sync_part_z(&nodes, &listed, &IdMap::new(), s(10.0), band);
    let got: Vec<(Unit, f32)> = placed.iter().map(|u| (u.unit, f(u.z))).collect();
    assert_eq!(
        got,
        vec![(Unit::Part(3), 11.0), (Unit::Part(2), 11.5), (Unit::Part(4), 12.0)]
    );
}

#[test]
fn a_group_takes_one_place_with_its_parts_above() {
    let nodes = vec![
        node(1, 0.0, None, vec![1, 4]),
        group(2, 1.0, vec![2, 3]),
        node(3, 0.25, Some(2), vec![]),
        node(4, 0.5, Some(2), vec![]),
        node(5, 3.0, None, vec![]),
    ];
    let listed = accumulate_depths(&nodes);
    let mut quads = IdMap::new();
    quads.insert(2, 77);
    let band = InxZBand { base: s(0.0), step: s(1.0) };
    let placed = sync_part_z(&nodes, &listed, &quads, s(0.0), band);
    assert_eq!(placed.len(), 2);
    assert_eq!(placed[0].unit, Unit::Part(5));
    assert_eq!(placed[1].unit, Unit::Group(2));
    assert_eq!(f(placed[1].z), 1.0);
    assert_eq!(placed[1].quad, Some(77));
    let parts: Vec<u64> = placed[1].parts.iter().map(|q| q.0).collect();
    assert_eq!(parts, vec![4, 3]);
    let zs: Vec<f32> = placed[1].parts.iter().map(|q| f(q.1)).collect();
    assert!(1.0 < zs[0] && zs[0] < zs[1] && zs[1] <= 1.5);
}

#[test]
fn the_default_band_starts_at_zero() {
    let band = InxZBand::default();
    assert_eq!((f(band.base), f(band.step)), (0.0, 0.1));
}

#[test]
fn the_root_is_the_topmost_parent() {
    let mut parents = IdMap::new();
    parents.insert(3, 2);
    parents.insert(2, 1);
    assert_eq!(root_of(3, &parents), 1);
    assert_eq!(root_of(1, &parents), 1);
    assert_eq!(root_of(9, &parents), 9);
}

#[test]
fn props_are_quads_with_a_texture() {
    let mesh = quad_mesh([s(4.0), s(2.0)]);
    let corners: Vec<[f32; 2]> = mesh.vertex_buffer.iter().map(|v| [f(v[0]), f(v[1])]).collect();
    assert_eq!(corners, vec![[-2.0, -1.0], [2.0, -1.0], [2.0, 1.0], [-2.0, 1.0]]);
    assert_eq!(mesh.index_buffer, vec![0, 1, 2, 0, 2, 3]);
    assert_eq!([f(mesh.uv_buffer[0][0]), f(mesh.uv_buffer[0][1])], [0.0, 1.0]);
    let prop = InxProp { texture: 6, blend_mode: BlendMode::Add, ..InxProp::default() };
    let mat = prop_material(&prop);
    assert_eq!(mat.texture_albedo, Some(6));
    assert_eq!(mat.blend_mode, BlendMode::Add);
    assert_eq!(f(mat.mask_threshold), 0.5);
    assert_eq!(f(mat.opacity), f(prop.opacity));
}

#[test]
fn prop_uuids_count_up_from_the_upper_half() {
    let mut next = FIRST_PROP_UUID;
    assert_eq!(next_prop_uuid(&mut next), 0x8000_0000);
    assert_eq!(next_prop_uuid(&mut next), 0x8000_0001);
    let mut last = u32::MAX;
    assert_eq!(next_prop_uuid(&mut last), u32::MAX);
    assert_eq!(last, 0);
}

#[test]
fn changed_props_make_their_puppet_dirty() {
    let mut parents = IdMap::new();
    parents.insert(11, 1);
    parents.insert(21, 2);
    let roots = vec![1, 2];
    let none = Vec::new();
    assert_eq!(sync_props(&parents, &vec![11], &none, &none, &roots), vec![1]);
    assert_eq!(sync_props(&parents, &none, &vec![21], &none, &roots), vec![2]);
    // A removed prop that still has a place names its puppet; one that has none
    // could have been anywhere.
    assert_eq!(sync_props(&parents, &none, &none, &vec![21], &roots), vec![2]);
    assert_eq!(sync_props(&parents, &none, &none, &vec![99], &roots), vec![1, 2]);
    assert_eq!(sync_props(&parents, &none, &none, &none, &roots), Vec::<u64>::new());
}

#[test]
fn versions_count_up() {
    assert_eq!(next_version(None).0, 1);
    assert_eq!(next_version(Some(InxStructureVersion(4))).0, 5);
    assert_eq!(next_version(Some(InxStructureVersion(u32::MAX))).0, 0);
}

#[test]
fn maps_give_back_what_was_put_in() {
    let mut ids = IdMap::new();
    assert_eq!(ids.get(1), None);
    ids.insert(1, 10);
    ids.insert(2, 20);
    ids.insert(1, 11);
    assert_eq!((ids.get(1), ids.get(2)), (Some(11), Some(20)));
    ids.remove(1);
    assert_eq!((ids.get(1), ids.get(2)), (None, Some(20)));
    let mut names = NameMap::new();
    names.insert(String::from("a"), 1);
    names.insert(String::from("b"), 2);
    names.insert(String::from("a"), 3);
    assert_eq!((names.get("a"), names.get("b"), names.get("c")), (Some(3), Some(2), None));
    let mut slots: Slots<u32> = Slots::new();
    slots.set(7, 70);
    slots.set(8, 80);
    slots.set(7, 71);
    assert_eq!((slots.get(7), slots.get(8), slots.get(9)), (Some(&71), Some(&80), None));
    slots.remove(7);
    assert_eq!((slots.get(7), slots.get(8)), (None, Some(&80)));
    let values = ParamValues::new().insert(5, [s(1.0), s(2.0)]).insert(6, [s(0.0), s(0.0)]);
    assert_eq!(values.len(), 2);
    assert_eq!((values.key(0), values.key(1)), (5, 6));
    let values = values.insert(5, [s(3.0), s(4.0)]);
    assert_eq!(values.len(), 2);
    assert_eq!(values.get(5).map(|v| f(v[1])), Some(4.0));
    assert!(values.get(9).is_none());
}

#[test]
fn circles_of_parents_are_found() {
    let mut parents = IdMap::new();
    assert!(is_rooted(&Vec::new(), &parents));
    parents.insert(3, 2);
    parents.insert(2, 1);
    assert!(is_rooted(&vec![3, 2], &parents));
    parents.insert(1, 3);
    assert!(!is_rooted(&vec![3, 2, 1], &parents));
    let mut own = IdMap::new();
    own.insert(7, 7);
    assert!(!is_rooted(&vec![7], &own));
}
