use bevy_inochi2d::mask_clip::{
    alpha_contours, clip_plan, clipped_mesh, is_drawable, is_outlined, keeps_whole, local_for_uv,
    needs_clipping, orient_contour, signed_area_2d, sum_areas, sync_mask_clipping,
    triangle_contours, uv_for_point, ClipPlan, Contour, MaskSource, Placement,
};
use bevy_inochi2d::model::{InxDeform, InxMaskMode, InxMesh};
use bevy_inochi2d::scalar::Scalar;

fn s(x: f32) -> Scalar {
    Scalar { bits: x.to_bits() }
}

fn f(x: Scalar) -> f32 {
    f32::from_bits(x.bits)
}

fn p(x: f32, y: f32) -> [Scalar; 2] {
    [s(x), s(y)]
}

fn floats(v: [Scalar; 2]) -> [f32; 2] {
    [f(v[0]), f(v[1])]
}

fn flat(c: &Contour) -> Vec<[f32; 2]> {
    c.iter().map(|v| floats(*v)).collect()
}

fn square() -> InxMesh {
    InxMesh {
        vertex_buffer: vec![p(0.0, 0.0), p(10.0, 0.0), p(10.0, 10.0), p(0.0, 10.0)],
        uv_buffer: vec![p(0.0, 0.0), p(1.0, 0.0), p(1.0, 1.0), p(0.0, 1.0)],
        index_buffer: vec![0, 1, 2, 0, 2, 3],
        origin: p(0.0, 0.0),
        mask_contour_uv: None,
    }
}

fn moved(x: f32, y: f32) -> Placement {
    Placement { x: p(1.0, 0.0), y: p(0.0, 1.0), z: p(0.0, 0.0), t: p(x, y) }
}

#[test]
fn areas_carry_a_sign() {
    let ccw = vec![p(0.0, 0.0), p(4.0, 0.0), p(4.0, 2.0)];
    assert_eq!(f(signed_area_2d(&ccw)), 4.0);
    let cw: Contour = ccw.iter().rev().copied().collect();
    assert_eq!(f(signed_area_2d(&cw)), -4.0);
    assert_eq!(f(sum_areas(&vec![ccw.clone(), cw.clone()])), 8.0);
    let turned = orient_contour(cw).unwrap();
    assert_eq!(f(signed_area_2d(&turned)), 4.0);
    assert_eq!(turned.len(), 3);
    let flat_line = vec![p(0.0, 0.0), p(1.0, 1.0), p(2.0, 2.0)];
    assert!(orient_contour(flat_line).is_none());
}

#[test]
fn triangles_become_contours_that_run_one_way() {
    let m = square();
    let mut out = Vec::new();
    triangle_contours(&m.vertex_buffer, &vec![0, 2, 1, 0, 2, 3, 0, 0, 0, 1], &mut out);
    assert_eq!(out.len(), 2);
    assert!(out.iter().all(|c| f(signed_area_2d(c)) == 50.0));
}

#[test]
fn points_and_texture_coordinates_map_onto_each_other() {
    let m = square();
    let uv = uv_for_point(p(5.0, 2.5), &m.vertex_buffer, &m.uv_buffer, &m.index_buffer);
    assert_eq!(floats(uv), [0.5, 0.25]);
    let at = local_for_uv(p(0.5, 0.25), &m.vertex_buffer, &m.uv_buffer, &m.index_buffer);
    assert_eq!(floats(at), [5.0, 2.5]);
}

#[test]
fn silhouettes_are_mapped_into_the_mesh_and_moved() {
    let m = square();
    let contours = vec![vec![p(0.0, 0.0), p(0.5, 0.0), p(0.5, 0.5), p(0.0, 0.5)]];
    let mut out = Vec::new();
    alpha_contours(
        &contours,
        &m.vertex_buffer,
        &m.uv_buffer,
        &m.index_buffer,
        &moved(100.0, 0.0),
        &mut out,
    );
    assert_eq!(flat(&out[0]), vec![[100.0, 0.0], [105.0, 0.0], [105.0, 5.0], [100.0, 5.0]]);
}

#[test]
fn placements_are_affine() {
    let place = Placement { x: p(0.0, 2.0), y: p(3.0, 0.0), z: p(9.0, 9.0), t: p(1.0, -1.0) };
    assert_eq!(floats(place.transform_point(p(1.0, 1.0))), [4.0, 1.0]);
}

#[test]
fn clipping_runs_after_changes() {
    assert!(needs_clipping(true, &vec![false]));
    assert!(needs_clipping(false, &vec![false, true]));
    assert!(!needs_clipping(false, &vec![false]));
    assert!(!needs_clipping(false, &Vec::new()));
}

#[test]
fn masks_cut_inside_and_dodges_outside() {
    let c = || vec![vec![p(0.0, 0.0), p(4.0, 0.0), p(4.0, 2.0)]];
    let none: Vec<Contour> = Vec::new();
    assert_eq!(clip_plan(&c(), &none, &none), ClipPlan::Untouched);
    assert_eq!(clip_plan(&c(), &c(), &none), ClipPlan::Inside);
    assert_eq!(clip_plan(&c(), &none, &c()), ClipPlan::Outside);
    assert_eq!(clip_plan(&c(), &c(), &c()), ClipPlan::InsideAndOutside);
}

#[test]
fn tiny_cuts_leave_the_part_whole() {
    let part = vec![vec![p(0.0, 0.0), p(100.0, 0.0), p(100.0, 1.0), p(0.0, 1.0)]];
    let nearly = vec![vec![p(0.0, 0.0), p(96.0, 0.0), p(96.0, 1.0), p(0.0, 1.0)]];
    let half = vec![vec![p(0.0, 0.0), p(50.0, 0.0), p(50.0, 1.0), p(0.0, 1.0)]];
    assert!(keeps_whole(ClipPlan::Inside, &part, &nearly));
    assert!(!keeps_whole(ClipPlan::Inside, &part, &half));
}

#[test]
fn clipped_meshes_get_their_texture_coordinates_back() {
    let m = square();
    let points = vec![p(0.0, 0.0), p(5.0, 0.0), p(5.0, 5.0)];
    let r = clipped_mesh(&points, vec![0, 1, 2], &m.vertex_buffer, &m.uv_buffer, &m.index_buffer);
    assert_eq!(r.indices, vec![0, 1, 2]);
    assert_eq!(flat(&r.uvs), vec![[0.0, 0.0], [0.5, 0.0], [0.5, 0.5]]);
    assert_eq!(f(r.positions[1][0]), 5.0);
    assert_eq!(f(r.positions[1][2]), 0.0);
}

#[test]
fn sources_are_gathered_by_what_they_do() {
    let part = square();
    let outline = InxMesh {
        mask_contour_uv: Some(vec![vec![p(0.0, 0.0), p(1.0, 0.0), p(1.0, 1.0)]]),
        ..square()
    };
    let plain = square();
    let shift = InxDeform { offsets: vec![p(1.0, 0.0); 4] };
    let sources = vec![
        MaskSource { mesh: &outline, deform: None, rel: moved(2.0, 0.0), mode: InxMaskMode::Mask },
        MaskSource {
            mesh: &plain,
            deform: Some(&shift),
            rel: moved(0.0, 0.0),
            mode: InxMaskMode::Dodge,
        },
    ];
    assert!(is_drawable(&part));
    let input = sync_mask_clipping(&part, None, &sources);
    assert_eq!(input.plan, ClipPlan::InsideAndOutside);
    assert_eq!(input.local.len(), 4);
    assert_eq!(input.part.len(), 2);
    // The silhouette stands for the first mask, the triangles for the second.
    assert_eq!(input.masks.len(), 1);
    assert_eq!(floats(input.masks[0][1]), [12.0, 0.0]);
    assert_eq!(input.dodges.len(), 2);
    assert_eq!(floats(input.dodges[0][0]), [1.0, 0.0]);
    let bad = InxMesh { index_buffer: vec![0, 1, 9], ..square() };
    assert!(!is_drawable(&bad));
    assert!(!is_outlined(&bad));
    // Texture coordinates only count where the outline is given by them.
    let untextured = InxMesh { uv_buffer: Vec::new(), ..square() };
    assert!(is_outlined(&untextured) && !is_drawable(&untextured));
    let baked = InxMesh { uv_buffer: Vec::new(), mask_contour_uv: Some(Vec::new()), ..square() };
    assert!(!is_outlined(&baked));
}
