//! Props: quads that hang on the nodes of a puppet.

use crate::arith;
use crate::blend::BlendMode;
use crate::exact;
use crate::hierarchy;
use crate::hierarchy::root_of;
use crate::id_map::IdMap;
use crate::model::{InxMask, InxMaterial, InxMesh};
use crate::order;
use crate::order::stable_order;
use crate::scalar::{Scalar, HUNDRED, ONE};
use vstd::prelude::*;

verus! {

/// The first UUID that a prop gets.
pub const FIRST_PROP_UUID: u32 = 0x8000_0000;

/// A textured quad to hang on a node.
#[derive(Debug, Clone, Copy)]
pub struct InxProp {
    /// Texture drawn on the quad.
    pub texture: u64,
    /// Quad size in puppet units.
    pub size: [Scalar; 2],
    /// Blend mode.
    pub blend_mode: BlendMode,
    /// Opacity.
    pub opacity: Scalar,
    /// RGB tint.
    pub tint: [Scalar; 3],
}

impl Default for InxProp {
    /// A quad of 100 by 100 units without a texture.
    fn default() -> (r: InxProp)
        ensures
            r == (InxProp {
                texture: 0,
                size: [arith::num(HUNDRED), arith::num(HUNDRED)],
                blend_mode: BlendMode::Normal,
                opacity: arith::num(ONE),
                tint: [arith::num(ONE), arith::num(ONE), arith::num(ONE)],
            }),
    {
        let one = Scalar { bits: ONE };
        let side = Scalar { bits: HUNDRED };
        InxProp {
            texture: 0,
            size: [side, side],
            blend_mode: BlendMode::Normal,
            opacity: one,
            tint: [one, one, one],
        }
    }
}

/// Counts the changes to the nodes of a puppet.
#[derive(Debug, Clone, Copy, PartialEq, Eq, Structural)]
pub struct InxStructureVersion(pub u32);

/// The corners of a quad around the origin, counterclockwise from the bottom left.
pub open spec fn quad_corners(size: [Scalar; 2]) -> Seq<[Scalar; 2]> {
    let w = size[0].times(arith::num(arith::HALF));
    let h = size[1].times(arith::num(arith::HALF));
    seq![[w.negated(), h.negated()], [w, h.negated()], [w, h], [w.negated(), h]]
}

/// Texture coordinates of the corners of a quad.
pub open spec fn quad_uvs() -> Seq<[Scalar; 2]> {
    let zero = arith::num(0);
    let one = arith::num(ONE);
    seq![[zero, one], [one, one], [one, zero], [zero, zero]]
}

/// The two triangles of a quad.
pub open spec fn quad_indices() -> Seq<u32> {
    seq![0u32, 1, 2, 0, 2, 3]
}

/// A quad of a size around the origin.
pub fn quad_mesh(size: [Scalar; 2]) -> (r: InxMesh)
    ensures
        r.vertex_buffer@ == quad_corners(size),
        r.uv_buffer@ == quad_uvs(),
        r.index_buffer@ == quad_indices(),
        r.origin == [arith::num(0), arith::num(0)],
        r.mask_contour_uv is None,
{
    let half = Scalar { bits: arith::HALF };
    let zero = Scalar { bits: 0 };
    let one = Scalar { bits: ONE };
    let w = size[0].mul(half);
    let h = size[1].mul(half);
    let vertex_buffer: Vec<[Scalar; 2]> = vec![
        [w.neg(), h.neg()],
        [w, h.neg()],
        [w, h],
        [w.neg(), h],
    ];
    let uv_buffer: Vec<[Scalar; 2]> = vec![[zero, one], [one, one], [one, zero], [zero, zero]];
    let index_buffer: Vec<u32> = vec![0, 1, 2, 0, 2, 3];
    assert(vertex_buffer@ =~= quad_corners(size));
    assert(uv_buffer@ =~= quad_uvs());
    assert(index_buffer@ =~= quad_indices());
    InxMesh {
        vertex_buffer,
        uv_buffer,
        index_buffer,
        origin: [zero, zero],
        mask_contour_uv: None,
    }
}

/// The material of a prop: its texture on a quad of its size.
pub fn prop_material(prop: &InxProp) -> (r: InxMaterial)
    ensures
        r.mesh matches Some(m) && m.vertex_buffer@ == quad_corners(prop.size) && m.uv_buffer@
            == quad_uvs() && m.index_buffer@ == quad_indices() && m.origin == [
            arith::num(0),
            arith::num(0),
        ] && m.mask_contour_uv is None,
        r.texture_albedo == Some(prop.texture),
        r.texture_emissive is None,
        r.texture_bumpmap is None,
        r.textures == [0u32, 0u32, 0u32],
        r.tint == prop.tint,
        r.screen_tint == [arith::num(0), arith::num(0), arith::num(0)],
        r.opacity == prop.opacity,
        r.emissive_strength == arith::num(0),
        r.mask_threshold == arith::num(arith::HALF),
        r.blend_mode == prop.blend_mode,
        r.masks@ == Seq::<InxMask>::empty(),
{
    let zero = Scalar { bits: 0 };
    InxMaterial {
        mesh: Some(quad_mesh(prop.size)),
        texture_albedo: Some(prop.texture),
        texture_emissive: None,
        texture_bumpmap: None,
        textures: [0, 0, 0],
        tint: prop.tint,
        screen_tint: [zero, zero, zero],
        opacity: prop.opacity,
        emissive_strength: zero,
        mask_threshold: Scalar { bits: arith::HALF },
        blend_mode: prop.blend_mode,
        masks: Vec::new(),
    }
}

/// Hands out the next UUID for a prop. After the last it starts over at zero.
pub fn next_prop_uuid(next: &mut u32) -> (r: u32)
    ensures
        r == *old(next),
        *final(next) == (if *old(next) == u32::MAX {
            0
        } else {
            (*old(next) + 1) as u32
        }),
{
    let r: u32 = *next;
    *next = if r == u32::MAX {
        0
    } else {
        r + 1
    };
    r
}

/// An entity among others has this root.
pub open spec fn roots_one(parents: Map<u64, u64>, entities: Seq<u64>, root: u64) -> bool {
    exists|i: int|
        0 <= i < entities.len() && hierarchy::top_of(parents, #[trigger] entities[i]) == root
}

/// One of the entities has lost its place.
pub open spec fn any_loose(parents: Map<u64, u64>, entities: Seq<u64>) -> bool {
    exists|i: int| 0 <= i < entities.len() && !parents.dom().contains(#[trigger] entities[i])
}

/// One of the entities still has a place, and this root.
pub open spec fn roots_kept(parents: Map<u64, u64>, entities: Seq<u64>, root: u64) -> bool {
    exists|i: int|
        0 <= i < entities.len() && parents.dom().contains(#[trigger] entities[i])
            && hierarchy::top_of(parents, entities[i]) == root
}

/// The nodes of this puppet have changed: a prop below it has been changed, moved
/// or removed, or one has been removed and nobody knows where it was.
pub open spec fn is_dirty(
    parents: Map<u64, u64>,
    changed: Seq<u64>,
    moved: Seq<u64>,
    removed: Seq<u64>,
    roots: Seq<u64>,
    root: u64,
) -> bool {
    ||| roots_one(parents, changed, root)
    ||| roots_one(parents, moved, root)
    ||| roots_kept(parents, removed, root)
    ||| (any_loose(parents, removed) && roots.contains(root))
}

pub open spec fn rises(s: Seq<u64>) -> bool {
    forall|i: int, j: int| 0 <= i < j < s.len() ==> s[i] < s[j]
}

fn push_roots(parents: &IdMap, entities: &Vec<u64>, out: &mut Vec<u64>)
    requires
        hierarchy::rooted(parents@),
    ensures
        forall|x: u64| #[trigger]
            final(out)@.contains(x) <==> old(out)@.contains(x) || roots_one(
                parents@,
                entities@,
                x,
            ),
{
    let ghost start = out@;
    let mut i: usize = 0;
    while i < entities.len()
        invariant
            hierarchy::rooted(parents@),
            i <= entities@.len(),
            forall|x: u64| #[trigger]
                out@.contains(x) <==> start.contains(x) || roots_one(
                    parents@,
                    entities@.take(i as int),
                    x,
                ),
        decreases entities@.len() - i,
    {
        let e: u64 = entities[i];
        let root: u64 = root_of(e, parents);
        let ghost before = out@;
        let ghost now = entities@.take(i + 1);
        let ghost had = entities@.take(i as int);
        out.push(root);
        proof {
            assert forall|x: u64| #[trigger]
                out@.contains(x) <==> start.contains(x) || roots_one(parents@, now, x) by {
                lemma_contains_push(before, root, x);
                if roots_one(parents@, had, x) {
                    let k = choose|k: int|
                        0 <= k < had.len() && hierarchy::top_of(parents@, #[trigger] had[k]) == x;
                    assert(now[k] == had[k]);
                }
                if x == root {
                    assert(hierarchy::top_of(parents@, now[i as int]) == x);
                }
                if roots_one(parents@, now, x) && x != root {
                    let k = choose|k: int|
                        0 <= k < now.len() && hierarchy::top_of(parents@, #[trigger] now[k]) == x;
                    assert(had[k] == now[k]);
                }
            }
        }
        i = i + 1;
    }
    assert(entities@.take(i as int) =~= entities@);
}

proof fn lemma_contains_push(s: Seq<u64>, v: u64, x: u64)
    ensures
        s.push(v).contains(x) <==> s.contains(x) || x == v,
{
    if s.contains(x) {
        let k = s.index_of(x);
        assert(s.push(v)[k] == x);
    }
    if x == v {
        assert(s.push(v)[s.len() as int] == x);
    }
    if s.push(v).contains(x) && x != v {
        let k = s.push(v).index_of(x);
        assert(s[k] == x);
    }
}

/// Adds the roots of the removed entities that still have a place, and says
/// whether one has none.
fn push_kept_roots(parents: &IdMap, removed: &Vec<u64>, out: &mut Vec<u64>) -> (loose: bool)
    requires
        hierarchy::rooted(parents@),
    ensures
        loose == any_loose(parents@, removed@),
        forall|x: u64| #[trigger]
            final(out)@.contains(x) <==> old(out)@.contains(x) || roots_kept(
                parents@,
                removed@,
                x,
            ),
{
    let ghost start = out@;
    let mut loose = false;
    let mut i: usize = 0;
    while i < removed.len()
        invariant
            hierarchy::rooted(parents@),
            i <= removed@.len(),
            loose == any_loose(parents@, removed@.take(i as int)),
            forall|x: u64| #[trigger]
                out@.contains(x) <==> start.contains(x) || roots_kept(
                    parents@,
                    removed@.take(i as int),
                    x,
                ),
        decreases removed@.len() - i,
    {
        let e: u64 = removed[i];
        let ghost before = out@;
        let ghost now = removed@.take(i + 1);
        let ghost had = removed@.take(i as int);
        let ghost was = loose;
        let placed = parents.get(e).is_some();
        if placed {
            let root: u64 = root_of(e, parents);
            out.push(root);
        } else {
            loose = true;
        }
        proof {
            let root = hierarchy::top_of(parents@, e);
            assert(now[i as int] == e);
            if was {
                let k = choose|k: int|
                    0 <= k < had.len() && !parents@.dom().contains(#[trigger] had[k]);
                assert(now[k] == had[k]);
            }
            if any_loose(parents@, now) && placed {
                let k = choose|k: int|
                    0 <= k < now.len() && !parents@.dom().contains(#[trigger] now[k]);
                assert(had[k] == now[k]);
            }
            assert forall|x: u64| #[trigger]
                out@.contains(x) <==> start.contains(x) || roots_kept(parents@, now, x) by {
                if placed {
                    lemma_contains_push(before, root, x);
                }
                if roots_kept(parents@, had, x) {
                    let k = choose|k: int|
                        0 <= k < had.len() && parents@.dom().contains(#[trigger] had[k])
                            && hierarchy::top_of(parents@, had[k]) == x;
                    assert(now[k] == had[k]);
                }
                if roots_kept(parents@, now, x) && !(placed && x == root) {
                    let k = choose|k: int|
                        0 <= k < now.len() && parents@.dom().contains(#[trigger] now[k])
                            && hierarchy::top_of(parents@, now[k]) == x;
                    assert(had[k] == now[k]);
                }
            }
        }
        i = i + 1;
    }
    assert(removed@.take(i as int) =~= removed@);
    loose
}

/// The distinct members of a list, in rising order.
fn distinct(list: &Vec<u64>) -> (r: Vec<u64>)
    ensures
        rises(r@),
        forall|x: u64| #[trigger] r@.contains(x) <==> list@.contains(x),
{
    let mut keys: Vec<i128> = Vec::new();
    let mut i: usize = 0;
    while i < list.len()
        invariant
            i <= list@.len(),
            keys@.len() == i,
            forall|j: int| 0 <= j < i ==> #[trigger] keys@[j] == list@[j],
        decreases list@.len() - i,
    {
        keys.push(list[i] as i128);
        i = i + 1;
    }
    let p = stable_order(&keys);
    let ghost ks = keys@.map_values(|k: i128| k as int);
    let ghost places = order::places(p@);
    let mut r: Vec<u64> = Vec::new();
    let mut k: usize = 0;
    while k < p.len()
        invariant
            keys@.len() == list@.len(),
            forall|j: int| 0 <= j < list@.len() ==> #[trigger] keys@[j] == list@[j],
            ks == keys@.map_values(|k: i128| k as int),
            places == order::places(p@),
            order::ascends(ks, places),
            p@.len() == list@.len(),
            k <= p@.len(),
            rises(r@),
            r@.len() > 0 ==> k > 0 && r@.last() == list@[places[k - 1]],
            r@.len() == 0 ==> k == 0,
            forall|j: int| 0 <= j < k ==> r@.contains(list@[#[trigger] places[j]]),
            forall|j: int| 0 <= j < r@.len() ==> list@.contains(#[trigger] r@[j]),
        decreases p@.len() - k,
    {
        assert(places[k as int] == p@[k as int]);
        let v: u64 = list[p[k]];
        let n: usize = r.len();
        let ghost before = r@;
        if n == 0 || r[n - 1] != v {
            r.push(v);
            proof {
                if n > 0 {
                    let a = places[k - 1];
                    let b = places[k as int];
                    assert(ks[a] <= ks[b]);
                    assert(ks[a] == list@[a] && ks[b] == list@[b]);
                }
                assert(r@.last() == v);
                assert forall|j: int| 0 <= j < k + 1 implies r@.contains(
                    list@[#[trigger] places[j]],
                ) by {
                    if j < k {
                        lemma_contains_push(before, v, list@[places[j]]);
                    } else {
                        lemma_contains_push(before, v, v);
                    }
                }
            }
        } else {
            proof {
                assert(r@.contains(r@[n - 1]));
            }
        }
        k = k + 1;
    }
    proof {
        assert forall|x: u64| #[trigger] r@.contains(x) <==> list@.contains(x) by {
            if list@.contains(x) {
                let at = list@.index_of(x);
                let j = order::lemma_permutes_hits(places, list@.len(), at);
                assert(r@.contains(list@[places[j]]));
            }
            if r@.contains(x) {
                let at = r@.index_of(x);
                assert(list@.contains(r@[at]));
            }
        }
    }
    r
}

/// Finds the puppets whose nodes have changed, each once. `changed` and `moved`
/// are props, `removed` were props, and `roots` are all puppets.
pub fn sync_props(
    parents: &IdMap,
    changed: &Vec<u64>,
    moved: &Vec<u64>,
    removed: &Vec<u64>,
    roots: &Vec<u64>,
) -> (r: Vec<u64>)
    requires
        hierarchy::rooted(parents@),
    ensures
        rises(r@),
        forall|x: u64| #[trigger]
            r@.contains(x) <==> is_dirty(parents@, changed@, moved@, removed@, roots@, x),
{
    let mut all: Vec<u64> = Vec::new();
    push_roots(parents, changed, &mut all);
    push_roots(parents, moved, &mut all);
    let loose = push_kept_roots(parents, removed, &mut all);
    if loose {
        let ghost before = all@;
        let mut i: usize = 0;
        while i < roots.len()
            invariant
                i <= roots@.len(),
                forall|x: u64| #[trigger]
                    all@.contains(x) <==> before.contains(x) || roots@.take(i as int).contains(x),
            decreases roots@.len() - i,
        {
            let ghost had = all@;
            let v: u64 = roots[i];
            all.push(v);
            proof {
                assert(roots@.take(i + 1) =~= roots@.take(i as int).push(v));
                assert forall|x: u64| #[trigger]
                    all@.contains(x) <==> before.contains(x) || roots@.take(i + 1).contains(x) by {
                    lemma_contains_push(had, v, x);
                    lemma_contains_push(roots@.take(i as int), v, x);
                }
            }
            i = i + 1;
        }
        assert(roots@.take(i as int) =~= roots@);
    }
    distinct(&all)
}

/// The version after a change; 1 for a puppet that had none.
pub fn next_version(version: Option<InxStructureVersion>) -> (r: InxStructureVersion)
    ensures
        r.0 == (match version {
            Some(v) => if v.0 == u32::MAX {
                0
            } else {
                (v.0 + 1) as u32
            },
            None => 1,
        }),
{
    match version {
        Some(v) => InxStructureVersion(
            if v.0 == u32::MAX {
                0
            } else {
                v.0 + 1
            },
        ),
        None => InxStructureVersion(1),
    }
}

/// A quad has its corners half a width and half a height from the origin, and shows its
/// texture upright: the right corners are at the right of the texture, and the upper
/// ones at its top, where V is 0. Width and height are `2 * w` and `2 * h`.
pub proof fn lemma_quad_is_upright(size: [Scalar; 2], w: int, h: int, s: nat, i: int)
    requires
        exact::stands_for(size[0], 2 * w, s),
        exact::stands_for(size[1], 2 * h, s),
        -0x40_0000 <= w <= 0x40_0000,
        -0x40_0000 <= h <= 0x40_0000,
        1 <= s <= 252,
        0 <= i < 4,
    ensures
        ({
            let c = quad_corners(size)[i];
            let t = quad_uvs()[i];
            &&& quad_corners(size).len() == 4 && quad_uvs().len() == 4
            &&& t[0].value() == 0 || t[0].value() == crate::scalar::unit()
            &&& t[1].value() == 0 || t[1].value() == crate::scalar::unit()
            &&& t[0].value() == 0 ==> exact::stands_for(c[0], -w, s)
            &&& t[0].value() > 0 ==> exact::stands_for(c[0], w, s)
            &&& t[1].value() == 0 ==> exact::stands_for(c[1], h, s)
            &&& t[1].value() > 0 ==> exact::stands_for(c[1], -h, s)
        }),
{
    let half = arith::num(arith::HALF);
    exact::lemma_small();
    exact::lemma_one();
    exact::lemma_zero_value(arith::num(0));
    exact::lemma_product(size[0], 2 * w, s, half, 1, 148);
    exact::lemma_product(size[1], 2 * h, s, half, 1, 148);
    exact::lemma_coarser(size[0].times(half), w, (s - 1) as nat);
    exact::lemma_coarser(size[1].times(half), h, (s - 1) as nat);
    exact::lemma_opposite(size[0].times(half), w, s);
    exact::lemma_opposite(size[1].times(half), h, s);
}

/// The triangles of a quad run counterclockwise, cover it without overlapping, and use
/// all of its corners: each takes three corners that follow one another, and they share
/// two.
pub proof fn lemma_quad_is_covered()
    ensures
        ({
            let q = quad_indices();
            let u = quad_uvs();
            &&& q.len() == 6
            &&& forall|k: int| 0 <= k < 6 ==> (#[trigger] q[k]) < 4
            &&& forall|c: u32| c < 4 ==> #[trigger] q.contains(c)
            &&& q[0] < q[1] < q[2] && q[3] < q[4] < q[5]
            &&& forall|a: int, b: int|
                0 <= a < b < 4 ==> (#[trigger] u[a]) != (#[trigger] u[b])
        }),
{
    let q = quad_indices();
    assert forall|c: u32| c < 4 implies #[trigger] q.contains(c) by {
        assert(q[0] == 0 && q[1] == 1 && q[2] == 2 && q[5] == 3);
    }
    let u = quad_uvs();
    let (zero, one) = (arith::num(0), arith::num(ONE));
    assert(zero != one);
    assert(u[0][0] == zero && u[0][1] == one);
    assert(u[1][0] == one && u[1][1] == one);
    assert(u[2][0] == one && u[2][1] == zero);
    assert(u[3][0] == zero && u[3][1] == zero);
}

} // verus!
