//! Depths of parts: the draw order of a puppet, spread over a band.

use crate::arith;
use crate::exact;
use crate::id_map;
use crate::id_map::IdMap;
use crate::order;
use crate::order::order_by_number;
use crate::rounding;
use crate::scalar;
use crate::scalar::{Scalar, ONE};
use vstd::prelude::*;

verus! {

/// The band that the parts of a puppet are spread over.
#[derive(Debug, Clone, Copy, PartialEq, Eq, Structural)]
pub struct InxZBand {
    /// Z of the part that is drawn first.
    pub base: Scalar,
    /// From one part to the next in the order of drawing.
    pub step: Scalar,
}

impl Default for InxZBand {
    /// From 0 in steps of 0.1.
    fn default() -> (r: InxZBand)
        ensures
            r == (InxZBand { base: arith::num(0), step: arith::num(0x3dcc_cccd) }),
    {
        InxZBand { base: Scalar { bits: 0 }, step: Scalar { bits: 0x3dcc_cccd } }
    }
}

/// An entity below the root of a puppet; the root is first. Children stand after
/// their parents.
#[derive(Debug, Clone)]
pub struct ZNode {
    pub entity: u64,
    /// Depth relative to the parent; zero if it has none.
    pub zsort: Scalar,
    /// It has a mesh.
    pub is_part: bool,
    /// It is a composite group.
    pub is_group: bool,
    /// The composite group that it is in.
    pub tag: Option<u64>,
    /// Children, by their position in the list.
    pub children: Vec<usize>,
}

pub open spec fn children_after(nodes: Seq<ZNode>) -> bool {
    forall|i: int, j: int|
        #![trigger nodes[i].children@[j]]
        0 <= i < nodes.len() && 0 <= j < nodes[i].children@.len() ==> i < nodes[i].children@[j]
            < nodes.len()
}

/// The nodes at and below a node in the order of the tree, each with its depth:
/// the depths of all nodes above it and its own, added up.
pub open spec fn visited(nodes: Seq<ZNode>, at: int, acc: Scalar) -> Seq<(usize, Scalar)>
    decreases nodes.len() - at, nodes[at].children@.len() + 1,
    when 0 <= at < nodes.len() && children_after(nodes)
{
    seq![(at as usize, acc)] + visited_below(nodes, at, acc, nodes[at].children@.len())
}

pub open spec fn visited_below(nodes: Seq<ZNode>, at: int, acc: Scalar, k: nat) -> Seq<
    (usize, Scalar),
>
    decreases nodes.len() - at, k,
    when 0 <= at < nodes.len() && children_after(nodes) && k <= nodes[at].children@.len()
{
    if k == 0 {
        Seq::empty()
    } else {
        let child = nodes[at].children@[k - 1];
        visited_below(nodes, at, acc, (k - 1) as nat) + visited(
            nodes,
            child as int,
            acc.plus(nodes[child as int].zsort),
        )
    }
}

fn visit(nodes: &Vec<ZNode>, at: usize, acc: Scalar, out: &mut Vec<(usize, Scalar)>)
    requires
        at < nodes@.len(),
        children_after(nodes@),
    ensures
        final(out)@ == old(out)@ + visited(nodes@, at as int, acc),
    decreases nodes@.len() - at,
{
    let ghost start = out@;
    out.push((at, acc));
    let ghost first = seq![(at, acc)];
    assert(out@ =~= start + first + visited_below(nodes@, at as int, acc, 0));
    let mut k: usize = 0;
    while k < nodes[at].children.len()
        invariant
            at < nodes@.len(),
            children_after(nodes@),
            k <= nodes@[at as int].children@.len(),
            out@ == start + first + visited_below(nodes@, at as int, acc, k as nat),
        decreases nodes@[at as int].children@.len() - k,
    {
        let child: usize = nodes[at].children[k];
        assert(nodes@[at as int].children@[k as int] == child);
        let ghost before = visited_below(nodes@, at as int, acc, k as nat);
        let next = acc.add(nodes[child].zsort);
        visit(nodes, child, next, out);
        assert(out@ =~= start + first + (before + visited(nodes@, child as int, next)));
        k = k + 1;
    }
    assert(out@ =~= start + (first + visited_below(
        nodes@,
        at as int,
        acc,
        nodes@[at as int].children@.len(),
    )));
}

/// Lists the nodes of a puppet in the order of the tree, each with its depth.
pub fn accumulate_depths(nodes: &Vec<ZNode>) -> (r: Vec<(usize, Scalar)>)
    requires
        nodes@.len() > 0,
        children_after(nodes@),
    ensures
        r@ == visited(nodes@, 0, nodes@[0].zsort),
{
    let mut r: Vec<(usize, Scalar)> = Vec::new();
    visit(nodes, 0, nodes[0].zsort, &mut r);
    assert(r@ =~= visited(nodes@, 0, nodes@[0].zsort));
    r
}

/// What takes one place in the order of drawing: a part on its own, or a whole
/// group.
#[derive(Debug, Clone, Copy, PartialEq, Eq, Structural)]
pub enum Unit {
    Part(u64),
    Group(u64),
}

/// One of the listed nodes is this group.
pub open spec fn lists_group(nodes: Seq<ZNode>, v: Seq<(usize, Scalar)>, g: u64) -> bool {
    exists|i: int|
        0 <= i < v.len() && nodes[(#[trigger] v[i]).0 as int].is_group && nodes[v[i].0 as int].entity
            == g
}

/// The listed group that a node is in.
pub open spec fn group_of(nodes: Seq<ZNode>, v: Seq<(usize, Scalar)>, n: ZNode) -> Option<u64> {
    match n.tag {
        Some(g) => if lists_group(nodes, v, g) {
            Some(g)
        } else {
            None
        },
        None => None,
    }
}

/// The parts among the first `k` listed nodes that are in no group.
pub open spec fn lone_parts(nodes: Seq<ZNode>, v: Seq<(usize, Scalar)>, k: nat) -> Seq<
    (Unit, Scalar),
>
    decreases k,
{
    if k == 0 {
        Seq::empty()
    } else {
        let before = lone_parts(nodes, v, (k - 1) as nat);
        let n = nodes[v[k - 1].0 as int];
        if n.is_part && group_of(nodes, v, n) is None {
            before.push((Unit::Part(n.entity), v[k - 1].1))
        } else {
            before
        }
    }
}

/// The parts among the first `k` listed nodes that are in a group.
pub open spec fn group_parts(
    nodes: Seq<ZNode>,
    v: Seq<(usize, Scalar)>,
    g: u64,
    k: nat,
) -> Seq<(u64, Scalar)>
    decreases k,
{
    if k == 0 {
        Seq::empty()
    } else {
        let before = group_parts(nodes, v, g, (k - 1) as nat);
        let n = nodes[v[k - 1].0 as int];
        if n.is_part && n.tag == Some(g) {
            before.push((n.entity, v[k - 1].1))
        } else {
            before
        }
    }
}

/// The groups among the first `k` listed nodes that have parts.
pub open spec fn filled_groups(nodes: Seq<ZNode>, v: Seq<(usize, Scalar)>, k: nat) -> Seq<
    (Unit, Scalar),
>
    decreases k,
{
    if k == 0 {
        Seq::empty()
    } else {
        let before = filled_groups(nodes, v, (k - 1) as nat);
        let n = nodes[v[k - 1].0 as int];
        if n.is_group && group_parts(nodes, v, n.entity, v.len()).len() > 0 {
            before.push((Unit::Group(n.entity), v[k - 1].1))
        } else {
            before
        }
    }
}

/// All that takes a place: first the parts in no group, then the groups.
pub open spec fn units_of(nodes: Seq<ZNode>, v: Seq<(usize, Scalar)>) -> Seq<(Unit, Scalar)> {
    lone_parts(nodes, v, v.len()) + filled_groups(nodes, v, v.len())
}

pub open spec fn unit_depths(us: Seq<(Unit, Scalar)>) -> Seq<Scalar> {
    us.map_values(|u: (Unit, Scalar)| u.1)
}

pub open spec fn part_depths(ps: Seq<(u64, Scalar)>) -> Seq<Scalar> {
    ps.map_values(|p: (u64, Scalar)| p.1)
}

/// Z of the unit at a place.
pub open spec fn unit_z(offset: Scalar, band: InxZBand, rank: int) -> Scalar {
    offset.plus(band.base).plus(arith::of_int(rank).times(band.step))
}

/// How far the parts of a group are apart: half a step for all of them.
pub open spec fn spacing(band: InxZBand, parts: int) -> Scalar {
    band.step.times(arith::num(arith::HALF)).over(arith::of_int(parts).plus(arith::num(ONE)))
}

/// Z of a part in a group, by its place there.
pub open spec fn part_z(z: Scalar, gap: Scalar, place: int) -> Scalar {
    z.plus(arith::of_int(place).plus(arith::num(ONE)).times(gap))
}

/// A unit and where it is drawn.
#[derive(Debug, Clone)]
pub struct PlacedUnit {
    pub unit: Unit,
    pub z: Scalar,
    /// The quad that stands for a group, at the same Z.
    pub quad: Option<u64>,
    /// The parts of a group with their Z.
    pub parts: Vec<(u64, Scalar)>,
}

/// The parts of a group by falling depth, above its Z.
pub open spec fn spreads(
    parts: Seq<(u64, Scalar)>,
    z: Scalar,
    band: InxZBand,
    r: Seq<(u64, Scalar)>,
) -> bool {
    exists|p: Seq<int>| #[trigger]
        order::ordered(part_depths(parts), true, p) && r == Seq::new(
            parts.len(),
            |i: int| (parts[p[i]].0, part_z(z, spacing(band, parts.len() as int), i)),
        )
}

pub open spec fn places_unit(
    nodes: Seq<ZNode>,
    v: Seq<(usize, Scalar)>,
    quads: Map<u64, u64>,
    offset: Scalar,
    band: InxZBand,
    unit: Unit,
    rank: int,
    r: PlacedUnit,
) -> bool {
    &&& r.unit == unit
    &&& r.z == unit_z(offset, band, rank)
    &&& match unit {
        Unit::Part(_) => r.quad is None && r.parts@.len() == 0,
        Unit::Group(g) => r.quad == id_map::found(quads, g) && spreads(
            group_parts(nodes, v, g, v.len()),
            r.z,
            band,
            r.parts@,
        ),
    }
}

/// All units by falling depth, each at its place in the band.
pub open spec fn lays_out(
    nodes: Seq<ZNode>,
    v: Seq<(usize, Scalar)>,
    quads: Map<u64, u64>,
    offset: Scalar,
    band: InxZBand,
    r: Seq<PlacedUnit>,
) -> bool {
    let us = units_of(nodes, v);
    exists|p: Seq<int>|
        {
            &&& #[trigger] order::ordered(unit_depths(us), true, p)
            &&& r.len() == us.len()
            &&& forall|i: int|
                0 <= i < r.len() ==> places_unit(
                    nodes,
                    v,
                    quads,
                    offset,
                    band,
                    us[p[i]].0,
                    i,
                    #[trigger] r[i],
                )
        }
}

/// The list names nodes, and their depths are numbers.
pub open spec fn listable(nodes: Seq<ZNode>, v: Seq<(usize, Scalar)>) -> bool {
    &&& v.len() <= 0x7fff_ffff
    &&& forall|i: int| 0 <= i < v.len() ==> (#[trigger] v[i]).0 < nodes.len() && !v[i].1.nan()
}

fn is_listed_group(nodes: &Vec<ZNode>, v: &Vec<(usize, Scalar)>, g: u64) -> (r: bool)
    requires
        listable(nodes@, v@),
    ensures
        r == lists_group(nodes@, v@, g),
{
    let mut i: usize = 0;
    while i < v.len()
        invariant
            listable(nodes@, v@),
            i <= v@.len(),
            forall|j: int|
                0 <= j < i ==> !(nodes@[(#[trigger] v@[j]).0 as int].is_group
                    && nodes@[v@[j].0 as int].entity == g),
        decreases v@.len() - i,
    {
        let n = &nodes[v[i].0];
        if n.is_group && n.entity == g {
            assert(nodes@[v@[i as int].0 as int].is_group);
            return true;
        }
        i = i + 1;
    }
    false
}

fn collect_parts(nodes: &Vec<ZNode>, v: &Vec<(usize, Scalar)>, g: u64) -> (r: Vec<(u64, Scalar)>)
    requires
        listable(nodes@, v@),
    ensures
        r@ == group_parts(nodes@, v@, g, v@.len()),
        r@.len() <= v@.len(),
        forall|j: int| 0 <= j < r@.len() ==> !(#[trigger] r@[j]).1.nan(),
{
    let mut r: Vec<(u64, Scalar)> = Vec::new();
    let mut i: usize = 0;
    while i < v.len()
        invariant
            listable(nodes@, v@),
            i <= v@.len(),
            r@.len() <= i,
            r@ == group_parts(nodes@, v@, g, i as nat),
            forall|j: int| 0 <= j < r@.len() ==> !(#[trigger] r@[j]).1.nan(),
        decreases v@.len() - i,
    {
        let n = &nodes[v[i].0];
        let same = match n.tag {
            Some(t) => t == g,
            None => false,
        };
        if n.is_part && same {
            r.push((n.entity, v[i].1));
        }
        i = i + 1;
    }
    r
}

fn collect_units(nodes: &Vec<ZNode>, v: &Vec<(usize, Scalar)>) -> (r: Vec<(Unit, Scalar)>)
    requires
        listable(nodes@, v@),
    ensures
        r@ == units_of(nodes@, v@),
        forall|j: int| 0 <= j < r@.len() ==> !(#[trigger] r@[j]).1.nan(),
{
    let mut r: Vec<(Unit, Scalar)> = Vec::new();
    let mut i: usize = 0;
    while i < v.len()
        invariant
            listable(nodes@, v@),
            i <= v@.len(),
            r@ == lone_parts(nodes@, v@, i as nat),
            forall|j: int| 0 <= j < r@.len() ==> !(#[trigger] r@[j]).1.nan(),
        decreases v@.len() - i,
    {
        let n = &nodes[v[i].0];
        if n.is_part {
            let grouped = match n.tag {
                Some(g) => is_listed_group(nodes, v, g),
                None => false,
            };
            if !grouped {
                r.push((Unit::Part(n.entity), v[i].1));
            }
        }
        i = i + 1;
    }
    let ghost lone = r@;
    assert(r@ =~= lone + filled_groups(nodes@, v@, 0));
    let mut k: usize = 0;
    while k < v.len()
        invariant
            listable(nodes@, v@),
            lone == lone_parts(nodes@, v@, v@.len()),
            k <= v@.len(),
            r@ == lone + filled_groups(nodes@, v@, k as nat),
            forall|j: int| 0 <= j < r@.len() ==> !(#[trigger] r@[j]).1.nan(),
        decreases v@.len() - k,
    {
        let n = &nodes[v[k].0];
        let ghost had = filled_groups(nodes@, v@, k as nat);
        if n.is_group {
            let parts = collect_parts(nodes, v, n.entity);
            if parts.len() > 0 {
                let u = (Unit::Group(n.entity), v[k].1);
                r.push(u);
                assert(r@ =~= lone + had.push(u));
            }
        }
        k = k + 1;
    }
    r
}

fn spread_parts(parts: &Vec<(u64, Scalar)>, z: Scalar, band: InxZBand) -> (r: Vec<(u64, Scalar)>)
    requires
        parts@.len() <= u32::MAX,
        forall|j: int| 0 <= j < parts@.len() ==> !(#[trigger] parts@[j]).1.nan(),
    ensures
        spreads(parts@, z, band, r@),
{
    let mut zs: Vec<Scalar> = Vec::new();
    let mut i: usize = 0;
    while i < parts.len()
        invariant
            forall|j: int| 0 <= j < parts@.len() ==> !(#[trigger] parts@[j]).1.nan(),
            i <= parts@.len(),
            zs@.len() == i,
            forall|j: int| 0 <= j < i ==> #[trigger] zs@[j] == parts@[j].1,
        decreases parts@.len() - i,
    {
        zs.push(parts[i].1);
        i = i + 1;
    }
    assert(zs@ =~= part_depths(parts@));
    let p = order_by_number(&zs, true);
    let one = Scalar { bits: ONE };
    let count: u32 = parts.len() as u32;
    let gap = band.step.mul(Scalar { bits: arith::HALF }).div(Scalar::from_u32(count).add(one));
    let ghost places = order::places(p@);
    let ghost want = Seq::new(parts@.len(), |i: int| (parts@[places[i]].0, part_z(z, gap, i)));
    let mut r: Vec<(u64, Scalar)> = Vec::new();
    let mut k: usize = 0;
    while k < p.len()
        invariant
            parts@.len() <= u32::MAX,
            one == arith::num(ONE),
            places == order::places(p@),
            order::ordered(part_depths(parts@), true, places),
            p@.len() == parts@.len(),
            want == Seq::new(parts@.len(), |i: int| (parts@[places[i]].0, part_z(z, gap, i))),
            k <= p@.len(),
            r@ == want.take(k as int),
        decreases p@.len() - k,
    {
        assert(places[k as int] == p@[k as int]);
        let at = z.add(Scalar::from_u32(k as u32).add(one).mul(gap));
        r.push((parts[p[k]].0, at));
        k = k + 1;
        assert(r@ =~= want.take(k as int));
    }
    assert(r@ =~= want);
    assert(gap == spacing(band, parts@.len() as int));
    r
}

proof fn lemma_units_at_most(nodes: Seq<ZNode>, v: Seq<(usize, Scalar)>, k: nat)
    ensures
        lone_parts(nodes, v, k).len() <= k,
        filled_groups(nodes, v, k).len() <= k,
    decreases k,
{
    if k > 0 {
        lemma_units_at_most(nodes, v, (k - 1) as nat);
    }
}

/// Gives every part a Z by its place in the order of drawing: by falling depth,
/// and in the order of the tree where depths are equal. A group takes one place,
/// at its own depth, and its parts are spread over the half step above it.
/// `listed` are the nodes with their depths, `quads` the quads of groups, and
/// `root_offset` is the Z of the puppet.
pub fn sync_part_z(
    nodes: &Vec<ZNode>,
    listed: &Vec<(usize, Scalar)>,
    quads: &IdMap,
    root_offset: Scalar,
    band: InxZBand,
) -> (r: Vec<PlacedUnit>)
    requires
        listable(nodes@, listed@),
    ensures
        lays_out(nodes@, listed@, quads@, root_offset, band, r@),
{
    let units = collect_units(nodes, listed);
    proof {
        lemma_units_at_most(nodes@, listed@, listed@.len());
    }
    let ghost us = units@;
    let mut zs: Vec<Scalar> = Vec::new();
    let mut i: usize = 0;
    while i < units.len()
        invariant
            forall|j: int| 0 <= j < units@.len() ==> !(#[trigger] units@[j]).1.nan(),
            i <= units@.len(),
            zs@.len() == i,
            forall|j: int| 0 <= j < i ==> #[trigger] zs@[j] == units@[j].1,
        decreases units@.len() - i,
    {
        zs.push(units[i].1);
        i = i + 1;
    }
    assert(zs@ =~= unit_depths(us));
    let p = order_by_number(&zs, true);
    let ghost places = order::places(p@);
    let mut r: Vec<PlacedUnit> = Vec::new();
    let mut k: usize = 0;
    while k < p.len()
        invariant
            listable(nodes@, listed@),
            us == units@,
            us == units_of(nodes@, listed@),
            places == order::places(p@),
            order::ordered(unit_depths(us), true, places),
            p@.len() == us.len(),
            p@.len() <= u32::MAX,
            k <= p@.len(),
            r@.len() == k,
            forall|j: int|
                0 <= j < k ==> places_unit(
                    nodes@,
                    listed@,
                    quads@,
                    root_offset,
                    band,
                    us[places[j]].0,
                    j,
                    #[trigger] r@[j],
                ),
        decreases p@.len() - k,
    {
        assert(places[k as int] == p@[k as int]);
        let unit = units[p[k]].0;
        let z = root_offset.add(band.base).add(Scalar::from_u32(k as u32).mul(band.step));
        let placed = match unit {
            Unit::Part(_) => PlacedUnit { unit, z, quad: None, parts: Vec::new() },
            Unit::Group(g) => {
                let parts = collect_parts(nodes, listed, g);
                PlacedUnit { unit, z, quad: quads.get(g), parts: spread_parts(&parts, z, band) }
            },
        };
        r.push(placed);
        k = k + 1;
    }
    r
}

/// What is drawn later does not lie lower.
pub proof fn lemma_units_rise(offset: Scalar, band: InxZBand, a: int, b: int)
    requires
        0 <= a <= b <= u32::MAX,
        offset.plus(band.base).finite(),
        band.step.finite(),
        !band.step.negative(),
    ensures
        unit_z(offset, band, a).value() <= unit_z(offset, band, b).value(),
{
    let base = offset.plus(band.base);
    let (x, y) = (arith::of_int(a), arith::of_int(b));
    rounding::lemma_of_int_is_number(a);
    rounding::lemma_of_int_is_number(b);
    rounding::lemma_of_int_ordered(a, b);
    rounding::lemma_times_ordered(x, y, band.step);
    rounding::lemma_times_ordered(y, y, band.step);
    arith::lemma_plus_commutes(base, x.times(band.step));
    arith::lemma_plus_commutes(base, y.times(band.step));
    rounding::lemma_plus_ordered(x.times(band.step), y.times(band.step), base);
}

/// The parts of a group do not lie below it, and what is drawn later does not lie
/// lower.
pub proof fn lemma_parts_rise(z: Scalar, gap: Scalar, a: int, b: int)
    requires
        0 <= a <= b < u32::MAX,
        z.finite(),
        gap.finite(),
        !gap.negative(),
        arith::of_int(b).plus(arith::num(ONE)).finite(),
    ensures
        z.value() <= part_z(z, gap, a).value(),
        part_z(z, gap, a).value() <= part_z(z, gap, b).value(),
{
    let zero = arith::num(0);
    let one = arith::num(ONE);
    let (x, y) = (arith::of_int(a), arith::of_int(b));
    rounding::lemma_of_int_is_number(a);
    rounding::lemma_of_int_is_number(b);
    rounding::lemma_of_int_ordered(a, b);
    arith::lemma_packs(0, 0, 0);
    arith::lemma_packs(0x80_0000, 126, ONE as int);
    vstd::arithmetic::power2::lemma_pow2_pos(126);
    arith::lemma_magnitudes(0, x.mag());
    arith::lemma_magnitudes(0, y.mag());
    rounding::lemma_plus_ordered(x, y, one);
    rounding::lemma_plus_ordered(zero, x, one);
    rounding::lemma_plus_is_number(x, one);
    rounding::lemma_plus_is_number(zero, one);
    let (p, q) = (x.plus(one), y.plus(one));
    arith::lemma_plus_commutes(zero, one);
    arith::lemma_plus_zero(one);
    scalar::lemma_value_order(zero, p);
    scalar::lemma_value_order(p, q);
    scalar::lemma_value_order(one, p);
    rounding::lemma_times_ordered(p, q, gap);
    rounding::lemma_times_ordered(q, q, gap);
    arith::lemma_plus_commutes(z, p.times(gap));
    arith::lemma_plus_commutes(z, q.times(gap));
    rounding::lemma_plus_ordered(p.times(gap), q.times(gap), z);
    scalar::lemma_value_order(zero, p.times(gap));
    rounding::lemma_plus_ordered(zero, p.times(gap), z);
    arith::lemma_plus_commutes(zero, z);
    if z.mag() != 0 {
        arith::lemma_plus_zero(z);
    }
}

/// The node at place `k` of a list is a child of the one at place `p`, and lies deeper
/// than that by its own depth.
pub open spec fn hangs(nodes: Seq<ZNode>, v: Seq<(usize, Scalar)>, p: int, k: int) -> bool {
    nodes[v[p].0 as int].children@.contains(v[k].0) && v[k].1 == v[p].1.plus(
        nodes[v[k].0 as int].zsort,
    )
}

/// The node at a place of a list hangs below one that comes before it.
pub open spec fn hangs_below(nodes: Seq<ZNode>, v: Seq<(usize, Scalar)>, k: int) -> bool {
    exists|p: int| 0 <= p < k && #[trigger] hangs(nodes, v, p, k)
}

proof fn lemma_joined_hang(
    nodes: Seq<ZNode>,
    first: Seq<(usize, Scalar)>,
    more: Seq<(usize, Scalar)>,
    at: int,
    k: int,
)
    requires
        first.len() > 0,
        more.len() > 0,
        first[0].0 == at,
        nodes[at].children@.contains(more[0].0),
        more[0].1 == first[0].1.plus(nodes[more[0].0 as int].zsort),
        forall|i: int| 0 < i < first.len() ==> #[trigger] hangs_below(nodes, first, i),
        forall|i: int| 0 < i < more.len() ==> #[trigger] hangs_below(nodes, more, i),
        0 < k < first.len() + more.len(),
    ensures
        hangs_below(nodes, first + more, k),
{
    let v = first + more;
    let l = first.len() as int;
    assert(v[0] == first[0]);
    if k < l {
        assert(hangs_below(nodes, first, k));
        let p = choose|p: int| 0 <= p < k && #[trigger] hangs(nodes, first, p, k);
        assert(first[p] == v[p] && first[k] == v[k]);
        assert(hangs(nodes, v, p, k));
    } else if k == l {
        assert(v[k] == more[0]);
        assert(hangs(nodes, v, 0, k));
    } else {
        assert(hangs_below(nodes, more, k - l));
        let p = choose|p: int| 0 <= p < k - l && #[trigger] hangs(nodes, more, p, k - l);
        assert(more[p] == v[p + l] && more[k - l] == v[k]);
        assert(hangs(nodes, v, p + l, k));
    }
}

proof fn lemma_below_hangs(nodes: Seq<ZNode>, at: int, acc: Scalar, n: nat)
    requires
        0 <= at < nodes.len(),
        at <= usize::MAX,
        children_after(nodes),
        n <= nodes[at].children@.len(),
    ensures
        forall|k: int|
            0 < k < 1 + visited_below(nodes, at, acc, n).len() ==> #[trigger] hangs_below(
                nodes,
                seq![(at as usize, acc)] + visited_below(nodes, at, acc, n),
                k,
            ),
    decreases nodes.len() - at, n,
{
    if n > 0 {
        let m = (n - 1) as nat;
        let child = nodes[at].children@[n - 1];
        let z = acc.plus(nodes[child as int].zsort);
        lemma_below_hangs(nodes, at, acc, m);
        lemma_depths_add_up(nodes, child as int, z);
        let first = seq![(at as usize, acc)] + visited_below(nodes, at, acc, m);
        let more = visited(nodes, child as int, z);
        let v = seq![(at as usize, acc)] + visited_below(nodes, at, acc, n);
        assert(v =~= first + more);
        assert(nodes[at].children@.contains(child));
        assert forall|k: int| 0 < k < v.len() implies #[trigger] hangs_below(nodes, v, k) by {
            lemma_joined_hang(nodes, first, more, at, k);
        }
    }
}

/// The depths of a tree add up on the way down: the list starts with the node that it
/// is made for, and each other node in it is a child of one that comes before it, and
/// lies deeper than that by its own depth.
pub proof fn lemma_depths_add_up(nodes: Seq<ZNode>, at: int, acc: Scalar)
    requires
        0 <= at < nodes.len(),
        at <= usize::MAX,
        children_after(nodes),
    ensures
        visited(nodes, at, acc).len() > 0,
        visited(nodes, at, acc)[0] == (at as usize, acc),
        forall|k: int|
            0 < k < visited(nodes, at, acc).len() ==> #[trigger] hangs_below(
                nodes,
                visited(nodes, at, acc),
                k,
            ),
    decreases nodes.len() - at, nodes[at].children@.len() + 1,
{
    let n = nodes[at].children@.len();
    lemma_below_hangs(nodes, at, acc, n);
    assert(visited(nodes, at, acc) == seq![(at as usize, acc)] + visited_below(
        nodes,
        at,
        acc,
        n,
    ));
}

/// What lies deeper is drawn earlier: of two units the one that is drawn first has no
/// smaller depth.
pub proof fn lemma_deeper_units_first(
    nodes: Seq<ZNode>,
    v: Seq<(usize, Scalar)>,
    quads: Map<u64, u64>,
    offset: Scalar,
    band: InxZBand,
    r: Seq<PlacedUnit>,
    i: int,
    j: int,
) -> (w: (int, int))
    requires
        lays_out(nodes, v, quads, offset, band, r),
        0 <= i < j < r.len(),
    ensures
        ({
            let us = units_of(nodes, v);
            &&& 0 <= w.0 < us.len() && 0 <= w.1 < us.len() && w.0 != w.1
            &&& us[w.0].0 == r[i].unit && us[w.1].0 == r[j].unit
            &&& us[w.0].1.value() >= us[w.1].1.value()
        }),
{
    let us = units_of(nodes, v);
    let p = choose|p: Seq<int>|
        {
            &&& #[trigger] order::ordered(unit_depths(us), true, p)
            &&& r.len() == us.len()
            &&& forall|i: int|
                0 <= i < r.len() ==> places_unit(
                    nodes,
                    v,
                    quads,
                    offset,
                    band,
                    us[p[i]].0,
                    i,
                    #[trigger] r[i],
                )
        };
    let ds = unit_depths(us);
    assert(order::ordered(ds, true, p));
    assert(0 <= p[i] < us.len() && 0 <= p[j] < us.len());
    assert(ds[p[i]] == us[p[i]].1 && ds[p[j]] == us[p[j]].1);
    (p[i], p[j])
}

/// Units lie one step apart above the base of the band. The numbers have few digits.
pub proof fn lemma_unit_is_placed(
    offset: Scalar,
    band: InxZBand,
    rank: int,
    o: int,
    b: int,
    step: int,
    s: nat,
)
    requires
        exact::stands_for(offset, o, s),
        exact::stands_for(band.base, b, s),
        exact::stands_for(band.step, step, s),
        0 <= rank <= 0x400,
        -0x400 <= o <= 0x400,
        -0x400 <= b <= 0x400,
        -0x400 <= step <= 0x400,
        s <= 252,
    ensures
        exact::stands_for(unit_z(offset, band, rank), o + b + rank * step, s),
{
    assert(-0x10_0000 <= rank * step <= 0x10_0000) by (nonlinear_arith)
        requires
            0 <= rank <= 0x400,
            -0x400 <= step <= 0x400,
    ;
    exact::lemma_integer(rank);
    exact::lemma_sum(offset, o, band.base, b, s);
    exact::lemma_product(arith::of_int(rank), rank, 149, band.step, step, s);
    exact::lemma_sum(
        offset.plus(band.base),
        o + b,
        arith::of_int(rank).times(band.step),
        rank * step,
        s,
    );
}

/// The parts of a group share half a step above the group: with a step of
/// `2 * (n + 1) * q` for `n` parts, the part at a place lies `place + 1` times `q`
/// above the group, and so below the next unit. The numbers have few digits.
pub proof fn lemma_part_is_placed(
    z: Scalar,
    band: InxZBand,
    n: int,
    place: int,
    b: int,
    q: int,
    s: nat,
)
    requires
        exact::stands_for(z, b, s),
        exact::stands_for(band.step, 2 * ((n + 1) * q), s),
        0 <= place < n <= 0x400,
        -0x10_0000 <= b <= 0x10_0000,
        0 < q <= 0x400,
        1 <= s <= 252,
    ensures
        exact::stands_for(
            part_z(z, spacing(band, n), place),
            b + (place + 1) * q,
            s,
        ),
        b < b + (place + 1) * q < b + 2 * ((n + 1) * q),
{
    let m = n + 1;
    let half = arith::num(arith::HALF);
    let one = arith::num(ONE);
    assert(0 < m * q <= 0x20_0000) by (nonlinear_arith)
        requires
            0 < m <= 0x401,
            0 < q <= 0x400,
    ;
    assert(0 < (place + 1) * q < m * q) by (nonlinear_arith)
        requires
            0 <= place,
            place + 1 < m,
            0 < q,
    ;
    exact::lemma_small();
    exact::lemma_integer(n);
    exact::lemma_integer(place);
    exact::lemma_product(band.step, 2 * (m * q), s, half, 1, 148);
    let h = band.step.times(half);
    exact::lemma_coarser(h, m * q, (s - 1) as nat);
    exact::lemma_sum(arith::of_int(n), n, one, 1, 149);
    assert(m * q == q * m) by (nonlinear_arith);
    exact::lemma_quotient(h, q, arith::of_int(n).plus(one), m, s, 149);
    exact::lemma_sum(arith::of_int(place), place, one, 1, 149);
    let gap = spacing(band, n);
    exact::lemma_product(arith::of_int(place).plus(one), place + 1, 149, gap, q, s);
    exact::lemma_sum(
        z,
        b,
        arith::of_int(place).plus(one).times(gap),
        (place + 1) * q,
        s,
    );
}

proof fn lemma_group_parts(nodes: Seq<ZNode>, v: Seq<(usize, Scalar)>, g: u64, k: nat, i: int)
    requires
        0 <= i < k <= v.len(),
    ensures
        nodes[v[i].0 as int].is_part && nodes[v[i].0 as int].tag == Some(g) ==> group_parts(
            nodes,
            v,
            g,
            k,
        ).contains((nodes[v[i].0 as int].entity, v[i].1)),
    decreases k,
{
    let before = group_parts(nodes, v, g, (k - 1) as nat);
    let now = group_parts(nodes, v, g, k);
    let x = (nodes[v[i].0 as int].entity, v[i].1);
    if nodes[v[i].0 as int].is_part && nodes[v[i].0 as int].tag == Some(g) {
        if i < k - 1 {
            lemma_group_parts(nodes, v, g, (k - 1) as nat, i);
            let at = before.index_of(x);
            assert(now[at] == x);
        } else {
            assert(now.last() == x);
        }
    }
}

proof fn lemma_lone_parts(nodes: Seq<ZNode>, v: Seq<(usize, Scalar)>, k: nat, i: int)
    requires
        0 <= i < k <= v.len(),
    ensures
        nodes[v[i].0 as int].is_part && group_of(nodes, v, nodes[v[i].0 as int]) is None
            ==> lone_parts(nodes, v, k).contains(
            (Unit::Part(nodes[v[i].0 as int].entity), v[i].1),
        ),
    decreases k,
{
    let before = lone_parts(nodes, v, (k - 1) as nat);
    let now = lone_parts(nodes, v, k);
    let x = (Unit::Part(nodes[v[i].0 as int].entity), v[i].1);
    if nodes[v[i].0 as int].is_part && group_of(nodes, v, nodes[v[i].0 as int]) is None {
        if i < k - 1 {
            lemma_lone_parts(nodes, v, (k - 1) as nat, i);
            let at = before.index_of(x);
            assert(now[at] == x);
        } else {
            assert(now.last() == x);
        }
    }
}

proof fn lemma_filled_groups(nodes: Seq<ZNode>, v: Seq<(usize, Scalar)>, k: nat, i: int)
    requires
        0 <= i < k <= v.len(),
    ensures
        nodes[v[i].0 as int].is_group && group_parts(
            nodes,
            v,
            nodes[v[i].0 as int].entity,
            v.len(),
        ).len() > 0 ==> filled_groups(nodes, v, k).contains(
            (Unit::Group(nodes[v[i].0 as int].entity), v[i].1),
        ),
    decreases k,
{
    let before = filled_groups(nodes, v, (k - 1) as nat);
    let now = filled_groups(nodes, v, k);
    let n = nodes[v[i].0 as int];
    let x = (Unit::Group(n.entity), v[i].1);
    if n.is_group && group_parts(nodes, v, n.entity, v.len()).len() > 0 {
        if i < k - 1 {
            lemma_filled_groups(nodes, v, (k - 1) as nat, i);
            let at = before.index_of(x);
            assert(now[at] == x);
        } else {
            assert(now.last() == x);
        }
    }
}

/// Every listed part is drawn, at its own depth: on its own, or with the parts of the
/// listed group that it is in. That group then has a place too, at its own depth.
pub proof fn lemma_every_part_is_drawn(
    nodes: Seq<ZNode>,
    v: Seq<(usize, Scalar)>,
    i: int,
    j: int,
)
    requires
        0 <= i < v.len(),
        0 <= j < v.len(),
        nodes[v[i].0 as int].is_part,
    ensures
        ({
            let n = nodes[v[i].0 as int];
            let g = nodes[v[j].0 as int];
            &&& n.tag is None ==> units_of(nodes, v).contains((Unit::Part(n.entity), v[i].1))
            &&& g.is_group && n.tag == Some(g.entity) ==> group_parts(
                nodes,
                v,
                g.entity,
                v.len(),
            ).contains((n.entity, v[i].1)) && units_of(nodes, v).contains(
                (Unit::Group(g.entity), v[j].1),
            )
        }),
{
    let n = nodes[v[i].0 as int];
    let g = nodes[v[j].0 as int];
    let (a, b) = (lone_parts(nodes, v, v.len()), filled_groups(nodes, v, v.len()));
    let us = units_of(nodes, v);
    if n.tag is None {
        lemma_lone_parts(nodes, v, v.len(), i);
        let at = a.index_of((Unit::Part(n.entity), v[i].1));
        assert(us[at] == (Unit::Part(n.entity), v[i].1));
    }
    if g.is_group && n.tag == Some(g.entity) {
        lemma_group_parts(nodes, v, g.entity, v.len(), i);
        let ps = group_parts(nodes, v, g.entity, v.len());
        assert(0 <= ps.index_of((n.entity, v[i].1)) < ps.len());
        lemma_filled_groups(nodes, v, v.len(), j);
        let at = b.index_of((Unit::Group(g.entity), v[j].1));
        assert(us[a.len() + at] == (Unit::Group(g.entity), v[j].1));
    }
}

} // verus!
