//! Bounding boxes of composite groups.

use crate::arith;
use crate::exact;
use crate::id_map;
use crate::rounding;
use crate::scalar;
use crate::scalar::{Scalar, INFINITY};
use crate::slots::Slots;
use vstd::prelude::*;

verus! {

/// The pattern of negative infinity.
pub const NEGATIVE_INFINITY: u32 = 0xff80_0000;

/// A rectangle by its corners.
#[derive(Debug, Clone, Copy)]
pub struct Rect {
    pub min: [Scalar; 2],
    pub max: [Scalar; 2],
}

/// The box of a group and the render target that it has been given.
#[derive(Debug, Clone, Copy)]
pub struct InxCompositeBbox {
    /// Box of the group's parts this frame.
    pub rect: Rect,
    /// Render target, where the group needs one.
    pub rt: Option<u64>,
    /// Side of the render target, in pixels.
    pub rt_side: u32,
}

/// A group, its padding, and the group that it is in.
#[derive(Debug, Clone, Copy)]
pub struct BoxedGroup {
    pub entity: u64,
    pub padding: Scalar,
    pub outer: Option<u64>,
}

/// The first number if it is smaller, else the second.
pub open spec fn lower(a: Scalar, b: Scalar) -> Scalar {
    if a.less(b) {
        a
    } else {
        b
    }
}

/// The first number if it is larger, else the second.
pub open spec fn upper(a: Scalar, b: Scalar) -> Scalar {
    if b.less(a) {
        a
    } else {
        b
    }
}

fn lower_of(a: Scalar, b: Scalar) -> (r: Scalar)
    ensures
        r == lower(a, b),
{
    if a.lt(b) {
        a
    } else {
        b
    }
}

fn upper_of(a: Scalar, b: Scalar) -> (r: Scalar)
    ensures
        r == upper(a, b),
{
    if b.lt(a) {
        a
    } else {
        b
    }
}

/// The rectangle of a group without parts.
pub open spec fn empty_rect() -> Rect {
    Rect { min: [arith::num(0), arith::num(0)], max: [arith::num(0), arith::num(0)] }
}

/// The rectangle that holds no point.
pub open spec fn nothing() -> Rect {
    let most = arith::num(INFINITY);
    let least = arith::num(NEGATIVE_INFINITY);
    Rect { min: [most, most], max: [least, least] }
}

/// The smallest rectangle around two.
pub open spec fn around(a: Rect, b: Rect) -> Rect {
    Rect {
        min: [lower(a.min[0], b.min[0]), lower(a.min[1], b.min[1])],
        max: [upper(a.max[0], b.max[0]), upper(a.max[1], b.max[1])],
    }
}

/// A rectangle with a margin.
pub open spec fn grown(a: Rect, pad: Scalar) -> Rect {
    Rect {
        min: [a.min[0].minus(pad), a.min[1].minus(pad)],
        max: [a.max[0].plus(pad), a.max[1].plus(pad)],
    }
}

/// Width and height.
pub open spec fn size_of_rect(a: Rect) -> [Scalar; 2] {
    [a.max[0].minus(a.min[0]), a.max[1].minus(a.min[1])]
}

/// The point in the middle.
pub open spec fn center_of(a: Rect) -> [Scalar; 2] {
    let half = arith::num(arith::HALF);
    [half.times(a.min[0].plus(a.max[0])), half.times(a.min[1].plus(a.max[1]))]
}

impl Rect {
    fn nowhere() -> (r: Rect)
        ensures
            r == nothing(),
    {
        let most = Scalar { bits: INFINITY };
        let least = Scalar { bits: NEGATIVE_INFINITY };
        Rect { min: [most, most], max: [least, least] }
    }

    /// The rectangle of a group without parts.
    pub fn empty() -> (r: Rect)
        ensures
            r == empty_rect(),
    {
        let zero = Scalar { bits: 0 };
        Rect { min: [zero, zero], max: [zero, zero] }
    }

    fn join(&self, b: &Rect) -> (r: Rect)
        ensures
            r == around(*self, *b),
    {
        Rect {
            min: [lower_of(self.min[0], b.min[0]), lower_of(self.min[1], b.min[1])],
            max: [upper_of(self.max[0], b.max[0]), upper_of(self.max[1], b.max[1])],
        }
    }

    fn grow(&self, pad: Scalar) -> (r: Rect)
        ensures
            r == grown(*self, pad),
    {
        Rect {
            min: [self.min[0].sub(pad), self.min[1].sub(pad)],
            max: [self.max[0].add(pad), self.max[1].add(pad)],
        }
    }

    /// Width and height.
    pub fn size(&self) -> (r: [Scalar; 2])
        ensures
            r == size_of_rect(*self),
    {
        [self.max[0].sub(self.min[0]), self.max[1].sub(self.min[1])]
    }
}

/// The rectangle around another and the first `k` points.
pub open spec fn enclosed(r: Rect, points: Seq<[Scalar; 2]>, k: nat) -> Rect
    decreases k,
{
    if k == 0 {
        r
    } else {
        around(
            enclosed(r, points, (k - 1) as nat),
            Rect { min: points[k - 1], max: points[k - 1] },
        )
    }
}

/// The boxes of the groups that the first `k` members are in.
pub open spec fn member_boxes(members: Seq<(u64, Vec<[Scalar; 2]>)>, k: nat) -> Map<u64, Rect>
    decreases k,
{
    if k == 0 {
        Map::empty()
    } else {
        let before = member_boxes(members, (k - 1) as nat);
        let (group, points) = members[k - 1];
        before.insert(group, enclosed(box_or_nothing(before, group), points@, points@.len()))
    }
}

pub open spec fn box_or_nothing(boxes: Map<u64, Rect>, group: u64) -> Rect {
    match id_map::found(boxes, group) {
        Some(r) => r,
        None => nothing(),
    }
}

/// One of the groups.
pub open spec fn is_group(groups: Seq<BoxedGroup>, e: u64) -> bool {
    exists|i: int| 0 <= i < groups.len() && (#[trigger] groups[i]).entity == e
}

/// A group in another group: the inner one, the outer one, and the padding of
/// the inner one.
pub type Nesting = (u64, u64, Scalar);

/// The nestings among the first `k` groups. A group in something that is no
/// group does not count.
pub open spec fn nestings(groups: Seq<BoxedGroup>, k: nat) -> Seq<Nesting>
    decreases k,
{
    if k == 0 {
        Seq::empty()
    } else {
        let before = nestings(groups, (k - 1) as nat);
        let g = groups[k - 1];
        match g.outer {
            Some(outer) => if is_group(groups, outer) {
                before.push((g.entity, outer, g.padding))
            } else {
                before
            },
            None => before,
        }
    }
}

/// The boxes after one nesting has been folded in: the padded box of the inner
/// group, if it has one, joins that of the outer.
pub open spec fn folded(boxes: Map<u64, Rect>, n: Nesting) -> Map<u64, Rect> {
    if boxes.dom().contains(n.0) && boxes[n.0].min[0].finite() {
        boxes.insert(n.1, around(box_or_nothing(boxes, n.1), grown(boxes[n.0], n.2)))
    } else {
        boxes
    }
}

/// Both rectangles are equal as numbers.
pub open spec fn same_rect(a: Rect, b: Rect) -> bool {
    a.min[0].same(b.min[0]) && a.min[1].same(b.min[1]) && a.max[0].same(b.max[0]) && a.max[1].same(
        b.max[1],
    )
}

/// Folding a nesting in changes the box of the outer group.
pub open spec fn changes(boxes: Map<u64, Rect>, n: Nesting) -> bool {
    boxes.dom().contains(n.0) && boxes[n.0].min[0].finite() && !same_rect(
        around(box_or_nothing(boxes, n.1), grown(boxes[n.0], n.2)),
        box_or_nothing(boxes, n.1),
    )
}

/// The boxes after the first `k` nestings have been folded in, and whether any
/// box changed.
pub open spec fn pass(boxes: Map<u64, Rect>, ns: Seq<Nesting>, k: nat) -> (Map<u64, Rect>, bool)
    decreases k,
{
    if k == 0 {
        (boxes, false)
    } else {
        let (before, changed) = pass(boxes, ns, (k - 1) as nat);
        (folded(before, ns[k - 1]), changed || changes(before, ns[k - 1]))
    }
}

/// The boxes after passes over all nestings, `rounds` of them or until one
/// changes nothing.
pub open spec fn relaxed(boxes: Map<u64, Rect>, ns: Seq<Nesting>, rounds: nat) -> Map<u64, Rect>
    decreases rounds,
{
    if rounds == 0 {
        boxes
    } else {
        let (next, changed) = pass(boxes, ns, ns.len());
        if changed {
            relaxed(next, ns, (rounds - 1) as nat)
        } else {
            next
        }
    }
}

pub open spec fn rounds_for(ns: Seq<Nesting>) -> nat {
    if ns.len() > 1 {
        ns.len()
    } else {
        1
    }
}

/// The boxes of all groups, without their own padding.
pub open spec fn group_boxes(
    groups: Seq<BoxedGroup>,
    members: Seq<(u64, Vec<[Scalar; 2]>)>,
) -> Map<u64, Rect> {
    let ns = nestings(groups, groups.len());
    relaxed(member_boxes(members, members.len()), ns, rounds_for(ns))
}

/// The padded box of a group, or the empty one where it has none.
pub open spec fn padded_box(boxes: Map<u64, Rect>, g: BoxedGroup) -> Rect {
    match id_map::found(boxes, g.entity) {
        Some(r) => if r.min[0].finite() && r.min[1].finite() {
            grown(r, g.padding)
        } else {
            empty_rect()
        },
        None => empty_rect(),
    }
}

fn enclose(r: &Rect, points: &Vec<[Scalar; 2]>) -> (out: Rect)
    ensures
        out == enclosed(*r, points@, points@.len()),
{
    let mut out = *r;
    let mut k: usize = 0;
    while k < points.len()
        invariant
            k <= points@.len(),
            out == enclosed(*r, points@, k as nat),
        decreases points@.len() - k,
    {
        let p = points[k];
        out = out.join(&Rect { min: p, max: p });
        k = k + 1;
    }
    out
}

fn contains_group(groups: &Vec<BoxedGroup>, e: u64) -> (r: bool)
    ensures
        r == is_group(groups@, e),
{
    let mut i: usize = 0;
    while i < groups.len()
        invariant
            i <= groups@.len(),
            forall|j: int| 0 <= j < i ==> (#[trigger] groups@[j]).entity != e,
        decreases groups@.len() - i,
    {
        if groups[i].entity == e {
            assert(groups@[i as int].entity == e);
            return true;
        }
        i = i + 1;
    }
    false
}

fn list_nestings(groups: &Vec<BoxedGroup>) -> (r: Vec<Nesting>)
    ensures
        r@ == nestings(groups@, groups@.len()),
{
    let mut r: Vec<Nesting> = Vec::new();
    let mut i: usize = 0;
    while i < groups.len()
        invariant
            i <= groups@.len(),
            r@ == nestings(groups@, i as nat),
        decreases groups@.len() - i,
    {
        let g = groups[i];
        if let Some(outer) = g.outer {
            if contains_group(groups, outer) {
                r.push((g.entity, outer, g.padding));
            }
        }
        i = i + 1;
    }
    r
}

fn equal_rects(a: &Rect, b: &Rect) -> (r: bool)
    ensures
        r == same_rect(*a, *b),
{
    a.min[0].num_eq(b.min[0]) && a.min[1].num_eq(b.min[1]) && a.max[0].num_eq(b.max[0])
        && a.max[1].num_eq(b.max[1])
}

/// Folds one nesting in and says whether the box of the outer group changed.
fn fold(boxes: &mut Slots<Rect>, n: &Nesting) -> (r: bool)
    requires
        old(boxes).wf(),
    ensures
        final(boxes).wf(),
        final(boxes)@ == folded(old(boxes)@, *n),
        r == changes(old(boxes)@, *n),
{
    let inner = match boxes.get(n.0) {
        Some(b) => *b,
        None => {
            return false;
        },
    };
    if !inner.min[0].is_finite() {
        return false;
    }
    let entry = match boxes.get(n.1) {
        Some(b) => *b,
        None => Rect::nowhere(),
    };
    let next = entry.join(&inner.grow(n.2));
    let changed = !equal_rects(&next, &entry);
    boxes.set(n.1, next);
    changed
}

/// Computes the padded box of every group from the points of its members and
/// from the groups inside it. `members` holds, for each part in a group, the
/// group and the points of the part in the world.
pub fn update_composite_bbox(
    groups: &Vec<BoxedGroup>,
    members: &Vec<(u64, Vec<[Scalar; 2]>)>,
) -> (r: Vec<Rect>)
    ensures
        r@.len() == groups@.len(),
        forall|i: int|
            0 <= i < groups@.len() ==> #[trigger] r@[i] == padded_box(
                group_boxes(groups@, members@),
                groups@[i],
            ),
{
    let mut boxes: Slots<Rect> = Slots::new();
    let mut m: usize = 0;
    while m < members.len()
        invariant
            boxes.wf(),
            m <= members@.len(),
            boxes@ == member_boxes(members@, m as nat),
        decreases members@.len() - m,
    {
        let (group, points) = &members[m];
        let entry = match boxes.get(*group) {
            Some(b) => *b,
            None => Rect::nowhere(),
        };
        boxes.set(*group, enclose(&entry, points));
        m = m + 1;
    }
    let ns = list_nestings(groups);
    let rounds: usize = if ns.len() > 1 {
        ns.len()
    } else {
        1
    };
    let ghost start = boxes@;
    let mut left: usize = rounds;
    let mut going = true;
    while left > 0 && going
        invariant
            boxes.wf(),
            left <= rounds,
            rounds == rounds_for(ns@),
            going ==> relaxed(start, ns@, rounds as nat) == relaxed(boxes@, ns@, left as nat),
            !going ==> relaxed(start, ns@, rounds as nat) == boxes@,
        decreases left,
    {
        let ghost before = boxes@;
        let mut changed = false;
        let mut k: usize = 0;
        while k < ns.len()
            invariant
                boxes.wf(),
                k <= ns@.len(),
                (boxes@, changed) == pass(before, ns@, k as nat),
            decreases ns@.len() - k,
        {
            if fold(&mut boxes, &ns[k]) {
                changed = true;
            }
            k = k + 1;
        }
        left = left - 1;
        going = changed;
    }
    let mut r: Vec<Rect> = Vec::new();
    let mut i: usize = 0;
    while i < groups.len()
        invariant
            boxes.wf(),
            boxes@ == group_boxes(groups@, members@),
            i <= groups@.len(),
            r@.len() == i,
            forall|j: int| 0 <= j < i ==> #[trigger] r@[j] == padded_box(boxes@, groups@[j]),
        decreases groups@.len() - i,
    {
        let g = groups[i];
        let rect = match boxes.get(g.entity) {
            Some(b) => if b.min[0].is_finite() && b.min[1].is_finite() {
                b.grow(g.padding)
            } else {
                Rect::empty()
            },
            None => Rect::empty(),
        };
        r.push(rect);
        i = i + 1;
    }
    r
}

/// All coordinates are numbers.
pub open spec fn numeric(r: Rect) -> bool {
    !r.min[0].nan() && !r.min[1].nan() && !r.max[0].nan() && !r.max[1].nan()
}

pub open spec fn all_numeric(boxes: Map<u64, Rect>) -> bool {
    forall|g: u64| #[trigger] boxes.dom().contains(g) ==> numeric(boxes[g])
}

/// `a` lies in `b`.
pub open spec fn within(a: Rect, b: Rect) -> bool {
    b.min[0].value() <= a.min[0].value() && b.min[1].value() <= a.min[1].value()
        && a.max[0].value() <= b.max[0].value() && a.max[1].value() <= b.max[1].value()
}

/// The padded box of the inner group lies in the box of the outer.
pub open spec fn contained(boxes: Map<u64, Rect>, n: Nesting) -> bool {
    boxes.dom().contains(n.0) && boxes[n.0].min[0].finite() ==> boxes.dom().contains(n.1)
        && within(grown(boxes[n.0], n.2), boxes[n.1])
}

proof fn lemma_grown(a: Rect, b: Rect, pad: Scalar)
    requires
        numeric(a),
        same_rect(a, b),
        pad.finite(),
    ensures
        numeric(grown(a, pad)),
        same_rect(grown(a, pad), grown(b, pad)),
{
    scalar::lemma_negated(pad);
    rounding::lemma_plus_is_number(a.min[0], pad.negated());
    rounding::lemma_plus_is_number(a.min[1], pad.negated());
    rounding::lemma_plus_is_number(a.max[0], pad);
    rounding::lemma_plus_is_number(a.max[1], pad);
    rounding::lemma_plus_same(a.min[0], b.min[0], pad.negated());
    rounding::lemma_plus_same(a.min[1], b.min[1], pad.negated());
    rounding::lemma_plus_same(a.max[0], b.max[0], pad);
    rounding::lemma_plus_same(a.max[1], b.max[1], pad);
}

proof fn lemma_around(a: Rect, b: Rect)
    requires
        numeric(a),
        numeric(b),
    ensures
        numeric(around(a, b)),
        within(a, around(a, b)),
        within(b, around(a, b)),
        within(b, a) ==> same_rect(around(a, b), a),
{
}

/// A fold keeps boxes numeric and never shrinks one.
proof fn lemma_fold_grows(boxes: Map<u64, Rect>, n: Nesting)
    requires
        all_numeric(boxes),
        n.2.finite(),
    ensures
        all_numeric(folded(boxes, n)),
        forall|g: u64| #[trigger]
            boxes.dom().contains(g) ==> folded(boxes, n).dom().contains(g) && within(
                boxes[g],
                folded(boxes, n)[g],
            ),
        contained(boxes, n) ==> forall|g: u64| #[trigger]
            folded(boxes, n).dom().contains(g) ==> boxes.dom().contains(g) && same_rect(
                boxes[g],
                folded(boxes, n)[g],
            ),
        n.0 != n.1 ==> contained(folded(boxes, n), n),
        !changes(boxes, n) ==> forall|g: u64| #[trigger]
            folded(boxes, n).dom().contains(g) ==> if boxes.dom().contains(g) {
                same_rect(boxes[g], folded(boxes, n)[g])
            } else {
                !folded(boxes, n)[g].min[0].finite()
            },
{
    let next = folded(boxes, n);
    if boxes.dom().contains(n.0) && boxes[n.0].min[0].finite() {
        let inner = boxes[n.0];
        let entry = box_or_nothing(boxes, n.1);
        lemma_grown(inner, inner, n.2);
        lemma_around(entry, grown(inner, n.2));
        scalar::lemma_value_order(next[n.1].min[0], nothing().min[0]);
        assert forall|g: u64| #[trigger] boxes.dom().contains(g) implies next.dom().contains(g)
            && within(boxes[g], next[g]) by {}
    }
}

/// A nesting stays contained while the box of the inner group keeps its numbers
/// and that of the outer does not shrink.
proof fn lemma_contained_stays(boxes: Map<u64, Rect>, next: Map<u64, Rect>, n: Nesting)
    requires
        contained(boxes, n),
        all_numeric(boxes),
        all_numeric(next),
        n.2.finite(),
        next.dom().contains(n.0) ==> if boxes.dom().contains(n.0) {
            same_rect(boxes[n.0], next[n.0])
        } else {
            !next[n.0].min[0].finite()
        },
        boxes.dom().contains(n.1) ==> next.dom().contains(n.1) && within(boxes[n.1], next[n.1]),
    ensures
        contained(next, n),
{
    if next.dom().contains(n.0) && next[n.0].min[0].finite() {
        let a = boxes[n.0].min[0];
        let b = next[n.0].min[0];
        scalar::lemma_value_order(a, b);
        assert(a.finite()) by {
            assert(a.rank_of() == b.rank_of());
        }
        lemma_grown(boxes[n.0], next[n.0], n.2);
    }
}

/// The nestings have finite paddings and go upwards: an inner group has a lower
/// rank than its outer.
pub open spec fn ranked(ns: Seq<Nesting>, rank: spec_fn(u64) -> nat) -> bool {
    forall|i: int|
        0 <= i < ns.len() ==> (#[trigger] ns[i]).2.finite() && rank(ns[i].0) < rank(ns[i].1)
            && rank(ns[i].1) <= ns.len()
}

/// After the first `k` folds of a pass, what was contained up to a rank still
/// is, and so is what these folds reach at the next rank.
proof fn lemma_pass_contains(
    boxes: Map<u64, Rect>,
    ns: Seq<Nesting>,
    rank: spec_fn(u64) -> nat,
    level: nat,
    k: nat,
)
    requires
        ranked(ns, rank),
        all_numeric(boxes),
        k <= ns.len(),
        forall|i: int|
            0 <= i < ns.len() && rank((#[trigger] ns[i]).1) <= level ==> contained(boxes, ns[i]),
    ensures
        all_numeric(pass(boxes, ns, k).0),
        forall|i: int|
            0 <= i < ns.len() && (rank((#[trigger] ns[i]).1) <= level || (rank(ns[i].1) == level + 1
                && i < k)) ==> contained(pass(boxes, ns, k).0, ns[i]),
    decreases k,
{
    if k > 0 {
        lemma_pass_contains(boxes, ns, rank, level, (k - 1) as nat);
        let before = pass(boxes, ns, (k - 1) as nat).0;
        let next = pass(boxes, ns, k).0;
        let n = ns[k - 1];
        lemma_fold_grows(before, n);
        assert forall|i: int|
            0 <= i < ns.len() && (rank((#[trigger] ns[i]).1) <= level || (rank(ns[i].1) == level + 1
                && i < k)) implies contained(next, ns[i]) by {
            let m = ns[i];
            if i == k - 1 {
            } else {
                assert(contained(before, m));
                assert(rank(m.0) < rank(m.1));
                if m.0 == n.1 {
                    assert(contained(before, n));
                }
                lemma_contained_stays(before, next, m);
            }
        }
    }
}

/// After folds that change nothing, all of them are contained.
proof fn lemma_still_pass_contains(
    boxes: Map<u64, Rect>,
    ns: Seq<Nesting>,
    rank: spec_fn(u64) -> nat,
    k: nat,
)
    requires
        ranked(ns, rank),
        all_numeric(boxes),
        k <= ns.len(),
        !pass(boxes, ns, k).1,
    ensures
        all_numeric(pass(boxes, ns, k).0),
        forall|i: int| 0 <= i < k ==> contained(pass(boxes, ns, k).0, #[trigger] ns[i]),
    decreases k,
{
    if k > 0 {
        lemma_still_pass_contains(boxes, ns, rank, (k - 1) as nat);
        let before = pass(boxes, ns, (k - 1) as nat).0;
        let next = pass(boxes, ns, k).0;
        let n = ns[k - 1];
        lemma_fold_grows(before, n);
        assert forall|i: int| 0 <= i < k implies contained(next, #[trigger] ns[i]) by {
            let m = ns[i];
            assert(rank(m.0) < rank(m.1));
            if i < k - 1 {
                lemma_contained_stays(before, next, m);
            }
        }
    }
}

proof fn lemma_rounds_contain(
    boxes: Map<u64, Rect>,
    ns: Seq<Nesting>,
    rank: spec_fn(u64) -> nat,
    level: nat,
    rounds: nat,
)
    requires
        ranked(ns, rank),
        all_numeric(boxes),
        level + rounds >= ns.len(),
        forall|i: int|
            0 <= i < ns.len() && rank((#[trigger] ns[i]).1) <= level ==> contained(boxes, ns[i]),
    ensures
        forall|i: int|
            0 <= i < ns.len() ==> contained(relaxed(boxes, ns, rounds), #[trigger] ns[i]),
    decreases rounds,
{
    if rounds > 0 {
        let (next, changed) = pass(boxes, ns, ns.len());
        if changed {
            lemma_pass_contains(boxes, ns, rank, level, ns.len());
            lemma_rounds_contain(next, ns, rank, level + 1, (rounds - 1) as nat);
        } else {
            lemma_still_pass_contains(boxes, ns, rank, ns.len());
        }
    }
}

proof fn lemma_enclosed_numeric(r: Rect, points: Seq<[Scalar; 2]>, k: nat)
    requires
        numeric(r),
        k <= points.len(),
        forall|i: int|
            0 <= i < points.len() ==> !(#[trigger] points[i])[0].nan() && !points[i][1].nan(),
    ensures
        numeric(enclosed(r, points, k)),
        within(r, enclosed(r, points, k)),
        forall|i: int|
            0 <= i < k ==> within(
                (Rect { min: #[trigger] points[i], max: points[i] }),
                enclosed(r, points, k),
            ),
    decreases k,
{
    if k > 0 {
        lemma_enclosed_numeric(r, points, (k - 1) as nat);
        let p = points[k - 1];
        lemma_around(enclosed(r, points, (k - 1) as nat), Rect { min: p, max: p });
    }
}

/// The points of all members are numbers.
pub open spec fn points_numeric(members: Seq<(u64, Vec<[Scalar; 2]>)>) -> bool {
    forall|m: int, i: int|
        #![trigger members[m].1@[i]]
        0 <= m < members.len() && 0 <= i < members[m].1@.len() ==> !members[m].1@[i][0].nan()
            && !members[m].1@[i][1].nan()
}

/// A point of a member lies in the box of its group.
pub open spec fn point_held(
    members: Seq<(u64, Vec<[Scalar; 2]>)>,
    boxes: Map<u64, Rect>,
    m: int,
    i: int,
) -> bool {
    let p = members[m].1@[i];
    boxes.dom().contains(members[m].0) && within((Rect { min: p, max: p }), boxes[members[m].0])
}

proof fn lemma_member_boxes(members: Seq<(u64, Vec<[Scalar; 2]>)>, k: nat)
    requires
        points_numeric(members),
        k <= members.len(),
    ensures
        all_numeric(member_boxes(members, k)),
        forall|m: int, i: int|
            0 <= m < k && 0 <= i < members[m].1@.len() ==> #[trigger] point_held(
                members,
                member_boxes(members, k),
                m,
                i,
            ),
    decreases k,
{
    if k > 0 {
        lemma_member_boxes(members, (k - 1) as nat);
        let before = member_boxes(members, (k - 1) as nat);
        let (group, points) = members[k - 1];
        let entry = box_or_nothing(before, group);
        assert forall|i: int| 0 <= i < points@.len() implies !(#[trigger] points@[i])[0].nan()
            && !points@[i][1].nan() by {
            assert(!members[k - 1].1@[i][0].nan());
        }
        lemma_enclosed_numeric(entry, points@, points@.len());
        let now = member_boxes(members, k);
        assert forall|m: int, i: int|
            0 <= m < k && 0 <= i < members[m].1@.len() implies #[trigger] point_held(
            members,
            now,
            m,
            i,
        ) by {
            let p = Rect { min: members[m].1@[i], max: members[m].1@[i] };
            if m == k - 1 {
                assert(members[m].1@[i] == points@[i]);
                assert(within((Rect { min: points@[i], max: points@[i] }), now[group]));
            } else {
                assert(point_held(members, before, m, i));
                if members[m].0 == group {
                    assert(within(entry, now[group]));
                }
            }
        }
    }
}

/// The box of an outer group holds the padded boxes of the groups inside it,
/// however deep they are nested.
pub proof fn lemma_nested_box_contained(
    groups: Seq<BoxedGroup>,
    members: Seq<(u64, Vec<[Scalar; 2]>)>,
    rank: spec_fn(u64) -> nat,
    i: int,
)
    requires
        points_numeric(members),
        ranked(nestings(groups, groups.len()), rank),
        0 <= i < nestings(groups, groups.len()).len(),
    ensures
        contained(group_boxes(groups, members), nestings(groups, groups.len())[i]),
{
    let ns = nestings(groups, groups.len());
    lemma_member_boxes(members, members.len());
    assert forall|j: int|
        0 <= j < ns.len() && rank((#[trigger] ns[j]).1) <= 0 implies contained(
        member_boxes(members, members.len()),
        ns[j],
    ) by {
        assert(rank(ns[j].0) < rank(ns[j].1));
    }
    lemma_rounds_contain(member_boxes(members, members.len()), ns, rank, 0, rounds_for(ns));
}

proof fn lemma_pass_grows(boxes: Map<u64, Rect>, ns: Seq<Nesting>, k: nat)
    requires
        all_numeric(boxes),
        k <= ns.len(),
        forall|i: int| 0 <= i < ns.len() ==> (#[trigger] ns[i]).2.finite(),
    ensures
        all_numeric(pass(boxes, ns, k).0),
        forall|g: u64| #[trigger]
            boxes.dom().contains(g) ==> pass(boxes, ns, k).0.dom().contains(g) && within(
                boxes[g],
                pass(boxes, ns, k).0[g],
            ),
    decreases k,
{
    if k > 0 {
        lemma_pass_grows(boxes, ns, (k - 1) as nat);
        lemma_fold_grows(pass(boxes, ns, (k - 1) as nat).0, ns[k - 1]);
    }
}

proof fn lemma_relaxed_grows(boxes: Map<u64, Rect>, ns: Seq<Nesting>, rounds: nat)
    requires
        all_numeric(boxes),
        forall|i: int| 0 <= i < ns.len() ==> (#[trigger] ns[i]).2.finite(),
    ensures
        forall|g: u64| #[trigger]
            boxes.dom().contains(g) ==> relaxed(boxes, ns, rounds).dom().contains(g) && within(
                boxes[g],
                relaxed(boxes, ns, rounds)[g],
            ),
    decreases rounds,
{
    if rounds > 0 {
        let (next, changed) = pass(boxes, ns, ns.len());
        lemma_pass_grows(boxes, ns, ns.len());
        if changed {
            lemma_relaxed_grows(next, ns, (rounds - 1) as nat);
        }
    }
}

/// The box of a group holds every point of its members.
pub proof fn lemma_box_holds_members(
    groups: Seq<BoxedGroup>,
    members: Seq<(u64, Vec<[Scalar; 2]>)>,
    m: int,
    i: int,
)
    requires
        points_numeric(members),
        forall|j: int|
            0 <= j < nestings(groups, groups.len()).len() ==> (#[trigger] nestings(
                groups,
                groups.len(),
            )[j]).2.finite(),
        0 <= m < members.len(),
        0 <= i < members[m].1@.len(),
    ensures
        point_held(members, group_boxes(groups, members), m, i),
{
    let ns = nestings(groups, groups.len());
    let boxes = member_boxes(members, members.len());
    lemma_member_boxes(members, members.len());
    lemma_relaxed_grows(boxes, ns, rounds_for(ns));
    assert(point_held(members, boxes, m, i));
}

/// A margin moves each side of a box outwards, and the size of a box is from its lower
/// sides to its upper ones. The numbers have few digits: `a` and `b` are the sides along
/// one axis, `p` is the margin.
pub proof fn lemma_margin_is_outside(
    r: Rect,
    pad: Scalar,
    j: int,
    a: int,
    b: int,
    p: int,
    s: nat,
)
    requires
        0 <= j < 2,
        exact::stands_for(r.min[j], a, s),
        exact::stands_for(r.max[j], b, s),
        exact::stands_for(pad, p, s),
        -0x10_0000 <= a <= 0x10_0000,
        -0x10_0000 <= b <= 0x10_0000,
        -0x10_0000 <= p <= 0x10_0000,
        s <= 252,
    ensures
        exact::stands_for(grown(r, pad).min[j], a - p, s),
        exact::stands_for(grown(r, pad).max[j], b + p, s),
        exact::stands_for(size_of_rect(r)[j], b - a, s),
{
    exact::lemma_difference(r.min[j], a, pad, p, s);
    exact::lemma_sum(r.max[j], b, pad, p, s);
    exact::lemma_difference(r.max[j], b, r.min[j], a, s);
}

/// A number is a coordinate of a point of one of the first `k` members in a group.
pub open spec fn touched(
    members: Seq<(u64, Vec<[Scalar; 2]>)>,
    k: int,
    group: u64,
    j: int,
    x: Scalar,
) -> bool {
    exists|m: int, i: int|
        0 <= m < k && members[m].0 == group && 0 <= i < members[m].1@.len() && (
        #[trigger] members[m].1@[i])[j] == x
}

proof fn lemma_enclosed_tight(r: Rect, points: Seq<[Scalar; 2]>, k: nat, j: int)
    requires
        k <= points.len(),
        0 <= j < 2,
    ensures
        ({
            let e = enclosed(r, points, k);
            &&& e.min[j] == r.min[j] || exists|i: int|
                0 <= i < k && (#[trigger] points[i])[j] == e.min[j]
            &&& e.max[j] == r.max[j] || exists|i: int|
                0 <= i < k && (#[trigger] points[i])[j] == e.max[j]
        }),
    decreases k,
{
    if k > 0 {
        lemma_enclosed_tight(r, points, (k - 1) as nat, j);
        let e = enclosed(r, points, k);
        let p = points[k - 1];
        assert(p[j] == e.min[j] || enclosed(r, points, (k - 1) as nat).min[j] == e.min[j]);
        assert(p[j] == e.max[j] || enclosed(r, points, (k - 1) as nat).max[j] == e.max[j]);
    }
}

/// A box is no larger than it has to be: each of its sides runs through a point of a
/// member of the group, unless no point has moved it from infinity.
pub proof fn lemma_box_is_tight(
    members: Seq<(u64, Vec<[Scalar; 2]>)>,
    k: nat,
    group: u64,
    j: int,
)
    requires
        k <= members.len(),
        0 <= j < 2,
        member_boxes(members, k).dom().contains(group),
    ensures
        ({
            let r = member_boxes(members, k)[group];
            &&& r.min[j] == arith::num(INFINITY) || touched(members, k as int, group, j, r.min[j])
            &&& r.max[j] == arith::num(NEGATIVE_INFINITY) || touched(
                members,
                k as int,
                group,
                j,
                r.max[j],
            )
        }),
    decreases k,
{
    if k > 0 {
        let before = member_boxes(members, (k - 1) as nat);
        let (g, points) = members[k - 1];
        let r = member_boxes(members, k)[group];
        if before.dom().contains(group) {
            lemma_box_is_tight(members, (k - 1) as nat, group, j);
            let b = before[group];
            if touched(members, k - 1, group, j, b.min[j]) {
                let (m, i) = choose|m: int, i: int|
                    0 <= m < k - 1 && members[m].0 == group && 0 <= i < members[m].1@.len() && (
                    #[trigger] members[m].1@[i])[j] == b.min[j];
                assert(members[m].1@[i][j] == b.min[j]);
                assert(touched(members, k as int, group, j, b.min[j]));
            }
            if touched(members, k - 1, group, j, b.max[j]) {
                let (m, i) = choose|m: int, i: int|
                    0 <= m < k - 1 && members[m].0 == group && 0 <= i < members[m].1@.len() && (
                    #[trigger] members[m].1@[i])[j] == b.max[j];
                assert(members[m].1@[i][j] == b.max[j]);
                assert(touched(members, k as int, group, j, b.max[j]));
            }
        }
        if g == group {
            let entry = box_or_nothing(before, group);
            lemma_enclosed_tight(entry, points@, points@.len(), j);
            if exists|i: int| 0 <= i < points@.len() && (#[trigger] points@[i])[j] == r.min[j] {
                let i = choose|i: int|
                    0 <= i < points@.len() && (#[trigger] points@[i])[j] == r.min[j];
                assert(members[k - 1].1@[i][j] == r.min[j]);
            }
            if exists|i: int| 0 <= i < points@.len() && (#[trigger] points@[i])[j] == r.max[j] {
                let i = choose|i: int|
                    0 <= i < points@.len() && (#[trigger] points@[i])[j] == r.max[j];
                assert(members[k - 1].1@[i][j] == r.max[j]);
            }
        }
    }
}

/// The center of a box lies halfway between its sides: `a` and `b` are the sides along
/// one axis, with few digits.
pub proof fn lemma_center_is_halfway(r: Rect, j: int, a: int, b: int, s: nat)
    requires
        0 <= j < 2,
        exact::stands_for(r.min[j], a, s),
        exact::stands_for(r.max[j], b, s),
        -0x10_0000 <= a <= 0x10_0000,
        -0x10_0000 <= b <= 0x10_0000,
        1 <= s <= 252,
    ensures
        exact::stands_for(center_of(r)[j], a + b, (s - 1) as nat),
{
    exact::lemma_small();
    exact::lemma_sum(r.min[j], a, r.max[j], b, s);
    exact::lemma_product(arith::num(arith::HALF), 1, 148, r.min[j].plus(r.max[j]), a + b, s);
}

} // verus!
