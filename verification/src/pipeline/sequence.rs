//! Sorting the collected units and writing them out as commands.

use crate::order;
use crate::pipeline::extract;
use crate::pipeline::extract::{InxPartData, MaskHeader, RenderOrder, SortUnit, SortableNode};
use vstd::prelude::*;

verus! {

/// Every depth is a number, on all levels.
pub open spec fn comparable(units: Seq<SortUnit>) -> bool
    decreases units,
{
    forall|i: int|
        0 <= i < units.len() ==> {
            &&& !(#[trigger] units[i]).depth().nan()
            &&& match units[i] {
                SortUnit::Part { .. } => true,
                SortUnit::Composite { children, .. } => comparable(children),
            }
        }
}

/// Unit `a` is drawn before unit `b`: it lies further back, or as far and comes
/// first.
pub open spec fn drawn_before(units: Seq<SortUnit>, a: int, b: int) -> bool {
    ||| units[a].depth().value() > units[b].depth().value()
    ||| units[a].depth().value() == units[b].depth().value() && a < b
}

/// `p` puts the units in draw order.
pub open spec fn back_to_front(units: Seq<SortUnit>, p: Seq<int>) -> bool {
    forall|i: int, j: int|
        #![trigger p[i], p[j]]
        0 <= i < j < p.len() ==> drawn_before(units, p[i], p[j])
}

/// `after` is `before` in draw order, on all levels.
pub open spec fn sorts_to(before: Seq<SortUnit>, after: Seq<SortUnit>) -> bool
    decreases before,
{
    exists|p: Seq<int>|
        {
            &&& #[trigger] order::permutes(p, before.len())
            &&& back_to_front(before, p)
            &&& after.len() == before.len()
            &&& forall|k: int|
                0 <= k < after.len() && 0 <= p[k] < before.len() ==> unit_sorts_to(
                    before[p[k]],
                    #[trigger] after[k],
                )
        }
}

/// A part stays as it is; a composite keeps its header and sorts inside.
pub open spec fn unit_sorts_to(before: SortUnit, after: SortUnit) -> bool
    decreases before,
{
    match (before, after) {
        (SortUnit::Part { .. }, SortUnit::Part { .. }) => before == after,
        (
            SortUnit::Composite { header: h, children: c, zsort: z },
            SortUnit::Composite { header: i, children: d, zsort: y },
        ) => h == i && z == y && sorts_to(c, d),
        _ => false,
    }
}

/// Sorts each level back to front. Units of one depth keep their order.
pub fn sort_nodes(nodes: Vec<SortableNode>) -> (r: Vec<SortableNode>)
    requires
        comparable(extract::units_of(nodes@)),
    ensures
        sorts_to(extract::units_of(nodes@), extract::units_of(r@)),
    decreases nodes@,
{
    let ghost all = nodes@;
    let ghost units = extract::units_of(nodes@);
    let mut rest = nodes;
    let mut sorted: Vec<SortableNode> = Vec::new();
    let ghost mut p: Seq<int> = Seq::empty();
    while rest.len() > 0
        invariant
            all == nodes@,
            units == extract::units_of(all),
            comparable(units),
            rest@ == all.take(rest@.len() as int),
            rest@.len() <= all.len(),
            p.len() == sorted@.len(),
            p.len() == all.len() - rest@.len(),
            forall|i: int| 0 <= i < p.len() ==> rest@.len() <= #[trigger] p[i] < all.len(),
            forall|i: int, j: int| 0 <= i < j < p.len() ==> p[i] != p[j],
            back_to_front(units, p),
            forall|k: int|
                0 <= k < p.len() ==> unit_sorts_to(
                    units[p[k]],
                    extract::unit_of(#[trigger] sorted@[k]),
                ),
        decreases rest@.len(),
    {
        let ghost n = rest@.len() - 1;
        let node = rest.pop().unwrap();
        assert(node == all[n]);
        assert(units[n] == extract::unit_of(node));
        assert(!units[n].depth().nan());
        let node = match node {
            SortableNode::Part { data, masks, zsort } => SortableNode::Part { data, masks, zsort },
            SortableNode::Composite { header, children, zsort } => {
                assert(decreases_to!(all => all[n]));
                assert(decreases_to!(all[n] => children@));
                let children = sort_nodes(children);
                SortableNode::Composite { header, children, zsort }
            },
        };
        assert(unit_sorts_to(units[n], extract::unit_of(node)));
        let depth = node.zsort();
        let mut j: usize = 0;
        while j < sorted.len() && depth.lt(sorted[j].zsort())
            invariant
                0 <= j <= sorted@.len(),
                p.len() == sorted@.len(),
                0 <= n < units.len(),
                depth == units[n].depth(),
                !depth.nan(),
                comparable(units),
                forall|i: int| 0 <= i < p.len() ==> n < #[trigger] p[i] < units.len(),
                forall|k: int|
                    0 <= k < p.len() ==> unit_sorts_to(
                        units[p[k]],
                        extract::unit_of(#[trigger] sorted@[k]),
                    ),
                forall|i: int|
                    0 <= i < j ==> units[#[trigger] p[i]].depth().value() > depth.value(),
            ensures
                j < sorted@.len() ==> units[p[j as int]].depth().value() <= depth.value(),
            decreases sorted@.len() - j,
        {
            assert(units[p[j as int]].depth() == extract::unit_of(sorted@[j as int]).depth());
            j = j + 1;
        }
        proof {
            if j < sorted@.len() {
                assert(units[p[j as int]].depth() == extract::unit_of(sorted@[j as int]).depth());
                assert(!units[p[j as int]].depth().nan());
                assert(units[p[j as int]].depth().value() <= depth.value());
            }
        }
        let ghost q = p.insert(j as int, n);
        proof {
            assert forall|a: int, b: int|
                #![trigger q[a], q[b]]
                0 <= a < b < q.len() implies drawn_before(units, q[a], q[b]) by {
                if b == j {
                    assert(q[a] == p[a]);
                } else if a == j {
                    assert(q[b] == p[b - 1]);
                    if b - 1 > j {
                        assert(drawn_before(units, p[j as int], p[b - 1]));
                    }
                } else {
                    let a0 = if a < j {
                        a
                    } else {
                        a - 1
                    };
                    let b0 = if b < j {
                        b
                    } else {
                        b - 1
                    };
                    assert(q[a] == p[a0] && q[b] == p[b0]);
                }
            }
        }
        let ghost was = sorted@;
        sorted.insert(j, node);
        proof {
            assert forall|k: int| 0 <= k < q.len() implies unit_sorts_to(
                units[q[k]],
                extract::unit_of(#[trigger] sorted@[k]),
            ) by {
                if k < j {
                    assert(sorted@[k] == was[k]);
                } else if k > j {
                    assert(sorted@[k] == was[k - 1]);
                }
            }
            p = q;
        }
    }
    proof {
        assert(order::permutes(p, units.len()));
        let after = extract::units_of(sorted@);
        assert forall|k: int| 0 <= k < after.len() && 0 <= p[k] < units.len() implies unit_sorts_to(
            units[p[k]],
            #[trigger] after[k],
        ) by {
            assert(unit_sorts_to(units[p[k]], extract::unit_of(sorted@[k])));
        }
    }
    sorted
}

/// The commands of one unit: a part between its masks, or a composite around
/// its children.
pub open spec fn unit_commands(unit: SortUnit) -> Seq<RenderOrder>
    decreases unit,
{
    match unit {
        SortUnit::Part { data, masks, .. } => masks.map_values(
            |m: MaskHeader| RenderOrder::PushMask(m),
        ) + seq![RenderOrder::DrawPart(data)] + Seq::new(
            masks.len(),
            |i: int| RenderOrder::PopMask,
        ),
        SortUnit::Composite { header, children, .. } => seq![RenderOrder::BeginComposite(header)]
            + commands_of(children) + seq![RenderOrder::EndComposite],
    }
}

/// The commands of all units, in order.
pub open spec fn commands_of(units: Seq<SortUnit>) -> Seq<RenderOrder>
    decreases units,
{
    if units.len() == 0 {
        Seq::empty()
    } else {
        unit_commands(units[0]) + commands_of(units.drop_first())
    }
}

fn reversed(nodes: Vec<SortableNode>) -> (r: Vec<SortableNode>)
    ensures
        r@ == nodes@.reverse(),
{
    let mut rest = nodes;
    let mut r: Vec<SortableNode> = Vec::new();
    while rest.len() > 0
        invariant
            rest@.len() <= nodes@.len(),
            rest@ == nodes@.take(rest@.len() as int),
            r@.len() == nodes@.len() - rest@.len(),
            forall|i: int| 0 <= i < r@.len() ==> r@[i] == nodes@[nodes@.len() - 1 - i],
        decreases rest@.len(),
    {
        let node = rest.pop().unwrap();
        r.push(node);
    }
    assert(r@ =~= nodes@.reverse());
    r
}

/// Appends the commands of the units.
pub fn flatten_to_commands(nodes: Vec<SortableNode>, commands: &mut Vec<RenderOrder>)
    ensures
        final(commands)@ == old(commands)@ + commands_of(extract::units_of(nodes@)),
    decreases nodes@,
{
    let ghost base = commands@;
    let ghost all = nodes@;
    let ghost units = extract::units_of(nodes@);
    let mut rest = reversed(nodes);
    let ghost mut k: int = 0;
    assert(units.skip(0) =~= units);
    while rest.len() > 0
        invariant
            all == nodes@,
            units == extract::units_of(all),
            0 <= k <= all.len(),
            rest@.len() == all.len() - k,
            forall|i: int| 0 <= i < rest@.len() ==> rest@[i] == all[all.len() - 1 - i],
            base + commands_of(units) == commands@ + commands_of(units.skip(k)),
        decreases rest@.len(),
    {
        let node = rest.pop().unwrap();
        assert(node == all[k]);
        assert(units[k] == extract::unit_of(node));
        let ghost before = commands@;
        match node {
            SortableNode::Part { data, masks, zsort } => {
                let mut i: usize = 0;
                let pushes = Ghost(masks@.map_values(|m: MaskHeader| RenderOrder::PushMask(m)));
                while i < masks.len()
                    invariant
                        i <= masks@.len(),
                        pushes@ == masks@.map_values(|m: MaskHeader| RenderOrder::PushMask(m)),
                        commands@ == before + pushes@.take(i as int),
                    decreases masks@.len() - i,
                {
                    commands.push(RenderOrder::PushMask(masks[i].clone()));
                    i = i + 1;
                    assert(commands@ =~= before + pushes@.take(i as int));
                }
                assert(pushes@.take(i as int) =~= pushes@);
                commands.push(RenderOrder::DrawPart(data));
                let ghost drawn = commands@;
                let mut i: usize = 0;
                while i < masks.len()
                    invariant
                        i <= masks@.len(),
                        commands@ == drawn + Seq::new(i as nat, |i: int| RenderOrder::PopMask),
                    decreases masks@.len() - i,
                {
                    commands.push(RenderOrder::PopMask);
                    i = i + 1;
                    assert(commands@ =~= drawn + Seq::new(
                        i as nat,
                        |i: int| RenderOrder::PopMask,
                    ));
                }
                assert(commands@ =~= before + unit_commands(units[k]));
            },
            SortableNode::Composite { header, children, zsort } => {
                assert(decreases_to!(all => all[k]));
                assert(decreases_to!(all[k] => children@));
                let ghost inner = extract::units_of(children@);
                commands.push(RenderOrder::BeginComposite(header));
                flatten_to_commands(children, commands);
                commands.push(RenderOrder::EndComposite);
                assert(commands@ =~= before + unit_commands(units[k]));
            },
        }
        proof {
            assert(units.skip(k).drop_first() =~= units.skip(k + 1));
            assert(before + commands_of(units.skip(k)) =~= commands@ + commands_of(
                units.skip(k + 1),
            ));
            k = k + 1;
        }
    }
    proof {
        assert(commands_of(units.skip(k)) =~= Seq::empty());
        assert(commands@ =~= base + commands_of(units));
    }
}

/// What is open after the commands, where `open` was open before: `true` for a
/// composite, `false` for a mask. `None` if a command closes what is not the
/// innermost.
pub open spec fn opened(commands: Seq<RenderOrder>, open: Seq<bool>) -> Option<Seq<bool>>
    decreases commands.len(),
{
    if commands.len() == 0 {
        Some(open)
    } else {
        let rest = commands.drop_first();
        match commands[0] {
            RenderOrder::DrawPart(_) => opened(rest, open),
            RenderOrder::BeginComposite(_) => opened(rest, open.push(true)),
            RenderOrder::PushMask(_) => opened(rest, open.push(false)),
            RenderOrder::EndComposite => if open.len() > 0 && open.last() {
                opened(rest, open.drop_last())
            } else {
                None
            },
            RenderOrder::PopMask => if open.len() > 0 && !open.last() {
                opened(rest, open.drop_last())
            } else {
                None
            },
        }
    }
}

/// What is open after two command lists.
pub proof fn lemma_opened_concat(a: Seq<RenderOrder>, b: Seq<RenderOrder>, open: Seq<bool>)
    ensures
        opened(a + b, open) == (match opened(a, open) {
            Some(mid) => opened(b, mid),
            None => None,
        }),
    decreases a.len(),
{
    if a.len() == 0 {
        assert(a + b =~= b);
    } else {
        let next = match a[0] {
            RenderOrder::DrawPart(_) => open,
            RenderOrder::BeginComposite(_) => open.push(true),
            RenderOrder::PushMask(_) => open.push(false),
            _ => open.drop_last(),
        };
        assert((a + b)[0] == a[0]);
        assert((a + b).drop_first() =~= a.drop_first() + b);
        lemma_opened_concat(a.drop_first(), b, next);
    }
}

proof fn lemma_pushes_open(masks: Seq<MaskHeader>, open: Seq<bool>)
    ensures
        opened(masks.map_values(|m: MaskHeader| RenderOrder::PushMask(m)), open) == Some(
            open + Seq::new(masks.len(), |i: int| false),
        ),
    decreases masks.len(),
{
    let cs = masks.map_values(|m: MaskHeader| RenderOrder::PushMask(m));
    if masks.len() == 0 {
        assert(open + Seq::new(masks.len(), |i: int| false) =~= open);
    } else {
        assert(cs.drop_first() =~= masks.drop_first().map_values(
            |m: MaskHeader| RenderOrder::PushMask(m),
        ));
        lemma_pushes_open(masks.drop_first(), open.push(false));
        assert(open.push(false) + Seq::new(masks.drop_first().len(), |i: int| false) =~= open
            + Seq::new(masks.len(), |i: int| false));
    }
}

proof fn lemma_pops_close(n: nat, open: Seq<bool>)
    ensures
        opened(
            Seq::new(n, |i: int| RenderOrder::PopMask),
            open + Seq::new(n, |i: int| false),
        ) == Some(open),
    decreases n,
{
    let cs = Seq::new(n, |i: int| RenderOrder::PopMask);
    let all = open + Seq::new(n, |i: int| false);
    if n == 0 {
        assert(all =~= open);
    } else {
        let fewer = Seq::new((n - 1) as nat, |i: int| RenderOrder::PopMask);
        assert(cs.drop_first() =~= fewer);
        assert(all.drop_last() =~= open + Seq::new((n - 1) as nat, |i: int| false));
        assert(!all.last());
        assert(cs[0] == RenderOrder::PopMask);
        lemma_pops_close((n - 1) as nat, open);
    }
}

proof fn lemma_unit_balanced(unit: SortUnit, open: Seq<bool>)
    ensures
        opened(unit_commands(unit), open) == Some(open),
    decreases unit,
{
    match unit {
        SortUnit::Part { data, masks, .. } => {
            let pushes = masks.map_values(|m: MaskHeader| RenderOrder::PushMask(m));
            let draw = seq![RenderOrder::DrawPart(data)];
            let pops = Seq::new(masks.len(), |i: int| RenderOrder::PopMask);
            let deep = open + Seq::new(masks.len(), |i: int| false);
            lemma_opened_concat(pushes + draw, pops, open);
            lemma_opened_concat(pushes, draw, open);
            lemma_pushes_open(masks, open);
            assert(draw.drop_first() =~= Seq::empty());
            assert(opened(draw.drop_first(), deep) == Some(deep));
            lemma_pops_close(masks.len(), open);
        },
        SortUnit::Composite { header, children, .. } => {
            let begin = seq![RenderOrder::BeginComposite(header)];
            let end = seq![RenderOrder::EndComposite];
            lemma_opened_concat(begin + commands_of(children), end, open);
            lemma_opened_concat(begin, commands_of(children), open);
            assert(begin.drop_first() =~= Seq::empty());
            assert(end.drop_first() =~= Seq::empty());
            assert(opened(begin.drop_first(), open.push(true)) == Some(open.push(true)));
            lemma_commands_balanced(children, open.push(true));
            assert(open.push(true).drop_last() =~= open);
            assert(opened(end.drop_first(), open) == Some(open));
        },
    }
}

/// The commands of a puppet close every composite and every mask that they
/// open, innermost first.
pub proof fn lemma_commands_balanced(units: Seq<SortUnit>, open: Seq<bool>)
    ensures
        opened(commands_of(units), open) == Some(open),
    decreases units,
{
    if units.len() > 0 {
        lemma_opened_concat(unit_commands(units[0]), commands_of(units.drop_first()), open);
        lemma_unit_balanced(units[0], open);
        lemma_commands_balanced(units.drop_first(), open);
    }
}

/// How often a part occurs in a unit.
pub open spec fn unit_count(unit: SortUnit, part: InxPartData) -> nat
    decreases unit,
{
    match unit {
        SortUnit::Part { data, .. } => if data == part {
            1
        } else {
            0
        },
        SortUnit::Composite { children, .. } => order::total(counts(children, part)),
    }
}

/// How often a part occurs in each of the units.
pub open spec fn counts(units: Seq<SortUnit>, part: InxPartData) -> Seq<nat>
    decreases units,
{
    Seq::new(
        units.len(),
        |i: int|
            if 0 <= i < units.len() {
                unit_count(units[i], part)
            } else {
                0
            },
    )
}

/// How often a part occurs in the units.
pub open spec fn count_in(units: Seq<SortUnit>, part: InxPartData) -> nat {
    order::total(counts(units, part))
}

/// How often the commands draw a part.
pub open spec fn draws(commands: Seq<RenderOrder>, part: InxPartData) -> nat
    decreases commands.len(),
{
    if commands.len() == 0 {
        0
    } else {
        draws(commands.drop_last(), part) + if commands.last() == RenderOrder::DrawPart(part) {
            1nat
        } else {
            0
        }
    }
}

proof fn lemma_draws_concat(a: Seq<RenderOrder>, b: Seq<RenderOrder>, part: InxPartData)
    ensures
        draws(a + b, part) == draws(a, part) + draws(b, part),
    decreases b.len(),
{
    if b.len() == 0 {
        assert(a + b =~= a);
    } else {
        lemma_draws_concat(a, b.drop_last(), part);
        assert((a + b).drop_last() =~= a + b.drop_last());
        assert((a + b).last() == b.last());
    }
}

proof fn lemma_no_draws(commands: Seq<RenderOrder>, part: InxPartData)
    requires
        forall|i: int| 0 <= i < commands.len() ==> !(#[trigger] commands[i] is DrawPart),
    ensures
        draws(commands, part) == 0,
    decreases commands.len(),
{
    if commands.len() > 0 {
        lemma_no_draws(commands.drop_last(), part);
    }
}

proof fn lemma_unit_draws(unit: SortUnit, part: InxPartData)
    ensures
        draws(unit_commands(unit), part) == unit_count(unit, part),
    decreases unit,
{
    match unit {
        SortUnit::Part { data, masks, .. } => {
            let pushes = masks.map_values(|m: MaskHeader| RenderOrder::PushMask(m));
            let draw = seq![RenderOrder::DrawPart(data)];
            let pops = Seq::new(masks.len(), |i: int| RenderOrder::PopMask);
            lemma_draws_concat(pushes + draw, pops, part);
            lemma_draws_concat(pushes, draw, part);
            lemma_no_draws(pushes, part);
            lemma_no_draws(pops, part);
            assert(draw.drop_last() =~= Seq::empty());
            assert(draws(draw.drop_last(), part) == 0);
        },
        SortUnit::Composite { header, children, .. } => {
            let begin = seq![RenderOrder::BeginComposite(header)];
            let end = seq![RenderOrder::EndComposite];
            lemma_draws_concat(begin + commands_of(children), end, part);
            lemma_draws_concat(begin, commands_of(children), part);
            lemma_no_draws(begin, part);
            lemma_no_draws(end, part);
            lemma_commands_draw(children, part);
        },
    }
}

/// The commands draw each part as often as the units hold it.
pub proof fn lemma_commands_draw(units: Seq<SortUnit>, part: InxPartData)
    ensures
        draws(commands_of(units), part) == count_in(units, part),
    decreases units,
{
    if units.len() > 0 {
        let rest = units.drop_first();
        lemma_draws_concat(unit_commands(units[0]), commands_of(rest), part);
        lemma_unit_draws(units[0], part);
        lemma_commands_draw(rest, part);
        order::lemma_total_remove(counts(units, part), 0);
        assert(counts(units, part).remove(0) =~= counts(rest, part));
    }
}

proof fn lemma_unit_sort_keeps(before: SortUnit, after: SortUnit, part: InxPartData)
    requires
        unit_sorts_to(before, after),
    ensures
        unit_count(before, part) == unit_count(after, part),
    decreases before,
{
    match (before, after) {
        (SortUnit::Composite { children: c, .. }, SortUnit::Composite { children: d, .. }) => {
            lemma_sort_keeps(c, d, part);
        },
        _ => {},
    }
}

/// Sorting neither loses a part nor repeats one.
pub proof fn lemma_sort_keeps(before: Seq<SortUnit>, after: Seq<SortUnit>, part: InxPartData)
    requires
        sorts_to(before, after),
    ensures
        count_in(before, part) == count_in(after, part),
    decreases before,
{
    let p = choose|p: Seq<int>|
        {
            &&& #[trigger] order::permutes(p, before.len())
            &&& back_to_front(before, p)
            &&& after.len() == before.len()
            &&& forall|k: int|
                0 <= k < after.len() && 0 <= p[k] < before.len() ==> unit_sorts_to(
                    before[p[k]],
                    #[trigger] after[k],
                )
        };
    let n = before.len();
    let b = counts(before, part);
    let a = counts(after, part);
    order::lemma_total_permuted(b, p);
    assert(a =~= Seq::new(n, |k: int| b[p[k]])) by {
        assert forall|k: int| 0 <= k < n implies a[k] == b[p[k]] by {
            assert(0 <= p[k] < n);
            assert(unit_sorts_to(before[p[k]], after[k]));
            lemma_unit_sort_keeps(before[p[k]], after[k], part);
        }
    }
}

} // verus!
