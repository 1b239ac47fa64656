//! From draw commands to render passes.
//!
//! Consecutive parts share one pass. A mask, the end of a mask and the edges of
//! a composite end the running batch. A composite draws into an offscreen layer
//! that is then drawn onto the layer below, or onto the view.

use crate::pipeline::extract::{MaskMode, RenderOrder};
use crate::pipeline::sequence;
use crate::pipeline::uniforms;
use vstd::prelude::*;

verus! {

/// How many offscreen layers a view has; deeper composites are not isolated.
pub const MAX_COMPOSITE_DEPTH: usize = 4;

/// What a pass draws into.
#[derive(Debug, Clone, Copy, PartialEq, Eq, Structural)]
pub enum PassTarget {
    /// The view itself.
    View,
    /// An offscreen layer.
    Layer(usize),
}

/// A render pass.
#[derive(Debug, Clone, Copy, PartialEq, Eq, Structural)]
pub enum RenderOp {
    /// Draws the parts of the commands `start..end`; the first of them is part
    /// number `part`.
    Parts {
        target: PassTarget,
        clear: bool,
        stencil: u32,
        start: usize,
        end: usize,
        part: usize,
    },
    /// Clears the stencil and writes a mask into it. The command is mask number
    /// `mask`.
    Mask { target: PassTarget, command: usize, mask: usize, stencil: u32 },
    /// Clears the stencil.
    ClearStencil { target: PassTarget },
    /// Draws a layer, opened by the command `begin`, with the uniforms of that
    /// composite, which are in `slot`.
    Blit { source: usize, begin: usize, target: PassTarget, clear: bool, slot: usize },
}

/// An open offscreen layer.
#[derive(Debug, Clone, Copy, PartialEq, Eq, Structural)]
pub struct Layer {
    /// The command that opened it.
    pub begin: usize,
    /// How many composites open before that command.
    pub slot: usize,
    /// Something has been drawn into it.
    pub drawn: bool,
}

/// Where the run of parts that ends before command `p` starts.
pub open spec fn run_start(cmds: Seq<RenderOrder>, p: nat) -> nat
    decreases p,
{
    if p > 0 && cmds[p - 1] is DrawPart {
        run_start(cmds, (p - 1) as nat)
    } else {
        p
    }
}

/// There are parts to draw before command `p`.
pub open spec fn pending(cmds: Seq<RenderOrder>, p: nat) -> bool {
    run_start(cmds, p) < p
}

pub open spec fn parts_before(cmds: Seq<RenderOrder>, p: nat) -> nat
    decreases p,
{
    if p == 0 {
        0
    } else {
        parts_before(cmds, (p - 1) as nat) + if cmds[p - 1] is DrawPart {
            1nat
        } else {
            0
        }
    }
}

pub open spec fn masks_before(cmds: Seq<RenderOrder>, p: nat) -> nat
    decreases p,
{
    if p == 0 {
        0
    } else {
        masks_before(cmds, (p - 1) as nat) + if cmds[p - 1] is PushMask {
            1nat
        } else {
            0
        }
    }
}

/// The stencil value that parts are tested against before command `p`: the
/// number of masks in force.
pub open spec fn stencil(cmds: Seq<RenderOrder>, p: nat) -> nat
    decreases p,
{
    if p == 0 {
        0
    } else {
        let before = stencil(cmds, (p - 1) as nat);
        match cmds[p - 1] {
            RenderOrder::PushMask(_) => before + 1,
            RenderOrder::PopMask => if before > 0 {
                (before - 1) as nat
            } else {
                0
            },
            _ => before,
        }
    }
}

/// The layers, the innermost being drawn into.
pub open spec fn touched(layers: Seq<Layer>) -> Seq<Layer> {
    if layers.len() > 0 {
        layers.update(layers.len() - 1, Layer { drawn: true, ..layers.last() })
    } else {
        layers
    }
}

/// How many composites open before command `p`.
pub open spec fn begins_before(cmds: Seq<RenderOrder>, p: nat) -> nat
    decreases p,
{
    if p == 0 {
        0
    } else {
        begins_before(cmds, (p - 1) as nat) + if cmds[p - 1] is BeginComposite {
            1nat
        } else {
            0
        }
    }
}

/// The open layers before command `p`, where at most `limit` can be open.
pub open spec fn layers(cmds: Seq<RenderOrder>, p: nat, limit: nat) -> Seq<Layer>
    decreases p,
{
    if p == 0 {
        Seq::empty()
    } else {
        let before = layers(cmds, (p - 1) as nat, limit);
        let now = flushed(cmds, (p - 1) as nat, before);
        match cmds[p - 1] {
            RenderOrder::DrawPart(_) => before,
            RenderOrder::BeginComposite(_) => if now.len() < limit {
                now.push(
                    Layer {
                        begin: (p - 1) as usize,
                        slot: begins_before(cmds, (p - 1) as nat) as usize,
                        drawn: false,
                    },
                )
            } else {
                now
            },
            RenderOrder::EndComposite => if skipped(cmds, (p - 1) as nat, limit) == 0
                && now.len() > 0 {
                touched(now.drop_last())
            } else {
                now
            },
            _ => now,
        }
    }
}

/// How many composites without a layer of their own are open before command `p`.
/// They are inside all that have one.
pub open spec fn skipped(cmds: Seq<RenderOrder>, p: nat, limit: nat) -> nat
    decreases p,
{
    if p == 0 {
        0
    } else {
        let before = skipped(cmds, (p - 1) as nat, limit);
        match cmds[p - 1] {
            RenderOrder::BeginComposite(_) => if layers(cmds, (p - 1) as nat, limit).len()
                < limit {
                before
            } else {
                before + 1
            },
            RenderOrder::EndComposite => if before > 0 {
                (before - 1) as nat
            } else {
                0
            },
            _ => before,
        }
    }
}

/// The layers once the parts before command `p` are drawn.
pub open spec fn flushed(cmds: Seq<RenderOrder>, p: nat, open: Seq<Layer>) -> Seq<Layer> {
    if pending(cmds, p) {
        touched(open)
    } else {
        open
    }
}

/// What is drawn into: the innermost layer, or the view.
pub open spec fn target_of(open: Seq<Layer>) -> PassTarget {
    if open.len() > 0 {
        PassTarget::Layer((open.len() - 1) as usize)
    } else {
        PassTarget::View
    }
}

/// The pass for the parts before command `p`. The first pass into a layer
/// clears it.
pub open spec fn batch(cmds: Seq<RenderOrder>, p: nat, limit: nat) -> Seq<RenderOp> {
    let open = layers(cmds, p, limit);
    if pending(cmds, p) {
        seq![
            RenderOp::Parts {
                target: target_of(open),
                clear: open.len() > 0 && !open.last().drawn,
                stencil: stencil(cmds, p) as u32,
                start: run_start(cmds, p) as usize,
                end: p as usize,
                part: parts_before(cmds, run_start(cmds, p)) as usize,
            },
        ]
    } else {
        Seq::empty()
    }
}

/// The passes of command `p`, after the parts before it.
pub open spec fn own_passes(cmds: Seq<RenderOrder>, p: nat, limit: nat) -> Seq<RenderOp> {
    let open = layers(cmds, p, limit);
    let now = flushed(cmds, p, open);
    match cmds[p as int] {
        RenderOrder::PushMask(mask) => seq![
            RenderOp::Mask {
                target: target_of(open),
                command: p as usize,
                mask: masks_before(cmds, p) as usize,
                stencil: if mask.mode == MaskMode::Mask {
                    (stencil(cmds, p) + 1) as u32
                } else {
                    0
                },
            },
        ],
        RenderOrder::PopMask => seq![RenderOp::ClearStencil { target: target_of(open) }],
        RenderOrder::EndComposite => if skipped(cmds, p, limit) == 0 && now.len() > 0 {
            let below = now.drop_last();
            seq![
                RenderOp::Blit {
                    source: (now.len() - 1) as usize,
                    begin: now.last().begin,
                    target: target_of(below),
                    clear: below.len() > 0 && !below.last().drawn,
                    slot: now.last().slot,
                },
            ]
        } else {
            Seq::empty()
        },
        _ => Seq::empty(),
    }
}

/// The passes of the commands before `p`, without the parts that wait for
/// their batch to end.
pub open spec fn passes_before(cmds: Seq<RenderOrder>, p: nat, limit: nat) -> Seq<RenderOp>
    decreases p,
{
    if p == 0 {
        Seq::empty()
    } else {
        let q = (p - 1) as nat;
        let before = passes_before(cmds, q, limit);
        if cmds[p - 1] is DrawPart {
            before
        } else {
            before + batch(cmds, q, limit) + own_passes(cmds, q, limit)
        }
    }
}

/// The passes of all commands.
pub open spec fn passes(cmds: Seq<RenderOrder>, limit: nat) -> Seq<RenderOp> {
    passes_before(cmds, cmds.len(), limit) + batch(cmds, cmds.len(), limit)
}

proof fn lemma_stencil_bound(cmds: Seq<RenderOrder>, p: nat, n: nat)
    requires
        p <= n,
    ensures
        stencil(cmds, p) <= masks_before(cmds, p) <= masks_before(cmds, n),
    decreases n,
{
    if p < n {
        lemma_stencil_bound(cmds, p, (n - 1) as nat);
    } else if p > 0 {
        lemma_stencil_bound(cmds, (p - 1) as nat, (p - 1) as nat);
    }
}

proof fn lemma_run_start(cmds: Seq<RenderOrder>, p: nat)
    ensures
        run_start(cmds, p) <= p,
        forall|i: int| run_start(cmds, p) <= i < p ==> #[trigger] cmds[i] is DrawPart,
        parts_before(cmds, p) == parts_before(cmds, run_start(cmds, p)) + (p - run_start(cmds, p)),
    decreases p,
{
    if p > 0 && cmds[p - 1] is DrawPart {
        lemma_run_start(cmds, (p - 1) as nat);
    }
}

proof fn lemma_counts(cmds: Seq<RenderOrder>, p: nat, limit: nat)
    ensures
        parts_before(cmds, p) <= p,
        masks_before(cmds, p) <= p,
        begins_before(cmds, p) <= p,
        layers(cmds, p, limit).len() <= limit,
        layers(cmds, p, limit).len() <= p,
        skipped(cmds, p, limit) <= p,
    decreases p,
{
    if p > 0 {
        lemma_counts(cmds, (p - 1) as nat, limit);
    }
}

fn current_target(stack: &Vec<Layer>) -> (r: PassTarget)
    ensures
        r == target_of(stack@),
{
    if stack.len() > 0 {
        PassTarget::Layer(stack.len() - 1)
    } else {
        PassTarget::View
    }
}

/// Draws the waiting parts: one pass, if there are any.
fn flush_batch(
    ops: &mut Vec<RenderOp>,
    stack: &mut Vec<Layer>,
    stencil_ref: u32,
    start: usize,
    end: usize,
    part: usize,
)
    ensures
        final(ops)@ == old(ops)@ + (if start < end {
            seq![
                RenderOp::Parts {
                    target: target_of(old(stack)@),
                    clear: old(stack)@.len() > 0 && !old(stack)@.last().drawn,
                    stencil: stencil_ref,
                    start,
                    end,
                    part,
                },
            ]
        } else {
            Seq::empty()
        }),
        final(stack)@ == (if start < end {
            touched(old(stack)@)
        } else {
            old(stack)@
        }),
{
    if start >= end {
        assert(ops@ =~= ops@ + Seq::<RenderOp>::empty());
        return;
    }
    let target = current_target(stack);
    let mut clear = false;
    let depth: usize = stack.len();
    if depth > 0 {
        let top = stack[depth - 1];
        clear = !top.drawn;
        stack.set(depth - 1, Layer { begin: top.begin, slot: top.slot, drawn: true });
    }
    ops.push(RenderOp::Parts { target, clear, stencil: stencil_ref, start, end, part });
}

/// The render passes of a puppet's commands, for a view with `limit` offscreen
/// layers.
pub fn plan_passes(commands: &Vec<RenderOrder>, limit: usize) -> (r: Vec<RenderOp>)
    requires
        masks_before(commands@, commands@.len()) <= u32::MAX,
    ensures
        r@ == passes(commands@, limit as nat),
{
    let ghost cmds = commands@;
    let ghost lim = limit as nat;
    let mut ops: Vec<RenderOp> = Vec::new();
    let mut stack: Vec<Layer> = Vec::new();
    let mut stencil_ref: u32 = 0;
    let mut start: usize = 0;
    let mut part_idx: usize = 0;
    let mut mask_idx: usize = 0;
    let mut comp_idx: usize = 0;
    let mut without: usize = 0;
    let mut p: usize = 0;
    while p < commands.len()
        invariant
            cmds == commands@,
            lim == limit,
            p <= cmds.len(),
            masks_before(cmds, cmds.len()) <= u32::MAX,
            ops@ == passes_before(cmds, p as nat, lim),
            stack@ == layers(cmds, p as nat, lim),
            stencil_ref == stencil(cmds, p as nat),
            start == run_start(cmds, p as nat),
            part_idx == parts_before(cmds, start as nat),
            mask_idx == masks_before(cmds, p as nat),
            comp_idx == begins_before(cmds, p as nat),
            without == skipped(cmds, p as nat, lim),
        decreases cmds.len() - p,
    {
        proof {
            lemma_stencil_bound(cmds, (p + 1) as nat, cmds.len());
            lemma_stencil_bound(cmds, p as nat, cmds.len());
            lemma_run_start(cmds, p as nat);
            lemma_counts(cmds, p as nat, lim);
        }
        let ghost open = stack@;
        match &commands[p] {
            RenderOrder::DrawPart(_) => {},
            RenderOrder::PushMask(mask) => {
                flush_batch(&mut ops, &mut stack, stencil_ref, start, p, part_idx);
                let target = current_target(&stack);
                stencil_ref = stencil_ref + 1;
                let value: u32 = match mask.mode {
                    MaskMode::Mask => stencil_ref,
                    MaskMode::Dodge => 0,
                };
                ops.push(RenderOp::Mask { target, command: p, mask: mask_idx, stencil: value });
                mask_idx = mask_idx + 1;
                part_idx = part_idx + (p - start);
                start = p + 1;
            },
            RenderOrder::PopMask => {
                flush_batch(&mut ops, &mut stack, stencil_ref, start, p, part_idx);
                if stencil_ref > 0 {
                    stencil_ref = stencil_ref - 1;
                }
                let target = current_target(&stack);
                ops.push(RenderOp::ClearStencil { target });
                part_idx = part_idx + (p - start);
                start = p + 1;
            },
            RenderOrder::BeginComposite(_) => {
                flush_batch(&mut ops, &mut stack, stencil_ref, start, p, part_idx);
                if stack.len() < limit {
                    stack.push(Layer { begin: p, slot: comp_idx, drawn: false });
                } else {
                    without = without + 1;
                }
                comp_idx = comp_idx + 1;
                part_idx = part_idx + (p - start);
                start = p + 1;
            },
            RenderOrder::EndComposite => {
                flush_batch(&mut ops, &mut stack, stencil_ref, start, p, part_idx);
                let depth: usize = stack.len();
                if without > 0 {
                    without = without - 1;
                } else if depth > 0 {
                    let frame = stack[depth - 1];
                    stack.pop();
                    let target = current_target(&stack);
                    let mut clear = false;
                    if depth > 1 {
                        let parent = stack[depth - 2];
                        clear = !parent.drawn;
                        stack.set(
                            depth - 2,
                            Layer { begin: parent.begin, slot: parent.slot, drawn: true },
                        );
                    }
                    ops.push(
                        RenderOp::Blit {
                            source: depth - 1,
                            begin: frame.begin,
                            target,
                            clear,
                            slot: frame.slot,
                        },
                    );
                }
                part_idx = part_idx + (p - start);
                start = p + 1;
            },
        }
        proof {
            let q = p as nat;
            lemma_run_start(cmds, (p + 1) as nat);
            if !(cmds[p as int] is DrawPart) {
                assert(start == run_start(cmds, (p + 1) as nat));
                assert(ops@ =~= passes_before(cmds, q, lim) + batch(cmds, q, lim) + own_passes(
                    cmds,
                    q,
                    lim,
                ));
                assert(stack@ =~= layers(cmds, (p + 1) as nat, lim));
            }
        }
        p = p + 1;
    }
    let ghost done = ops@;
    flush_batch(&mut ops, &mut stack, stencil_ref, start, p, part_idx);
    assert(ops@ =~= passes(cmds, lim));
    ops
}

/// The sample count of a pass: the view's own when it draws to the view, one
/// in a layer.
pub fn target_samples(target: PassTarget, view_samples: u32) -> (r: u32)
    ensures
        r == (if target == PassTarget::View {
            view_samples
        } else {
            1
        }),
{
    match target {
        PassTarget::View => view_samples,
        PassTarget::Layer(_) => 1,
    }
}

/// The commands that a pass draws parts for.
pub open spec fn parts_of_pass(op: RenderOp) -> Seq<int> {
    match op {
        RenderOp::Parts { start, end, .. } => Seq::new((end - start) as nat, |i: int| start + i),
        _ => Seq::empty(),
    }
}

/// The commands that the passes draw parts for, in order.
pub open spec fn parts_drawn(ops: Seq<RenderOp>) -> Seq<int>
    decreases ops.len(),
{
    if ops.len() == 0 {
        Seq::empty()
    } else {
        parts_drawn(ops.drop_last()) + parts_of_pass(ops.last())
    }
}

/// The part commands before command `p`, in order.
pub open spec fn part_commands(cmds: Seq<RenderOrder>, p: nat) -> Seq<int>
    decreases p,
{
    if p == 0 {
        Seq::empty()
    } else if cmds[p - 1] is DrawPart {
        part_commands(cmds, (p - 1) as nat).push(p - 1)
    } else {
        part_commands(cmds, (p - 1) as nat)
    }
}

proof fn lemma_parts_drawn_concat(a: Seq<RenderOp>, b: Seq<RenderOp>)
    ensures
        parts_drawn(a + b) == parts_drawn(a) + parts_drawn(b),
    decreases b.len(),
{
    if b.len() == 0 {
        assert(a + b =~= a);
        assert(parts_drawn(a) + parts_drawn(b) =~= parts_drawn(a));
    } else {
        lemma_parts_drawn_concat(a, b.drop_last());
        assert((a + b).drop_last() =~= a + b.drop_last());
        assert((a + b).last() == b.last());
        assert(parts_drawn(a + b) =~= parts_drawn(a) + parts_drawn(b));
    }
}

proof fn lemma_run_commands(cmds: Seq<RenderOrder>, p: nat)
    ensures
        part_commands(cmds, p) == part_commands(cmds, run_start(cmds, p)) + Seq::new(
            (p - run_start(cmds, p)) as nat,
            |i: int| run_start(cmds, p) + i,
        ),
    decreases p,
{
    lemma_run_start(cmds, p);
    let s = run_start(cmds, p);
    if p > 0 && cmds[p - 1] is DrawPart {
        lemma_run_start(cmds, (p - 1) as nat);
        lemma_run_commands(cmds, (p - 1) as nat);
        assert(part_commands(cmds, p) =~= part_commands(cmds, s) + Seq::new(
            (p - s) as nat,
            |i: int| s + i,
        ));
    } else {
        assert(part_commands(cmds, p) =~= part_commands(cmds, s) + Seq::new(
            (p - s) as nat,
            |i: int| s + i,
        ));
    }
}

proof fn lemma_batch_parts(cmds: Seq<RenderOrder>, p: nat, limit: nat)
    requires
        p <= usize::MAX,
    ensures
        parts_drawn(batch(cmds, p, limit)) == Seq::new(
            (p - run_start(cmds, p)) as nat,
            |i: int| run_start(cmds, p) + i,
        ),
{
    lemma_run_start(cmds, p);
    let s = run_start(cmds, p);
    let b = batch(cmds, p, limit);
    if pending(cmds, p) {
        assert(b.drop_last() =~= Seq::empty());
        assert(parts_drawn(b.drop_last()) =~= Seq::empty());
        assert(parts_drawn(b) =~= parts_of_pass(b[0]));
        assert(parts_of_pass(b[0]) =~= Seq::new((p - s) as nat, |i: int| s + i));
    } else {
        assert(parts_drawn(b) =~= Seq::new((p - s) as nat, |i: int| s + i));
    }
}

proof fn lemma_passes_before_parts(cmds: Seq<RenderOrder>, p: nat, limit: nat)
    requires
        p <= cmds.len() <= usize::MAX,
    ensures
        parts_drawn(passes_before(cmds, p, limit)) == part_commands(cmds, run_start(cmds, p)),
    decreases p,
{
    if p > 0 {
        let q = (p - 1) as nat;
        lemma_passes_before_parts(cmds, q, limit);
        if !(cmds[p - 1] is DrawPart) {
            let before = passes_before(cmds, q, limit);
            let b = batch(cmds, q, limit);
            let own = own_passes(cmds, q, limit);
            lemma_parts_drawn_concat(before + b, own);
            lemma_parts_drawn_concat(before, b);
            lemma_batch_parts(cmds, q, limit);
            lemma_run_commands(cmds, q);
            if own.len() > 0 {
                assert(own.len() == 1);
                assert(own.drop_last() =~= Seq::empty());
                assert(parts_drawn(own.drop_last()) =~= Seq::empty());
                assert(parts_of_pass(own[0]) =~= Seq::empty());
                assert(parts_drawn(own) =~= Seq::empty());
            }
            assert(parts_drawn(passes_before(cmds, p, limit)) =~= part_commands(cmds, q));
        }
    }
}

/// The passes draw every part of the command list exactly once, in the order
/// of the commands.
pub proof fn lemma_every_part_drawn(cmds: Seq<RenderOrder>, limit: nat)
    requires
        cmds.len() <= usize::MAX,
    ensures
        parts_drawn(passes(cmds, limit)) == part_commands(cmds, cmds.len()),
{
    let n = cmds.len();
    lemma_passes_before_parts(cmds, n, limit);
    lemma_parts_drawn_concat(passes_before(cmds, n, limit), batch(cmds, n, limit));
    lemma_batch_parts(cmds, n, limit);
    lemma_run_commands(cmds, n);
}

/// How many of the open things are composites, or masks.
pub open spec fn open_count(open: Seq<bool>, composites: bool) -> nat
    decreases open.len(),
{
    if open.len() == 0 {
        0
    } else {
        open_count(open.drop_last(), composites) + if open.last() == composites {
            1nat
        } else {
            0
        }
    }
}

/// The commands nest.
pub open spec fn nests(cmds: Seq<RenderOrder>) -> bool {
    forall|p: nat|
        #![trigger cmds.take(p as int)]
        p <= cmds.len() ==> sequence::opened(cmds.take(p as int), Seq::empty()) is Some
}

/// Each open composite has an open layer, as far as there are layers, and the
/// stencil value is the number of open masks.
pub proof fn lemma_layers_follow_nesting(cmds: Seq<RenderOrder>, p: nat, limit: nat)
    requires
        nests(cmds),
        p <= cmds.len(),
    ensures
        layers(cmds, p, limit).len() + skipped(cmds, p, limit) == open_count(
            sequence::opened(cmds.take(p as int), Seq::empty())->0,
            true,
        ),
        layers(cmds, p, limit).len() <= limit,
        skipped(cmds, p, limit) > 0 ==> layers(cmds, p, limit).len() == limit,
        stencil(cmds, p) == open_count(
            sequence::opened(cmds.take(p as int), Seq::empty())->0,
            false,
        ),
    decreases p,
{
    let none = Seq::<bool>::empty();
    if p == 0 {
        assert(cmds.take(0) =~= Seq::empty());
    } else {
        let q = (p - 1) as nat;
        lemma_layers_follow_nesting(cmds, q, limit);
        let before = cmds.take(q as int);
        let last = seq![cmds[q as int]];
        assert(cmds.take(p as int) =~= before + last);
        sequence::lemma_opened_concat(before, last, none);
        let open = sequence::opened(before, none)->0;
        assert(last.drop_first() =~= Seq::empty());
        let after = sequence::opened(cmds.take(p as int), none)->0;
        match cmds[q as int] {
            RenderOrder::DrawPart(_) => {
                assert(sequence::opened(last.drop_first(), open) == Some(open));
            },
            RenderOrder::BeginComposite(_) => {
                assert(sequence::opened(last.drop_first(), open.push(true)) == Some(
                    open.push(true),
                ));
                assert(open.push(true).drop_last() =~= open);
            },
            RenderOrder::PushMask(_) => {
                assert(sequence::opened(last.drop_first(), open.push(false)) == Some(
                    open.push(false),
                ));
                assert(open.push(false).drop_last() =~= open);
            },
            RenderOrder::EndComposite => {
                assert(open.len() > 0 && open.last());
                assert(sequence::opened(last.drop_first(), open.drop_last()) == Some(
                    open.drop_last(),
                ));
            },
            RenderOrder::PopMask => {
                assert(open.len() > 0 && !open.last());
                assert(sequence::opened(last.drop_first(), open.drop_last()) == Some(
                    open.drop_last(),
                ));
            },
        }
    }
}

/// After the commands of a puppet every layer has been drawn onto what is below
/// it and no mask is in force, however deep its composites nest.
pub proof fn lemma_all_closed(cmds: Seq<RenderOrder>, limit: nat)
    requires
        nests(cmds),
        sequence::opened(cmds, Seq::empty()) == Some(Seq::<bool>::empty()),
    ensures
        layers(cmds, cmds.len(), limit).len() == 0,
        stencil(cmds, cmds.len()) == 0,
{
    assert(cmds.take(cmds.len() as int) =~= cmds);
    lemma_layers_follow_nesting(cmds, cmds.len(), limit);
}

/// The layers are those of composites, each with the place of its uniforms.
pub open spec fn layers_own(cmds: Seq<RenderOrder>, p: nat, open: Seq<Layer>) -> bool {
    forall|i: int|
        0 <= i < open.len() ==> {
            let l = #[trigger] open[i];
            &&& l.begin < p
            &&& cmds[l.begin as int] is BeginComposite
            &&& l.slot == begins_before(cmds, l.begin as nat)
        }
}

proof fn lemma_layers_own(cmds: Seq<RenderOrder>, p: nat, limit: nat)
    requires
        p <= cmds.len() <= usize::MAX,
    ensures
        layers_own(cmds, p, layers(cmds, p, limit)),
    decreases p,
{
    if p > 0 {
        lemma_layers_own(cmds, (p - 1) as nat, limit);
        lemma_counts(cmds, (p - 1) as nat, limit);
    }
}

/// The uniforms of a composite are in the slot that counts the composites which
/// open before it.
proof fn lemma_own_slot(cmds: Seq<RenderOrder>, begin: nat, n: nat)
    requires
        begin < n <= cmds.len(),
        cmds[begin as int] is BeginComposite,
    ensures
        begins_before(cmds, begin) < uniforms::composite_uniforms(cmds, n).len(),
        uniforms::composite_uniforms(cmds, n)[begins_before(cmds, begin) as int]
            == uniforms::composite_uniform(cmds[begin as int]->BeginComposite_0),
    decreases n,
{
    if n == begin + 1 {
        lemma_begins_are_listed(cmds, begin);
    } else {
        lemma_own_slot(cmds, begin, (n - 1) as nat);
    }
}

proof fn lemma_begins_are_listed(cmds: Seq<RenderOrder>, p: nat)
    requires
        p <= cmds.len(),
    ensures
        uniforms::composite_uniforms(cmds, p).len() == begins_before(cmds, p),
    decreases p,
{
    if p > 0 {
        lemma_begins_are_listed(cmds, (p - 1) as nat);
    }
}

/// The pass is no blit, or it draws a composite with that composite's own
/// uniforms.
pub open spec fn blit_owned(cmds: Seq<RenderOrder>, op: RenderOp) -> bool {
    op matches RenderOp::Blit { begin, slot, .. } ==> {
        let all = uniforms::composite_uniforms(cmds, cmds.len());
        &&& begin < cmds.len()
        &&& cmds[begin as int] matches RenderOrder::BeginComposite(header)
            && slot < all.len() && all[slot as int] == uniforms::composite_uniform(header)
    }
}

proof fn lemma_blits_before_own(cmds: Seq<RenderOrder>, p: nat, limit: nat, k: int)
    requires
        p <= cmds.len() <= usize::MAX,
        0 <= k < passes_before(cmds, p, limit).len(),
    ensures
        blit_owned(cmds, passes_before(cmds, p, limit)[k]),
    decreases p,
{
    if p > 0 {
        let q = (p - 1) as nat;
        let before = passes_before(cmds, q, limit);
        if k < before.len() {
            lemma_blits_before_own(cmds, q, limit, k);
        } else if !(cmds[p - 1] is DrawPart) {
            let open = layers(cmds, q, limit);
            let now = flushed(cmds, q, open);
            lemma_layers_own(cmds, q, limit);
            assert(layers_own(cmds, q, now));
            if cmds[q as int] is EndComposite && now.len() > 0 {
                lemma_own_slot(cmds, now.last().begin as nat, cmds.len());
            }
        }
    }
}

/// Each composite is drawn with its own opacity and tints, however deep it
/// nests.
pub proof fn lemma_blits_use_own_uniforms(cmds: Seq<RenderOrder>, limit: nat, k: int)
    requires
        cmds.len() <= usize::MAX,
        0 <= k < passes(cmds, limit).len(),
    ensures
        blit_owned(cmds, passes(cmds, limit)[k]),
{
    if k < passes_before(cmds, cmds.len(), limit).len() {
        lemma_blits_before_own(cmds, cmds.len(), limit, k);
    }
}

} // verus!
