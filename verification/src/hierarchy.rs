//! Parents and roots of entities.

use crate::id_map::IdMap;
use vstd::prelude::*;

verus! {

/// Every entity is higher in the ranking than its parent.
pub open spec fn ranks(parents: Map<u64, u64>, rank: spec_fn(u64) -> nat) -> bool {
    forall|e: u64| #[trigger] parents.dom().contains(e) ==> rank(parents[e]) < rank(e)
}

/// No entity is above itself.
pub open spec fn rooted(parents: Map<u64, u64>) -> bool {
    exists|rank: spec_fn(u64) -> nat| ranks(parents, rank)
}

pub open spec fn some_rank(parents: Map<u64, u64>) -> spec_fn(u64) -> nat {
    choose|rank: spec_fn(u64) -> nat| ranks(parents, rank)
}

/// The topmost entity above an entity, or itself.
pub open spec fn top_of(parents: Map<u64, u64>, e: u64) -> u64
    decreases some_rank(parents)(e),
    when rooted(parents)
{
    if parents.dom().contains(e) {
        top_of(parents, parents[e])
    } else {
        e
    }
}

/// Walks up to the topmost entity.
pub fn root_of(entity: u64, parents: &IdMap) -> (r: u64)
    requires
        rooted(parents@),
    ensures
        r == top_of(parents@, entity),
{
    let mut e: u64 = entity;
    let mut going = true;
    while going
        invariant
            rooted(parents@),
            top_of(parents@, entity) == top_of(parents@, e),
            !going ==> !parents@.dom().contains(e),
        decreases some_rank(parents@)(e), going as int,
    {
        match parents.get(e) {
            Some(parent) => {
                e = parent;
            },
            None => {
                going = false;
            },
        }
    }
    e
}

/// The entity `k` steps up; above a root there is only itself.
pub open spec fn above(parents: Map<u64, u64>, e: u64, k: nat) -> u64
    decreases k,
{
    if k == 0 {
        e
    } else {
        let below = above(parents, e, (k - 1) as nat);
        if parents.dom().contains(below) {
            parents[below]
        } else {
            below
        }
    }
}

proof fn lemma_above_parent(parents: Map<u64, u64>, e: u64, k: nat)
    requires
        parents.dom().contains(e),
    ensures
        above(parents, parents[e], k) == above(parents, e, k + 1),
    decreases k,
{
    if k > 0 {
        lemma_above_parent(parents, e, (k - 1) as nat);
    } else {
        assert(above(parents, e, 0) == e);
    }
}

/// The way up from an entity ends after `k` steps, and not before.
pub open spec fn ends_at(parents: Map<u64, u64>, e: u64, k: nat) -> bool {
    &&& !parents.dom().contains(above(parents, e, k))
    &&& forall|j: nat| j < k ==> parents.dom().contains(#[trigger] above(parents, e, j))
}

/// The way up from an entity ends.
pub open spec fn ends(parents: Map<u64, u64>, e: u64) -> bool {
    exists|k: nat| ends_at(parents, e, k)
}

proof fn lemma_end_unique(parents: Map<u64, u64>, e: u64, j: nat, k: nat)
    requires
        ends_at(parents, e, j),
        ends_at(parents, e, k),
    ensures
        j == k,
{
}

proof fn lemma_ends_are_rooted(parents: Map<u64, u64>)
    requires
        forall|e: u64| #[trigger] parents.dom().contains(e) ==> ends(parents, e),
    ensures
        rooted(parents),
{
    let rank = |e: u64| choose|k: nat| ends_at(parents, e, k);
    assert forall|e: u64| #[trigger] parents.dom().contains(e) implies rank(parents[e]) < rank(
        e,
    ) by {
        let k = rank(e);
        assert(ends(parents, e) && ends_at(parents, e, k));
        assert(above(parents, e, 0) == e);
        let j = (k - 1) as nat;
        lemma_above_parent(parents, e, j);
        assert forall|i: nat| i < j implies parents.dom().contains(
            #[trigger] above(parents, parents[e], i),
        ) by {
            lemma_above_parent(parents, e, i);
        }
        assert(ends_at(parents, parents[e], j));
        lemma_end_unique(parents, parents[e], j, rank(parents[e]));
    }
    assert(ranks(parents, rank));
}

proof fn lemma_ranks_fall(parents: Map<u64, u64>, rank: spec_fn(u64) -> nat, e: u64, i: nat, k: nat)
    requires
        ranks(parents, rank),
        i < k,
        forall|j: nat| j < k ==> parents.dom().contains(#[trigger] above(parents, e, j)),
    ensures
        rank(above(parents, e, k)) < rank(above(parents, e, i)),
    decreases k,
{
    assert(parents.dom().contains(above(parents, e, (k - 1) as nat)));
    if i < k - 1 {
        lemma_ranks_fall(parents, rank, e, i, (k - 1) as nat);
    }
}

/// A way up that is longer than the list of entities with a parent runs in a
/// circle.
proof fn lemma_long_way_circles(parents: Map<u64, u64>, children: Seq<u64>, e: u64)
    requires
        forall|c: u64| #[trigger] parents.dom().contains(c) ==> children.contains(c),
        forall|j: nat|
            j <= children.len() ==> parents.dom().contains(#[trigger] above(parents, e, j)),
    ensures
        !rooted(parents),
{
    if rooted(parents) {
        let rank = some_rank(parents);
        let way = Seq::new(children.len() + 1, |k: int| above(parents, e, k as nat));
        assert forall|i: int, k: int| 0 <= i < k < way.len() implies way[i] != way[k] by {
            lemma_ranks_fall(parents, rank, e, i as nat, k as nat);
        }
        assert(way.no_duplicates());
        way.unique_seq_to_set();
        children.lemma_cardinality_of_set();
        assert forall|x: u64| way.to_set().contains(x) implies #[trigger] children.to_set().contains(
            x,
        ) by {
            let k = choose|k: int| 0 <= k < way.len() && way[k] == x;
            assert(parents.dom().contains(above(parents, e, k as nat)));
        }
        vstd::set_lib::lemma_len_subset(way.to_set(), children.to_set());
    }
}

/// Whether no entity is above itself. `children` lists the entities that have a
/// parent.
pub fn is_rooted(children: &Vec<u64>, parents: &IdMap) -> (r: bool)
    requires
        forall|c: u64| #[trigger] parents@.dom().contains(c) ==> children@.contains(c),
    ensures
        r == rooted(parents@),
{
    let count: usize = children.len();
    let mut i: usize = 0;
    while i < count
        invariant
            count == children@.len(),
            i <= count,
            forall|c: u64| #[trigger] parents@.dom().contains(c) ==> children@.contains(c),
            forall|j: int| 0 <= j < i ==> ends(parents@, #[trigger] children@[j]),
        decreases count - i,
    {
        let start: u64 = children[i];
        let mut e: u64 = start;
        let mut k: usize = 0;
        let mut going = true;
        while going
            invariant
                count == children@.len(),
                k <= count,
                forall|c: u64| #[trigger] parents@.dom().contains(c) ==> children@.contains(c),
                e == above(parents@, start, k as nat),
                forall|j: nat|
                    j < k ==> parents@.dom().contains(#[trigger] above(parents@, start, j)),
                !going ==> ends_at(parents@, start, k as nat),
            decreases count - k, going as int,
        {
            match parents.get(e) {
                Some(parent) => {
                    if k == count {
                        proof {
                            lemma_long_way_circles(parents@, children@, start);
                        }
                        return false;
                    }
                    e = parent;
                    k = k + 1;
                },
                None => {
                    going = false;
                },
            }
        }
        assert(ends_at(parents@, start, k as nat));
        assert(ends(parents@, children@[i as int]));
        i = i + 1;
    }
    proof {
        assert forall|e: u64| #[trigger] parents@.dom().contains(e) implies ends(parents@, e) by {
            let j = children@.index_of(e);
            assert(children@[j] == e);
        }
        lemma_ends_are_rooted(parents@);
    }
    true
}

/// The root of an entity has no parent, and is its own root.
pub proof fn lemma_root_is_top(parents: Map<u64, u64>, e: u64)
    requires
        rooted(parents),
    ensures
        !parents.dom().contains(top_of(parents, e)),
        top_of(parents, top_of(parents, e)) == top_of(parents, e),
    decreases some_rank(parents)(e),
{
    if parents.dom().contains(e) {
        lemma_root_is_top(parents, parents[e]);
    }
}

} // verus!
