//! Stable ordering by a key.

use crate::scalar;
use crate::scalar::Scalar;
use vstd::prelude::*;

verus! {

/// `p` lists each of `0..n` once.
pub open spec fn permutes(p: Seq<int>, n: nat) -> bool {
    &&& p.len() == n
    &&& forall|i: int| 0 <= i < n ==> 0 <= #[trigger] p[i] < n
    &&& forall|i: int, j: int| 0 <= i < j < n ==> p[i] != p[j]
}

/// Positions as integers.
pub open spec fn places(p: Seq<usize>) -> Seq<int> {
    p.map_values(|i: usize| i as int)
}

/// `p` lists the positions of `keys` by rising key, equal keys in the order in
/// which they stand.
pub open spec fn ascends(keys: Seq<int>, p: Seq<int>) -> bool {
    &&& permutes(p, keys.len())
    &&& forall|i: int, j: int|
        #![trigger p[i], p[j]]
        0 <= i < j < p.len() ==> keys[p[i]] < keys[p[j]] || (keys[p[i]] == keys[p[j]] && p[i]
            < p[j])
}

/// A list of positions without a repetition and without a stray one misses
/// none.
pub proof fn lemma_permutes_hits(p: Seq<int>, n: nat, v: int) -> (k: int)
    requires
        permutes(p, n),
        0 <= v < n,
    ensures
        0 <= k < n,
        p[k] == v,
{
    p.unique_seq_to_set();
    vstd::set_lib::lemma_int_range(0, n as int);
    let all = vstd::set_lib::set_int_range(0, n as int);
    assert(p.to_set().subset_of(all));
    vstd::seq_lib::seq_to_set_is_finite(p);
    vstd::set_lib::lemma_subset_equality(p.to_set(), all);
    assert(p.to_set().contains(v));
    p.index_of(v)
}

pub open spec fn total(s: Seq<nat>) -> nat
    decreases s.len(),
{
    if s.len() == 0 {
        0
    } else {
        total(s.drop_last()) + s.last()
    }
}

pub proof fn lemma_total_remove(s: Seq<nat>, k: int)
    requires
        0 <= k < s.len(),
    ensures
        total(s) == total(s.remove(k)) + s[k],
    decreases s.len(),
{
    if k == s.len() - 1 {
        assert(s.remove(k) =~= s.drop_last());
    } else {
        lemma_total_remove(s.drop_last(), k);
        assert(s.remove(k).drop_last() =~= s.drop_last().remove(k));
        assert(s.remove(k).last() == s.last());
    }
}

/// A sum does not depend on the order of its terms.
pub proof fn lemma_total_permuted(s: Seq<nat>, p: Seq<int>)
    requires
        permutes(p, s.len()),
    ensures
        total(Seq::new(s.len(), |k: int| s[p[k]])) == total(s),
    decreases s.len(),
{
    let n = s.len();
    let t = Seq::new(n, |k: int| s[p[k]]);
    if n > 0 {
        let k = lemma_permutes_hits(p, n, n - 1);
        lemma_total_remove(t, k);
        let q = p.remove(k);
        assert forall|i: int| 0 <= i < n - 1 implies 0 <= #[trigger] q[i] < n - 1 by {
            let j = if i < k {
                i
            } else {
                i + 1
            };
            assert(q[i] == p[j]);
            assert(p[j] != p[k]);
        }
        assert forall|i: int, j: int| 0 <= i < j < n - 1 implies q[i] != q[j] by {
            let a = if i < k {
                i
            } else {
                i + 1
            };
            let b = if j < k {
                j
            } else {
                j + 1
            };
            assert(q[i] == p[a] && q[j] == p[b]);
        }
        assert(permutes(q, (n - 1) as nat));
        lemma_total_permuted(s.drop_last(), q);
        assert(t.remove(k) =~= Seq::new((n - 1) as nat, |i: int| s.drop_last()[q[i]])) by {
            assert forall|i: int| 0 <= i < n - 1 implies t.remove(k)[i] == s.drop_last()[q[i]] by {
                assert(0 <= q[i] < n - 1);
            }
        }
    } else {
        assert(t =~= s);
    }
}

/// The positions of the keys, by rising key.
pub fn stable_order(keys: &Vec<i128>) -> (r: Vec<usize>)
    ensures
        ascends(keys@.map_values(|k: i128| k as int), places(r@)),
{
    let ghost ks = keys@.map_values(|k: i128| k as int);
    let mut r: Vec<usize> = Vec::new();
    let mut i: usize = 0;
    while i < keys.len()
        invariant
            ks == keys@.map_values(|k: i128| k as int),
            i <= keys@.len(),
            r@.len() == i,
            forall|a: int| 0 <= a < i ==> 0 <= #[trigger] r@[a] < i,
            forall|a: int, b: int| 0 <= a < b < i ==> r@[a] != r@[b],
            forall|a: int, b: int|
                #![trigger r@[a], r@[b]]
                0 <= a < b < i ==> keys@[r@[a] as int] < keys@[r@[b] as int] || (keys@[r@[a] as int]
                    == keys@[r@[b] as int] && r@[a] < r@[b]),
        decreases keys@.len() - i,
    {
        let mut j: usize = r.len();
        while j > 0 && keys[r[j - 1]] > keys[i]
            invariant
                i < keys@.len(),
                j <= r@.len(),
                r@.len() == i,
                forall|a: int| 0 <= a < i ==> 0 <= #[trigger] r@[a] < i,
                forall|a: int|
                    j <= a < i ==> keys@[#[trigger] r@[a] as int] > keys@[i as int],
            ensures
                j > 0 ==> keys@[r@[j - 1] as int] <= keys@[i as int],
            decreases j,
        {
            j = j - 1;
        }
        let ghost was = r@;
        r.insert(j, i);
        proof {
            assert forall|a: int, b: int|
                #![trigger r@[a], r@[b]]
                0 <= a < b < i + 1 implies keys@[r@[a] as int] < keys@[r@[b] as int] || (
            keys@[r@[a] as int] == keys@[r@[b] as int] && r@[a] < r@[b]) by {
                if a < j && b == j {
                    assert(r@[a] == was[a]);
                    assert(was[j - 1] == was[j - 1]);
                } else if a == j {
                    assert(r@[b] == was[b - 1]);
                } else {
                    let a0 = if a < j {
                        a
                    } else {
                        a - 1
                    };
                    let b0 = if b < j {
                        b
                    } else {
                        b - 1
                    };
                    assert(r@[a] == was[a0] && r@[b] == was[b0]);
                }
            }
            assert forall|a: int, b: int| 0 <= a < b < i + 1 implies r@[a] != r@[b] by {
                let a0 = if a < j {
                    a
                } else {
                    a - 1
                };
                let b0 = if b < j {
                    b
                } else {
                    b - 1
                };
                if a != j && b != j {
                    assert(r@[a] == was[a0] && r@[b] == was[b0]);
                } else if a == j {
                    assert(r@[b] == was[b0]);
                } else {
                    assert(r@[a] == was[a0]);
                }
            }
            assert forall|a: int| 0 <= a < i + 1 implies 0 <= #[trigger] r@[a] < i + 1 by {
                if a < j {
                    assert(r@[a] == was[a]);
                } else if a > j {
                    assert(r@[a] == was[a - 1]);
                }
            }
        }
        i = i + 1;
    }
    proof {
        let p = places(r@);
        assert forall|a: int, b: int|
            #![trigger p[a], p[b]]
            0 <= a < b < p.len() implies ks[p[a]] < ks[p[b]] || (ks[p[a]] == ks[p[b]] && p[a]
            < p[b]) by {
            assert(p[a] == r@[a] && p[b] == r@[b]);
        }
        assert forall|a: int| 0 <= a < ks.len() implies 0 <= #[trigger] p[a] < ks.len() by {
            assert(p[a] == r@[a]);
        }
        assert forall|a: int, b: int| 0 <= a < b < ks.len() implies p[a] != p[b] by {
            assert(p[a] == r@[a] && p[b] == r@[b]);
        }
    }
    r
}

/// `p` lists the positions of `keys` by rising number (falling, where
/// `descending`), equal numbers in the order in which they stand.
pub open spec fn ordered(keys: Seq<Scalar>, descending: bool, p: Seq<int>) -> bool {
    ascends(
        keys.map_values(
            |k: Scalar|
                if descending {
                    -k.value()
                } else {
                    k.value()
                },
        ),
        p,
    )
}

/// The positions of the keys, by rising number, or by falling number.
pub fn order_by_number(keys: &Vec<Scalar>, descending: bool) -> (r: Vec<usize>)
    requires
        forall|i: int| 0 <= i < keys@.len() ==> !(#[trigger] keys@[i]).nan(),
    ensures
        ordered(keys@, descending, places(r@)),
{
    let mut ranks: Vec<i128> = Vec::new();
    let mut i: usize = 0;
    while i < keys.len()
        invariant
            i <= keys@.len(),
            ranks@.len() == i,
            forall|j: int|
                0 <= j < i ==> #[trigger] ranks@[j] == (if descending {
                    -keys@[j].rank_of()
                } else {
                    keys@[j].rank_of()
                }),
        decreases keys@.len() - i,
    {
        let rank: i128 = keys[i].rank() as i128;
        ranks.push(if descending { -rank } else { rank });
        i = i + 1;
    }
    let r = stable_order(&ranks);
    proof {
        let p = places(r@);
        let rs = ranks@.map_values(|k: i128| k as int);
        let vs = keys@.map_values(
            |k: Scalar|
                if descending {
                    -k.value()
                } else {
                    k.value()
                },
        );
        assert forall|a: int, b: int|
            #![trigger p[a], p[b]]
            0 <= a < b < p.len() implies vs[p[a]] < vs[p[b]] || (vs[p[a]] == vs[p[b]] && p[a]
            < p[b]) by {
            scalar::lemma_value_order(keys@[p[a]], keys@[p[b]]);
            scalar::lemma_value_order(keys@[p[b]], keys@[p[a]]);
            assert(rs[p[a]] == ranks@[p[a]] && rs[p[b]] == ranks@[p[b]]);
        }
    }
    r
}

} // verus!
