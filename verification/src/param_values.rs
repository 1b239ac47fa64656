//! Values of params, by param UUID.

use crate::id_map::IdMap;
use crate::scalar::Scalar;
use vstd::prelude::*;

verus! {

/// A map from param UUIDs to values [x, y].
pub struct ParamValues {
    keys: Vec<u32>,
    values: Vec<[Scalar; 2]>,
    index: IdMap,
}

impl View for ParamValues {
    type V = Map<u32, [Scalar; 2]>;

    closed spec fn view(&self) -> Map<u32, [Scalar; 2]> {
        Map::new(
            |k: u32| self.index@.dom().contains(k as u64),
            |k: u32| self.values@[self.index@[k as u64] as int],
        )
    }
}

impl ParamValues {
    #[verifier::type_invariant]
    spec fn linked(self) -> bool {
        &&& self.keys@.len() == self.values@.len()
        &&& forall|i: int|
            0 <= i < self.keys@.len() ==> self.index@.dom().contains(#[trigger] self.keys@[i] as u64)
                && self.index@[self.keys@[i] as u64] == i
        &&& forall|k: u64| #[trigger]
            self.index@.dom().contains(k) ==> self.index@[k] < self.keys@.len()
                && self.keys@[self.index@[k] as int] == k
    }

    /// The UUIDs that have a value, in the order in which they got one.
    pub closed spec fn order(&self) -> Seq<u32> {
        self.keys@
    }

    pub fn new() -> (r: Self)
        ensures
            r@ == Map::<u32, [Scalar; 2]>::empty(),
            r.order() == Seq::<u32>::empty(),
    {
        let r = ParamValues { keys: Vec::new(), values: Vec::new(), index: IdMap::new() };
        assert(r@ =~= Map::<u32, [Scalar; 2]>::empty());
        r
    }

    pub fn get(&self, key: u32) -> (r: Option<[Scalar; 2]>)
        ensures
            r == crate::id_map::found(self@, key),
    {
        proof {
            use_type_invariant(self);
        }
        match self.index.get(key as u64) {
            Some(at) => {
                assert(self.index@.dom().contains(key as u64));
                assert(at < self.values.len());
                Some(self.values[at as usize])
            },
            None => None,
        }
    }

    /// How many UUIDs have a value. They are listed once each.
    pub fn len(&self) -> (r: usize)
        ensures
            r == self.order().len(),
            forall|k: u32| self@.dom().contains(k) <==> self.order().contains(k),
            self.order().no_duplicates(),
    {
        proof {
            use_type_invariant(self);
            assert forall|k: u32| self@.dom().contains(k) <==> self.order().contains(k) by {
                if self@.dom().contains(k) {
                    let i = self.index@[k as u64] as int;
                    assert(self.index@.dom().contains(k as u64));
                    assert(self.keys@[i] == k);
                }
                if self.order().contains(k) {
                    let i = self.order().index_of(k);
                    assert(self.keys@[i] == k);
                }
            }
            assert forall|i: int, j: int|
                0 <= i < self.keys@.len() && 0 <= j < self.keys@.len() && i
                    != j implies self.keys@[i] != self.keys@[j] by {
                assert(self.index@[self.keys@[i] as u64] == i);
                assert(self.index@[self.keys@[j] as u64] == j);
            }
        }
        self.keys.len()
    }

    /// The UUID that was the `i`-th to get a value.
    pub fn key(&self, i: usize) -> (r: u32)
        requires
            i < self.order().len(),
        ensures
            r == self.order()[i as int],
            self@.dom().contains(r),
    {
        proof {
            use_type_invariant(self);
        }
        self.keys[i]
    }

    /// Gives a UUID a value, in place of an earlier one.
    pub fn insert(self, key: u32, value: [Scalar; 2]) -> (r: Self)
        ensures
            r@ == self@.insert(key, value),
            r.order() == (if self@.dom().contains(key) {
                self.order()
            } else {
                self.order().push(key)
            }),
    {
        proof {
            use_type_invariant(&self);
        }
        let ghost before = self@;
        let mut keys = self.keys;
        let mut values = self.values;
        let mut index = self.index;
        match index.get(key as u64) {
            Some(at) => {
                assert(index@.dom().contains(key as u64));
                assert(at < values.len());
                values.set(at as usize, value);
            },
            None => {
                let at: usize = keys.len();
                index.insert(key as u64, at as u64);
                keys.push(key);
                values.push(value);
            },
        }
        let r = ParamValues { keys, values, index };
        assert(r@ =~= before.insert(key, value)) by {
            assert forall|k: u32| before.dom().contains(k) && k != key implies r@[k]
                == before[k] by {
                assert(self.index@.dom().contains(k as u64));
                let i = self.index@[k as u64] as int;
                assert(self.keys@[i] == k);
                if self.index@.dom().contains(key as u64) {
                    assert(self.keys@[self.index@[key as u64] as int] == key);
                }
            }
        }
        r
    }
}

/// Current value of each param of a puppet.
pub struct InxParamState {
    /// UUID to current value [x, y] (y = 0 for scalars).
    pub values: ParamValues,
}

} // verus!
