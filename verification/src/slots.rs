//! A map from ids to values of any type.

use crate::id_map::IdMap;
use vstd::prelude::*;

verus! {

/// A map from ids to values.
pub struct Slots<V> {
    values: Vec<V>,
    index: IdMap,
}

impl<V> View for Slots<V> {
    type V = Map<u64, V>;

    closed spec fn view(&self) -> Map<u64, V> {
        Map::new(
            |k: u64| self.index@.dom().contains(k),
            |k: u64| self.values@[self.index@[k] as int],
        )
    }
}

impl<V> Slots<V> {
    /// Every id has a slot of its own.
    pub closed spec fn wf(&self) -> bool {
        &&& forall|k: u64| #[trigger]
            self.index@.dom().contains(k) ==> self.index@[k] < self.values@.len()
        &&& forall|j: u64, k: u64|
            #![trigger self.index@.dom().contains(j), self.index@.dom().contains(k)]
            self.index@.dom().contains(j) && self.index@.dom().contains(k) && j != k
                ==> self.index@[j] != self.index@[k]
    }

    pub fn new() -> (r: Self)
        ensures
            r.wf(),
            r@ == Map::<u64, V>::empty(),
    {
        let r = Slots { values: Vec::new(), index: IdMap::new() };
        assert(r@ =~= Map::<u64, V>::empty());
        r
    }

    /// The value of an id, if it has one.
    pub fn get(&self, id: u64) -> (r: Option<&V>)
        requires
            self.wf(),
        ensures
            r is Some <==> self@.dom().contains(id),
            r matches Some(v) ==> *v == self@[id],
    {
        match self.index.get(id) {
            Some(at) => {
                let n: usize = self.values.len();
                assert(at < n);
                Some(&self.values[at as usize])
            },
            None => None,
        }
    }

    /// Gives an id a value, in place of any that it had.
    pub fn set(&mut self, id: u64, value: V)
        requires
            old(self).wf(),
        ensures
            final(self).wf(),
            final(self)@ == old(self)@.insert(id, value),
    {
        let ghost before = self@;
        let ghost index = self.index@;
        let n: usize = self.values.len();
        match self.index.get(id) {
            Some(at) => {
                assert(at < n);
                self.values.set(at as usize, value);
            },
            None => {
                self.index.insert(id, n as u64);
                self.values.push(value);
            },
        }
        proof {
            assert forall|k: u64| before.insert(id, value).dom().contains(k) implies self@[k]
                == #[trigger] before.insert(id, value)[k] by {
                if k != id {
                    assert(index.dom().contains(k));
                }
            }
            assert(self@ =~= before.insert(id, value));
        }
    }

    /// Takes the value of an id away.
    pub fn remove(&mut self, id: u64)
        requires
            old(self).wf(),
        ensures
            final(self).wf(),
            final(self)@ == old(self)@.remove(id),
    {
        let ghost before = self@;
        self.index.remove(id);
        assert(self@ =~= before.remove(id));
    }
}

} // verus!
