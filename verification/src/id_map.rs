//! Hash maps keyed by node ids and by names.
//!
//! Both wrap the `HashMap` of `bevy::platform::collections`. What a map holds
//! is its view, a mathematical map.

use bevy::platform::collections::HashMap;
use vstd::prelude::*;

verus! {

/// The hash map of `bevy::platform::collections`, as an opaque type.
#[verifier::external_type_specification]
#[verifier::external_body]
#[verifier::reject_recursive_types(K)]
#[verifier::reject_recursive_types(V)]
#[verifier::reject_recursive_types(S)]
pub struct ExHashMap<K, V, S>(HashMap<K, V, S>);

/// The hasher of `bevy::platform::hash` that the maps use, as an opaque type.
#[verifier::external_type_specification]
#[verifier::external_body]
pub struct ExFixedHasher(bevy::platform::hash::FixedHasher);

/// The entries of a map from ids to numbers.
pub uninterp spec fn id_entries(map: HashMap<u64, u64>) -> Map<u64, u64>;

/// The entries of a map from names to numbers.
pub uninterp spec fn name_entries(map: HashMap<String, u64>) -> Map<Seq<char>, u64>;

/// `HashMap::default`: the new map holds no entry.
#[verifier::external_body]
fn id_map_default() -> (r: HashMap<u64, u64>)
    ensures
        id_entries(r).dom() == Set::<u64>::empty(),
{
    HashMap::default()
}

/// `HashMap::insert`: the key now has the value, whatever it had before; other
/// keys keep theirs.
#[verifier::external_body]
fn id_map_insert(map: &mut HashMap<u64, u64>, key: u64, value: u64)
    ensures
        id_entries(*final(map)) == id_entries(*old(map)).insert(key, value),
{
    map.insert(key, value);
}

/// `HashMap::get`: the value of the key, if it has one.
#[verifier::external_body]
fn id_map_get(map: &HashMap<u64, u64>, key: u64) -> (r: Option<u64>)
    ensures
        r == (if id_entries(*map).dom().contains(key) {
            Some(id_entries(*map)[key])
        } else {
            None
        }),
{
    map.get(&key).copied()
}

/// `HashMap::remove`: the key has no value any more; other keys keep theirs.
#[verifier::external_body]
fn id_map_remove(map: &mut HashMap<u64, u64>, key: u64)
    ensures
        id_entries(*final(map)) == id_entries(*old(map)).remove(key),
{
    map.remove(&key);
}

/// `HashMap::default`: the new map holds no entry.
#[verifier::external_body]
fn name_map_default() -> (r: HashMap<String, u64>)
    ensures
        name_entries(r).dom() == Set::<Seq<char>>::empty(),
{
    HashMap::default()
}

/// `HashMap::insert`: the name now has the value, whatever it had before; other
/// names keep theirs.
#[verifier::external_body]
fn name_map_insert(map: &mut HashMap<String, u64>, name: String, value: u64)
    ensures
        name_entries(*final(map)) == name_entries(*old(map)).insert(name@, value),
{
    map.insert(name, value);
}

/// `HashMap::get`: the value of the name, if it has one.
#[verifier::external_body]
fn name_map_get(map: &HashMap<String, u64>, name: &str) -> (r: Option<u64>)
    ensures
        r == (if name_entries(*map).dom().contains(name@) {
            Some(name_entries(*map)[name@])
        } else {
            None
        }),
{
    map.get(name).copied()
}

/// The value that a map gives for a key.
pub open spec fn found<K, V>(map: Map<K, V>, key: K) -> Option<V> {
    if map.dom().contains(key) {
        Some(map[key])
    } else {
        None
    }
}

/// A map from ids to numbers.
pub struct IdMap {
    map: HashMap<u64, u64>,
}

impl View for IdMap {
    type V = Map<u64, u64>;

    closed spec fn view(&self) -> Map<u64, u64> {
        id_entries(self.map)
    }
}

impl IdMap {
    pub fn new() -> (r: Self)
        ensures
            r@ == Map::<u64, u64>::empty(),
    {
        let r = IdMap { map: id_map_default() };
        assert(r@ =~= Map::<u64, u64>::empty());
        r
    }

    pub fn insert(&mut self, key: u64, value: u64)
        ensures
            final(self)@ == old(self)@.insert(key, value),
    {
        id_map_insert(&mut self.map, key, value);
    }

    pub fn get(&self, key: u64) -> (r: Option<u64>)
        ensures
            r == found(self@, key),
    {
        id_map_get(&self.map, key)
    }

    pub fn remove(&mut self, key: u64)
        ensures
            final(self)@ == old(self)@.remove(key),
    {
        id_map_remove(&mut self.map, key);
    }
}

/// A map from names to numbers.
pub struct NameMap {
    map: HashMap<String, u64>,
}

impl View for NameMap {
    type V = Map<Seq<char>, u64>;

    closed spec fn view(&self) -> Map<Seq<char>, u64> {
        name_entries(self.map)
    }
}

impl NameMap {
    pub fn new() -> (r: Self)
        ensures
            r@ == Map::<Seq<char>, u64>::empty(),
    {
        let r = NameMap { map: name_map_default() };
        assert(r@ =~= Map::<Seq<char>, u64>::empty());
        r
    }

    pub fn insert(&mut self, name: String, value: u64)
        ensures
            final(self)@ == old(self)@.insert(name@, value),
    {
        name_map_insert(&mut self.map, name, value);
    }

    pub fn get(&self, name: &str) -> (r: Option<u64>)
        ensures
            r == found(self@, name@),
    {
        name_map_get(&self.map, name)
    }
}

} // verus!
