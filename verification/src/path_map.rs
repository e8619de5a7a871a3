//! Hash maps and hash sets whose keys are paths.

use crate::model::Model;
use crate::outside::nibbles_of;
use alloy_primitives::map::{DefaultHashBuilder, HashMap, HashSet};
use alloy_trie::Nibbles;
use vstd::prelude::*;

verus! {

/// The hasher that `alloy_primitives::map` uses.
#[verifier::external_type_specification]
#[verifier::external_body]
pub struct ExDefaultHashBuilder(DefaultHashBuilder);

/// What a hash map from paths holds, by the nibbles of the paths.
pub open spec fn entries<V: Model>(map: Map<Nibbles, V>) -> Map<Seq<u8>, V::M> {
    Map::new(
        |p: Seq<u8>| exists|k: Nibbles| #[trigger] map.contains_key(k) && nibbles_of(k) == p,
        |p: Seq<u8>|
            map[choose|k: Nibbles| #[trigger] map.contains_key(k) && nibbles_of(k) == p].model(),
    )
}

/// What a hash set of paths holds, by the nibbles of the paths.
pub open spec fn members(set: Set<Nibbles>) -> Set<Seq<u8>> {
    Set::new(|p: Seq<u8>| exists|k: Nibbles| #[trigger] set.contains(k) && nibbles_of(k) == p)
}

/// `HashMap::default` holds nothing.
#[verifier::external_body]
fn empty_map<V: Model>() -> (made: HashMap<Nibbles, V>)
    ensures
        entries(made@).dom() == Set::<Seq<u8>>::empty(),
{
    HashMap::default()
}

/// `HashMap::get` looks up the value of a key.
#[verifier::external_body]
fn map_get<'a, V: Model>(map: &'a HashMap<Nibbles, V>, key: &Nibbles) -> (value: Option<&'a V>)
    ensures
        match value {
            Some(v) => entries(map@).contains_key(nibbles_of(*key)) && v.model() == entries(
                map@,
            )[nibbles_of(*key)],
            None => !entries(map@).contains_key(nibbles_of(*key)),
        },
{
    map.get(key)
}

/// `HashMap::get_mut` gives access to the value of a key; nothing else changes.
#[verifier::external_body]
fn map_get_mut<'a, V: Model>(map: &'a mut HashMap<Nibbles, V>, key: &Nibbles) -> (value: Option<
    &'a mut V,
>)
    ensures
        match value {
            Some(v) => entries(old(map)@).contains_key(nibbles_of(*key)) && v.model() == entries(
                old(map)@,
            )[nibbles_of(*key)] && entries(final(map)@) == entries(old(map)@).insert(
                nibbles_of(*key),
                final(v).model(),
            ),
            None => !entries(old(map)@).contains_key(nibbles_of(*key)) && entries(final(map)@)
                == entries(old(map)@),
        },
{
    map.get_mut(key)
}

/// `HashMap::insert` sets the value of a key.
#[verifier::external_body]
fn map_insert<V: Model>(map: &mut HashMap<Nibbles, V>, key: Nibbles, value: V)
    ensures
        entries(final(map)@) == entries(old(map)@).insert(nibbles_of(key), value.model()),
{
    map.insert(key, value);
}

/// `HashMap::remove` drops a key and gives its value.
#[verifier::external_body]
fn map_remove<V: Model>(map: &mut HashMap<Nibbles, V>, key: &Nibbles) -> (value: Option<V>)
    ensures
        entries(final(map)@) == entries(old(map)@).remove(nibbles_of(*key)),
        match value {
            Some(v) => entries(old(map)@).contains_key(nibbles_of(*key)) && v.model() == entries(
                old(map)@,
            )[nibbles_of(*key)],
            None => !entries(old(map)@).contains_key(nibbles_of(*key)),
        },
{
    map.remove(key)
}

/// `HashMap::extend` takes over the entries of another map, also for keys that have a value.
#[verifier::external_body]
fn map_extend<V: Model>(map: &mut HashMap<Nibbles, V>, other: HashMap<Nibbles, V>)
    ensures
        entries(final(map)@) == entries(old(map)@).union_prefer_right(entries(other@)),
{
    map.extend(other);
}

/// `HashSet::default` holds nothing.
#[verifier::external_body]
fn empty_set() -> (made: HashSet<Nibbles>)
    ensures
        members(made@) == Set::<Seq<u8>>::empty(),
{
    HashSet::default()
}

/// `HashSet::contains` tells whether a path is in the set.
#[verifier::external_body]
fn set_contains(set: &HashSet<Nibbles>, path: &Nibbles) -> (yes: bool)
    ensures
        yes == members(set@).contains(nibbles_of(*path)),
{
    set.contains(path)
}

/// `HashSet::insert` adds a path.
#[verifier::external_body]
fn set_insert(set: &mut HashSet<Nibbles>, path: Nibbles)
    ensures
        members(final(set)@) == members(old(set)@).insert(nibbles_of(path)),
{
    set.insert(path);
}

/// `HashSet::extend` adds the paths of another set.
#[verifier::external_body]
fn set_extend(set: &mut HashSet<Nibbles>, other: HashSet<Nibbles>)
    ensures
        members(final(set)@) == members(old(set)@).union(members(other@)),
{
    set.extend(other);
}

/// A hash map whose keys are paths.
#[derive(Clone, PartialEq, Eq, Debug)]
pub struct PathMap<V> {
    map: HashMap<Nibbles, V>,
}

impl<V: Model> PathMap<V> {
    /// The entries of the map.
    pub closed spec fn view(&self) -> Map<Seq<u8>, V::M> {
        entries(self.map@)
    }

    /// Creates a map without entries.
    pub fn new() -> (map: Self)
        ensures
            map@ == Map::<Seq<u8>, V::M>::empty(),
    {
        PathMap { map: empty_map() }
    }

    /// Returns the value of a path.
    pub fn get(&self, path: &Nibbles) -> (value: Option<&V>)
        ensures
            match value {
                Some(v) => self@.contains_key(path.model()) && v.model() == self@[path.model()],
                None => !self@.contains_key(path.model()),
            },
    {
        map_get(&self.map, path)
    }

    /// Returns true if a path has a value.
    pub fn contains_key(&self, path: &Nibbles) -> (yes: bool)
        ensures
            yes == self@.contains_key(path.model()),
    {
        self.get(path).is_some()
    }

    /// Returns the value of a path for changing it.
    pub fn get_mut(&mut self, path: &Nibbles) -> (value: Option<&mut V>)
        ensures
            match value {
                Some(v) => old(self)@.contains_key(path.model()) && v.model()
                    == old(self)@[path.model()] && final(self)@ == old(self)@.insert(
                    path.model(),
                    final(v).model(),
                ),
                None => !old(self)@.contains_key(path.model()) && final(self)@ == old(self)@,
            },
    {
        map_get_mut(&mut self.map, path)
    }

    /// Sets the value of a path.
    pub fn insert(&mut self, path: Nibbles, value: V)
        ensures
            final(self)@ == old(self)@.insert(path.model(), value.model()),
    {
        map_insert(&mut self.map, path, value);
    }

    /// Drops a path and returns its value.
    pub fn remove(&mut self, path: &Nibbles) -> (value: Option<V>)
        ensures
            final(self)@ == old(self)@.remove(path.model()),
            match value {
                Some(v) => old(self)@.contains_key(path.model()) && v.model()
                    == old(self)@[path.model()],
                None => !old(self)@.contains_key(path.model()),
            },
    {
        map_remove(&mut self.map, path)
    }

    /// Takes over the entries of another map, also for paths that have a value.
    pub fn extend(&mut self, other: Self)
        ensures
            final(self)@ == old(self)@.union_prefer_right(other@),
    {
        map_extend(&mut self.map, other.map);
    }
}

/// `HashSet::clone` holds the same paths.
#[verifier::external_body]
fn copy_set(set: &HashSet<Nibbles>) -> (copy: HashSet<Nibbles>)
    ensures
        members(copy@) == members(set@),
{
    set.clone()
}

/// A hash set of paths.
#[derive(PartialEq, Eq, Debug)]
pub struct PathSet {
    set: HashSet<Nibbles>,
}

impl Clone for PathSet {
    fn clone(&self) -> (copy: Self)
        ensures
            copy@ == self@,
    {
        PathSet { set: copy_set(&self.set) }
    }
}

impl PathSet {
    /// The paths in the set.
    pub closed spec fn view(&self) -> Set<Seq<u8>> {
        members(self.set@)
    }

    /// Creates a set without paths.
    pub fn new() -> (set: Self)
        ensures
            set@ == Set::<Seq<u8>>::empty(),
    {
        PathSet { set: empty_set() }
    }

    /// Returns true if the path is in the set.
    pub fn contains(&self, path: &Nibbles) -> (yes: bool)
        ensures
            yes == self@.contains(path.model()),
    {
        set_contains(&self.set, path)
    }

    /// Adds a path.
    pub fn insert(&mut self, path: Nibbles)
        ensures
            final(self)@ == old(self)@.insert(path.model()),
    {
        set_insert(&mut self.set, path);
    }

    /// Adds the paths of another set.
    pub fn extend(&mut self, other: Self)
        ensures
            final(self)@ == old(self)@.union(other@),
    {
        set_extend(&mut self.set, other.set);
    }
}

}
