//! Values found by name.
use vstd::hash_map::StringHashMap;
use vstd::prelude::*;

verus! {

/// A value for each of some names.
#[verifier::reject_recursive_types(V)]
pub struct NameMap<V> {
    values: StringHashMap<V>,
}

impl<V> View for NameMap<V> {
    type V = Map<Seq<char>, V>;

    closed spec fn view(&self) -> Map<Seq<char>, V> {
        self.values@
    }
}

impl<V> NameMap<V> {
    /// The map of no names.
    pub fn new() -> (map: NameMap<V>)
        ensures
            map@ == Map::<Seq<char>, V>::empty(),
    {
        NameMap { values: StringHashMap::new() }
    }

    /// The value of a name.
    pub fn get(&self, name: &String) -> (value: Option<&V>)
        ensures
            value == if self@.contains_key(name@) {
                Some(&self@[name@])
            } else {
                None
            },
    {
        self.values.get(name.as_str())
    }

    /// Gives a name a value, in place of the one it may have had.
    pub fn insert(&mut self, name: String, value: V)
        ensures
            final(self)@ == old(self)@.insert(name@, value),
    {
        self.values.insert(name, value);
    }
}

} // verus!
