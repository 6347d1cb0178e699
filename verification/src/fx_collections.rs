//! The hash collections of the key/value box, which use the `rustc-hash` hasher.
//!
//! Each collection sits in a struct whose inside Verus does not see; what it holds is
//! named by a specification function, and every method the box calls states what it
//! does to that.
use crate::kv_value::{KVItem, KVItemView};
use rustc_hash::{FxHashMap, FxHashSet};
use vstd::prelude::*;

verus! {

/// The string-keyed entries of the key/value box, in an `FxHashMap<String, KVItem>`.
#[verifier::external_body]
pub struct StringItemMap {
    map: FxHashMap<String, KVItem>,
}

/// What a string-keyed entry map holds: the characters of each key to the contents of its entry.
pub uninterp spec fn string_item_entries(m: StringItemMap) -> Map<Seq<char>, KVItemView>;

impl StringItemMap {
    /// Calls `FxHashMap::default`, which builds an empty map.
    #[verifier::external_body]
    pub(crate) fn new() -> (r: Self)
        ensures
            string_item_entries(r).dom() == Set::<Seq<char>>::empty(),
    {
        StringItemMap { map: FxHashMap::default() }
    }

    /// Calls `HashMap::reserve`, which only makes room: the entries stay.
    #[verifier::external_body]
    pub(crate) fn reserve(&mut self, additional: usize)
        ensures
            string_item_entries(*final(self)) == string_item_entries(*old(self)),
    {
        self.map.reserve(additional)
    }

    /// Calls `HashMap::get` with the key as a `&str`: the entry under an equal key, if any.
    #[verifier::external_body]
    pub(crate) fn get(&self, key: &str) -> (r: Option<&KVItem>)
        ensures
            match r {
                Some(item) => string_item_entries(*self).contains_key(key@) && string_item_entries(
                    *self,
                )[key@] == item@,
                None => !string_item_entries(*self).contains_key(key@),
            },
    {
        self.map.get(key)
    }

    /// Calls `HashMap::insert`: `item` goes under `key`, replacing what was there.
    #[verifier::external_body]
    pub(crate) fn insert(&mut self, key: String, item: KVItem)
        ensures
            string_item_entries(*final(self)) == string_item_entries(*old(self)).insert(key@, item@),
    {
        self.map.insert(key, item);
    }

    /// Calls `HashMap::len`: the number of keys.
    #[verifier::external_body]
    pub(crate) fn len(&self) -> (r: usize)
        ensures
            r == string_item_entries(*self).len(),
    {
        self.map.len()
    }

    /// Calls `HashMap::clear`, which removes every entry.
    #[verifier::external_body]
    pub(crate) fn clear(&mut self)
        ensures
            string_item_entries(*final(self)).dom() == Set::<Seq<char>>::empty(),
    {
        self.map.clear()
    }
}

/// The numeric keys that the key/value box keeps among its string keys, in an `FxHashSet<u64>`.
#[verifier::external_body]
pub struct NumericKeySet {
    set: FxHashSet<u64>,
}

/// What a numeric key set holds.
pub uninterp spec fn numeric_key_members(s: NumericKeySet) -> Set<u64>;

impl NumericKeySet {
    /// Calls `FxHashSet::default`, which builds an empty set.
    #[verifier::external_body]
    pub(crate) fn new() -> (r: Self)
        ensures
            numeric_key_members(r) == Set::<u64>::empty(),
    {
        NumericKeySet { set: FxHashSet::default() }
    }

    /// Calls `HashSet::contains`.
    #[verifier::external_body]
    pub(crate) fn contains(&self, key: u64) -> (r: bool)
        ensures
            r == numeric_key_members(*self).contains(key),
    {
        self.set.contains(&key)
    }

    /// Calls `HashSet::insert`.
    #[verifier::external_body]
    pub(crate) fn insert(&mut self, key: u64)
        ensures
            numeric_key_members(*final(self)) == numeric_key_members(*old(self)).insert(key),
    {
        self.set.insert(key);
    }

    /// Calls `HashSet::remove`.
    #[verifier::external_body]
    pub(crate) fn remove(&mut self, key: u64)
        ensures
            numeric_key_members(*final(self)) == numeric_key_members(*old(self)).remove(key),
    {
        self.set.remove(&key);
    }

    /// Calls `HashSet::clear`, which removes every member.
    #[verifier::external_body]
    pub(crate) fn clear(&mut self)
        ensures
            numeric_key_members(*final(self)) == Set::<u64>::empty(),
    {
        self.set.clear()
    }
}

} // verus!
