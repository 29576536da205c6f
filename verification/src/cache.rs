//! Caches that fill on demand and never change what they hold.

use vstd::prelude::*;
use std::collections::HashMap;
use std::hash::Hash;

verus! {

broadcast use vstd::std_specs::hash::group_hash_axioms;

/// A cache for one value, empty until the value is first asked for.
pub struct SimpleCache<T> {
    /// `None` while nothing has been computed.
    data: Option<T>,
}

impl<T> View for SimpleCache<T> {
    type V = Option<T>;

    closed spec fn view(&self) -> Option<T> {
        self.data
    }
}

impl<T> SimpleCache<T> {
    /// An empty cache.
    pub fn new() -> (c: Self)
        ensures
            c@ is None,
    {
        SimpleCache { data: None }
    }

    /// The cached value, if there is one.
    pub fn get(&self) -> (r: Option<&T>)
        ensures
            match r {
                Some(v) => self@ == Some(*v),
                None => self@ is None,
            },
    {
        self.data.as_ref()
    }

    /// The cached value; if there is none, the value that `f` computes,
    /// which the cache then holds.
    pub fn get_or_insert_with<F: FnOnce() -> T>(&mut self, f: F) -> (r: &T)
        requires
            old(self)@ is None ==> f.requires(()),
        ensures
            final(self)@ == Some(*r),
            old(self)@ is Some ==> final(self)@ == old(self)@,
            old(self)@ is None ==> f.ensures((), *r),
    {
        if self.data.is_none() {
            let value = f();
            self.data = Some(value);
        }
        self.data.as_ref().unwrap()
    }
}

/// A cache for one value per key, empty until a value is first asked for.
pub struct MappingCache<K, V> {
    /// Holds a value for each key that was asked for.
    map: HashMap<K, V>,
}

impl<K, V> View for MappingCache<K, V> {
    type V = Map<K, V>;

    closed spec fn view(&self) -> Map<K, V> {
        self.map@
    }
}

impl<K: Eq + Hash + Copy, V> MappingCache<K, V> {
    /// An empty cache.
    pub fn new() -> (c: Self)
        ensures
            c@ == Map::<K, V>::empty(),
    {
        MappingCache { map: HashMap::new() }
    }

    /// Whether the cache holds a value for `key`.
    pub fn contains_key(&self, key: &K) -> (r: bool)
        requires
            vstd::std_specs::hash::obeys_key_model::<K>(),
        ensures
            r == self@.contains_key(*key),
    {
        self.map.contains_key(key)
    }

    /// The value cached for `key`, if there is one.
    pub fn get(&self, key: &K) -> (r: Option<&V>)
        requires
            vstd::std_specs::hash::obeys_key_model::<K>(),
        ensures
            match r {
                Some(v) => self@.contains_key(*key) && self@[*key] == *v,
                None => !self@.contains_key(*key),
            },
    {
        self.map.get(key)
    }

    /// The value cached for `key`; if there is none, the value that `f`
    /// computes, which the cache then holds for `key`.
    pub fn get_or_insert_with<F: FnOnce() -> V>(&mut self, key: &K, f: F) -> (r: &V)
        requires
            vstd::std_specs::hash::obeys_key_model::<K>(),
            !old(self)@.contains_key(*key) ==> f.requires(()),
        ensures
            final(self)@.contains_key(*key),
            final(self)@[*key] == *r,
            old(self)@.contains_key(*key) ==> final(self)@ == old(self)@,
            !old(self)@.contains_key(*key) ==> f.ensures((), *r) && final(self)@ == old(self)@.insert(*key, *r),
    {
        if !self.map.contains_key(key) {
            let value = f();
            self.map.insert(*key, value);
        }
        self.map.get(key).unwrap()
    }
}

} // verus!

verus! {

/// `Rc::clone`: another handle to the value that `handle` leads to.  The
/// contract claims that the two handles lead to one value.
#[verifier::external_body]
pub(crate) fn share<T>(handle: &std::rc::Rc<T>) -> (r: std::rc::Rc<T>)
    ensures
        r == *handle,
{
    std::rc::Rc::clone(handle)
}

} // verus!
