//! The insertion-ordered map that holds the fields of an object.
use vstd::prelude::*;
use crate::value::model::{index_of, lookup, put, Entries};
use crate::value::pql::PqlValue;

verus! {

/// The fields of an object: an `indexmap::IndexMap` from key to value.
///
/// The map is opaque to the verifier. What it holds is named by
/// [`object_entries`], and the functions below state what the map's own
/// methods do to those entries.
#[verifier::external_body]
#[derive(Debug)]
pub struct ObjectMap {
    inner: indexmap::IndexMap<String, PqlValue>,
}

/// The entries of the map, in insertion order, each value by its view.
pub uninterp spec fn object_entries(m: ObjectMap) -> Entries;

impl View for ObjectMap {
    type V = Entries;

    open spec fn view(&self) -> Entries {
        object_entries(*self)
    }
}

/// `IndexMap::clone`: the copy holds the same entries in the same order.
#[verifier::external_body]
pub(crate) fn object_clone(m: &ObjectMap) -> (r: ObjectMap)
    ensures
        object_entries(r) == object_entries(*m),
{
    ObjectMap { inner: m.inner.clone() }
}

impl Clone for ObjectMap {
    fn clone(&self) -> (r: Self)
        ensures
            r@ == self@,
    {
        object_clone(self)
    }
}

/// `IndexMap::new`: a map without entries.
#[verifier::external_body]
pub(crate) fn object_new() -> (m: ObjectMap)
    ensures
        object_entries(m) == Seq::<(Seq<char>, crate::value::model::Value)>::empty(),
{
    ObjectMap { inner: indexmap::IndexMap::new() }
}

/// `IndexMap::len`: the number of entries.
#[verifier::external_body]
pub(crate) fn object_len(m: &ObjectMap) -> (n: usize)
    ensures
        n == object_entries(*m).len(),
{
    m.inner.len()
}

/// `IndexMap::get`: the value stored under `key`, if the map has that key.
#[verifier::external_body]
pub(crate) fn object_get<'a>(m: &'a ObjectMap, key: &str) -> (r: Option<&'a PqlValue>)
    ensures
        match r {
            Some(v) => lookup(object_entries(*m), key@) == Some(v@),
            None => lookup(object_entries(*m), key@) is None,
        },
{
    m.inner.get(key)
}

/// `IndexMap::get_index`: the entry at position `i` in insertion order,
/// `None` when `i` is not below the number of entries. A map holds a key
/// once, so no earlier entry has the key of the entry that is returned.
#[verifier::external_body]
pub(crate) fn object_get_index<'a>(m: &'a ObjectMap, i: usize) -> (r: Option<(&'a String, &'a PqlValue)>)
    ensures
        match r {
            Some((k, v)) => i < object_entries(*m).len() && object_entries(*m)[i as int] == (k@, v@)
                && index_of(object_entries(*m), k@) == i,
            None => i >= object_entries(*m).len(),
        },
{
    m.inner.get_index(i)
}

/// `IndexMap::insert`: an entry with an equal key keeps its place and
/// takes the new value; otherwise the pair becomes the last entry.
#[verifier::external_body]
pub(crate) fn object_insert(m: &mut ObjectMap, key: String, value: PqlValue)
    ensures
        object_entries(*final(m)) == put(object_entries(*old(m)), key@, value@),
{
    m.inner.insert(key, value);
}

impl ObjectMap {
    /// A map without entries.
    pub fn new() -> (m: ObjectMap)
        ensures
            m@ == Seq::<(Seq<char>, crate::value::model::Value)>::empty(),
    {
        object_new()
    }

    /// The number of entries.
    pub fn len(&self) -> (n: usize)
        ensures
            n == self@.len(),
    {
        object_len(self)
    }

    /// The value stored under `key`, if the map has that key.
    pub fn get(&self, key: &str) -> (r: Option<&PqlValue>)
        ensures
            match r {
                Some(v) => lookup(self@, key@) == Some(v@),
                None => lookup(self@, key@) is None,
            },
    {
        object_get(self, key)
    }

    /// The entry at position `i` in insertion order.
    pub fn get_index(&self, i: usize) -> (r: Option<(&String, &PqlValue)>)
        ensures
            match r {
                Some((k, v)) => i < self@.len() && self@[i as int] == (k@, v@) && index_of(self@, k@)
                    == i,
                None => i >= self@.len(),
            },
    {
        object_get_index(self, i)
    }

    /// Binds `key` to `value`: an entry with that key keeps its place and
    /// takes the new value, otherwise the pair becomes the last entry.
    pub fn insert(&mut self, key: String, value: PqlValue)
        ensures
            final(self)@ == put(old(self)@, key@, value@),
    {
        object_insert(self, key, value)
    }
}

impl Default for ObjectMap {
    fn default() -> (m: ObjectMap)
        ensures
            m@ == Seq::<(Seq<char>, crate::value::model::Value)>::empty(),
    {
        object_new()
    }
}

} // verus!
