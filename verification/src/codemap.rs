//! A map from 16-bit input codes to values, kept in a `BTreeMap`.

use std::collections::BTreeMap;
use vstd::prelude::*;

verus! {

broadcast use {vstd::std_specs::btree::group_btree_axioms, vstd::laws_cmp::group_laws_cmp};

/// A map from input codes to values.
pub struct CodeMap<V> {
    map: BTreeMap<u16, V>,
}

impl<V: View> View for CodeMap<V> {
    type V = Map<u16, V::V>;

    closed spec fn view(&self) -> Map<u16, V::V> {
        self.map@.map_values(|v: V| v@)
    }
}

impl<V: View> CodeMap<V> {
    /// An empty map.
    pub fn new() -> (m: Self)
        ensures
            m@ == Map::<u16, V::V>::empty(),
    {
        let m = CodeMap { map: BTreeMap::new() };
        assert(m@ =~= Map::<u16, V::V>::empty());
        m
    }

    /// The value of code `c`, if any.
    pub fn get(&self, c: u16) -> (r: Option<&V>)
        ensures
            match r {
                Some(v) => self@.contains_key(c) && self@[c] == v@,
                None => !self@.contains_key(c),
            },
    {
        self.map.get(&c)
    }

    /// Sets code `c` to `v`, in place of any value it had.
    pub fn insert(&mut self, c: u16, v: V)
        ensures
            final(self)@ == old(self)@.insert(c, v@),
    {
        let ghost vv = v@;
        let _ = self.map.insert(c, v);
        assert(self@ =~= old(self)@.insert(c, vv));
    }

    /// Removes code `c`, giving the value it had, if any.
    pub fn remove(&mut self, c: u16) -> (r: Option<V>)
        ensures
            final(self)@ == old(self)@.remove(c),
            match r {
                Some(v) => old(self)@.contains_key(c) && old(self)@[c] == v@,
                None => !old(self)@.contains_key(c),
            },
    {
        let r = self.map.remove(&c);
        assert(self@ =~= old(self)@.remove(c));
        r
    }
}

} // verus!
