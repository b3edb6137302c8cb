//! A local map from keys to lists of integers, appended to in place.

use vstd::prelude::*;
use std::collections::HashMap;

verus! {

broadcast use vstd::std_specs::hash::group_hash_axioms;

pub struct DatomicState {
    state: HashMap<i32, Vec<i32>>,
}

impl DatomicState {
    /// Each key's list.
    pub closed spec fn lists(&self) -> Map<i32, Seq<i32>> {
        self.state@.map_values(|v: Vec<i32>| v@)
    }

    pub fn init() -> (r: DatomicState)
        ensures
            r.lists() == Map::<i32, Seq<i32>>::empty(),
    {
        let r = DatomicState { state: HashMap::new() };
        assert(r.lists() =~= Map::<i32, Seq<i32>>::empty());
        r
    }

    /// The list at `key`, empty when there is none.
    pub fn read(&self, key: i32) -> (r: Vec<i32>)
        ensures
            r@ == if self.lists().contains_key(key) { self.lists()[key] } else { Seq::empty() },
    {
        match self.state.get(&key) {
            Some(v) => v.clone(),
            None => Vec::new(),
        }
    }

    /// Appends `val` to the list at `key`, starting one if there is none.
    pub fn append(&mut self, key: i32, val: i32)
        ensures
            final(self).lists() == old(self).lists().insert(
                key,
                (if old(self).lists().contains_key(key) { old(self).lists()[key] } else { Seq::empty() }).push(val),
            ),
    {
        let mut list = match self.state.remove(&key) {
            Some(v) => v,
            None => Vec::new(),
        };
        list.push(val);
        self.state.insert(key, list);
        assert(self.lists() =~= old(self).lists().insert(
            key,
            (if old(self).lists().contains_key(key) { old(self).lists()[key] } else { Seq::empty() }).push(val),
        ));
    }
}

} // verus!
