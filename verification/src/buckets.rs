//! Positions grouped by an integer key: a hash map from each key to the
//! positions filed under it, in the order they were filed.
use vstd::prelude::*;
use std::collections::HashMap;

verus! {

/// For each key, the positions filed under it.
pub struct Buckets {
    pub map: HashMap<u64, Vec<usize>>,
}

impl Buckets {
    /// The positions filed under `key`, oldest first.
    pub open spec fn list(&self, key: u64) -> Seq<usize> {
        if self.map@.contains_key(key) {
            self.map@[key]@
        } else {
            Seq::empty()
        }
    }

    pub fn new() -> (b: Buckets)
        ensures
            forall|k: u64| #[trigger] b.list(k) == Seq::<usize>::empty(),
    {
        Buckets { map: HashMap::new() }
    }

    /// File `pos` under `key`.
    pub fn push(&mut self, key: u64, pos: usize)
        ensures
            forall|k: u64|
                #[trigger] final(self).list(k) == if k == key {
                    old(self).list(k).push(pos)
                } else {
                    old(self).list(k)
                },
    {
        let mut v = match self.map.remove(&key) {
            Some(v) => v,
            None => Vec::new(),
        };
        v.push(pos);
        self.map.insert(key, v);
    }

    /// The positions filed under `key`, if any.
    pub fn get(&self, key: u64) -> (r: Option<&Vec<usize>>)
        ensures
            match r {
                Some(v) => v@ == self.list(key),
                None => self.list(key) == Seq::<usize>::empty(),
            },
    {
        self.map.get(&key)
    }
}

} // verus!
