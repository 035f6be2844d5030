use vstd::prelude::*;
use std::collections::HashMap;

verus! {

broadcast use vstd::std_specs::hash::group_hash_axioms;

/// What a memory slot holds: the stored value, or the default 0 for an index
/// that was never written. Reading an absent index does not create an entry.
pub open spec fn mem_read(m: Map<u64, i32>, index: u64) -> i32 {
    if m.dom().contains(index) {
        m[index]
    } else {
        0
    }
}

/// Sparse store mapping memory indices to signed values. An index has an
/// entry only once it has been written; every other index reads as 0.
pub struct Memory {
    map: HashMap<u64, i32>,
}

impl View for Memory {
    type V = Map<u64, i32>;

    closed spec fn view(&self) -> Map<u64, i32> {
        self.map@
    }
}

impl Memory {
    /// An empty store: every index reads as the default 0.
    pub fn new() -> (r: Memory)
        ensures
            r@ == Map::<u64, i32>::empty(),
    {
        Memory { map: HashMap::new() }
    }

    /// Reads a slot; an absent index yields 0, and `&self` guarantees that
    /// the read creates no entry.
    pub fn read(&self, index: u64) -> (r: i32)
        ensures
            r == mem_read(self@, index),
    {
        match self.map.get(&index) {
            Some(v) => *v,
            None => 0,
        }
    }

    /// Writes a slot, creating the entry if it was absent.
    pub fn write(&mut self, index: u64, value: i32)
        ensures
            final(self)@ == old(self)@.insert(index, value),
    {
        self.map.insert(index, value);
    }

    /// Whether the index has been written (holds an entry).
    pub fn contains(&self, index: u64) -> (r: bool)
        ensures
            r == self@.dom().contains(index),
    {
        self.map.contains_key(&index)
    }
}

/// An index never written reads as the default 0; and since `read` takes
/// the store by shared reference, the read creates no entry.
pub proof fn lemma_absent_reads_default(m: Map<u64, i32>, index: u64)
    requires
        !m.dom().contains(index),
    ensures
        mem_read(m, index) == 0,
{
}

} // verus!
