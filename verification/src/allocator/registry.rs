//! One allocator per device, made on first use.
use std::collections::HashMap;

use vstd::prelude::*;

verus! {

/// Values by device index.
pub struct Registry<T> {
    entries: HashMap<usize, T>,
}

impl<T> View for Registry<T> {
    type V = Map<usize, T>;

    closed spec fn view(&self) -> Map<usize, T> {
        self.entries@
    }
}

/// The entries once a device index was asked for: `fresh` becomes its value if it
/// has none yet.
pub open spec fn settled<T>(m: Map<usize, T>, index: usize, fresh: T) -> Map<usize, T> {
    if m.contains_key(index) {
        m
    } else {
        m.insert(index, fresh)
    }
}

impl<T> Registry<T> {
    /// No entries.
    pub fn new() -> (r: Registry<T>)
        ensures
            r@ == Map::<usize, T>::empty(),
    {
        Registry { entries: HashMap::new() }
    }

    /// The value for a device index, if it has one.
    pub fn find(&self, index: usize) -> (r: Option<&T>)
        ensures
            match r {
                Some(v) => self@.contains_key(index) && *v == self@[index],
                None => !self@.contains_key(index),
            },
    {
        broadcast use vstd::std_specs::hash::group_hash_axioms;

        self.entries.get(&index)
    }

    /// Settles the value for a device index: `fresh` on first use.
    pub fn settle(&mut self, index: usize, fresh: T)
        ensures
            final(self)@ == settled(old(self)@, index, fresh),
    {
        broadcast use vstd::std_specs::hash::group_hash_axioms;

        if !self.entries.contains_key(&index) {
            self.entries.insert(index, fresh);
        }
    }
}

/// Asking again for a device changes nothing, whatever is offered, and what it
/// has is what was offered first; every other device keeps what it has.
pub proof fn law_settled_once<T>(m: Map<usize, T>, i: usize, j: usize, first: T, second: T)
    ensures
        settled(settled(m, i, first), i, second) == settled(m, i, first),
        settled(m, i, first).contains_key(i),
        settled(m, i, first)[i] == (if m.contains_key(i) {
            m[i]
        } else {
            first
        }),
        i != j ==> settled(m, i, first).contains_key(j) == m.contains_key(j),
        i != j && m.contains_key(j) ==> settled(m, i, first)[j] == m[j],
{
}

} // verus!
