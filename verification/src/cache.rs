//! The regions that a board has found so far, kept so that a later
//! reveal in the same region need not walk it again.

use std::collections::HashSet;
use vstd::prelude::*;
use vstd::std_specs::hash::group_hash_axioms;

verus! {

broadcast use group_hash_axioms;

/// A list of regions, each a set of cell indices.
pub struct RegionCache {
    sets: Vec<HashSet<usize>>,
}

impl View for RegionCache {
    type V = Seq<Set<usize>>;

    closed spec fn view(&self) -> Seq<Set<usize>> {
        Seq::new(self.sets@.len(), |k: int| self.sets@[k]@)
    }
}

impl RegionCache {
    /// A cache that holds no region.
    pub fn new() -> (c: Self)
        ensures
            c@.len() == 0,
    {
        RegionCache { sets: Vec::new() }
    }

    /// Forgets every region.
    pub fn clear(&mut self)
        ensures
            final(self)@.len() == 0,
    {
        self.sets.clear();
    }

    /// Number of regions held.
    pub fn len(&self) -> (n: usize)
        ensures
            n == self@.len(),
    {
        self.sets.len()
    }

    /// Adds a region behind those already held.
    pub fn push(&mut self, region: HashSet<usize>)
        ensures
            final(self)@ == old(self)@.push(region@),
    {
        self.sets.push(region);
        assert(self@ =~= old(self)@.push(region@));
    }

    /// Whether region `k` holds cell `j`.
    pub fn holds(&self, k: usize, j: usize) -> (r: bool)
        requires
            k < self@.len(),
        ensures
            r == self@[k as int].contains(j),
    {
        self.sets[k].contains(&j)
    }

    /// The first region that holds cell `j`, if any does.
    pub fn find(&self, j: usize) -> (r: Option<usize>)
        ensures
            match r {
                Some(k) => {
                    &&& k < self@.len()
                    &&& self@[k as int].contains(j)
                    &&& forall|n: int| 0 <= n < k ==> !(#[trigger] self@[n]).contains(j)
                },
                None => forall|n: int| 0 <= n < self@.len() ==> !(#[trigger] self@[n]).contains(j),
            },
    {
        let mut k: usize = 0;
        while k < self.sets.len()
            invariant
                k <= self.sets.len(),
                self.sets@.len() == self@.len(),
                forall|n: int| 0 <= n < k ==> !(#[trigger] self@[n]).contains(j),
            decreases self.sets.len() - k,
        {
            if self.sets[k].contains(&j) {
                return Some(k);
            }
            k += 1;
        }
        None
    }
}

} // verus!
