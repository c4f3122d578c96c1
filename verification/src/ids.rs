//! Dense index allocation for opaque external identifiers.

use std::collections::HashMap;
use vstd::prelude::*;
use vstd::std_specs::hash::*;

verus! {

broadcast use group_hash_axioms;

/// Assigns consecutive indices to identifiers in order of first appearance
/// and finds the index of an identifier again in constant expected time.
pub struct IdTable {
    ids: Vec<u64>,
    index: HashMap<u64, usize>,
}

impl View for IdTable {
    type V = Seq<u64>;

    /// The identifiers in index order.
    closed spec fn view(&self) -> Seq<u64> {
        self.ids@
    }
}

impl IdTable {
    /// Representation invariant: the hash index and the identifier array
    /// describe the same bijection.
    pub closed spec fn wf(&self) -> bool {
        &&& forall|i: int|
            0 <= i < self.ids@.len() ==> self.index@.contains_key(#[trigger] self.ids@[i])
                && self.index@[self.ids@[i]] == i
        &&& forall|id: u64| #[trigger]
            self.index@.contains_key(id) ==> self.index@[id] < self.ids@.len()
                && self.ids@[self.index@[id] as int] == id
    }

    /// No identifier is registered twice.
    pub proof fn lemma_no_duplicates(&self)
        requires
            self.wf(),
        ensures
            self@.no_duplicates(),
    {
        assert forall|i: int, j: int|
            0 <= i < self@.len() && 0 <= j < self@.len() && i != j implies self@[i] != self@[j] by {
            assert(self.index@[self.ids@[i]] == i);
            assert(self.index@[self.ids@[j]] == j);
        }
    }

    /// The empty table.
    pub fn new() -> (t: IdTable)
        ensures
            t.wf(),
            t@ == Seq::<u64>::empty(),
    {
        IdTable { ids: Vec::new(), index: HashMap::new() }
    }

    /// Number of registered identifiers.
    pub fn len(&self) -> (n: usize)
        ensures
            n == self@.len(),
    {
        self.ids.len()
    }

    /// The index of `id`, if it was registered.
    pub fn lookup(&self, id: u64) -> (r: Option<usize>)
        requires
            self.wf(),
        ensures
            match r {
                Some(i) => i < self@.len() && self@[i as int] == id && self@.index_of(id) == i,
                None => !self@.contains(id),
            },
    {
        match self.index.get(&id) {
            Some(i) => {
                proof {
                    self.lemma_no_duplicates();
                    let j = self@.index_of(id);
                    assert(self@[*i as int] == id);
                    assert(self@.contains(id));
                    assert(0 <= j < self@.len() && self@[j] == id);
                }
                Some(*i)
            },
            None => {
                proof {
                    if self@.contains(id) {
                        let j = choose|j: int| 0 <= j < self@.len() && self@[j] == id;
                        assert(self.index@.contains_key(self.ids@[j]));
                    }
                }
                None
            },
        }
    }

    /// The identifier registered under index `i`.
    pub fn id_at(&self, i: usize) -> (id: u64)
        requires
            i < self@.len(),
        ensures
            id == self@[i as int],
    {
        self.ids[i]
    }

    /// Registers a new identifier under the next free index.
    pub fn register(&mut self, id: u64) -> (i: usize)
        requires
            old(self).wf(),
            !old(self)@.contains(id),
        ensures
            final(self).wf(),
            final(self)@ == old(self)@.push(id),
            i == old(self)@.len(),
    {
        let i = self.ids.len();
        proof {
            if self.index@.contains_key(id) {
                assert(self.ids@[self.index@[id] as int] == id);
                assert(self@.contains(id));
            }
        }
        self.ids.push(id);
        self.index.insert(id, i);
        proof {
            assert forall|j: int| 0 <= j < self.ids@.len() implies self.index@.contains_key(
                #[trigger] self.ids@[j],
            ) && self.index@[self.ids@[j]] == j by {
                if j < i {
                    assert(old(self).ids@[j] == self.ids@[j]);
                    assert(old(self)@.contains(old(self).ids@[j]));
                }
            }
        }
        i
    }
}

} // verus!
