//! Which sample stands in which slot.
use std::collections::HashMap;
use vstd::prelude::*;

verus! {

/// The slot of each cached sample, and the sample of each slot.
#[derive(Debug)]
pub struct CachedData {
    data2head: HashMap<u64, usize>,
    head2data: HashMap<usize, u64>,
}

impl CachedData {
    /// The slot of each cached sample.
    pub closed spec fn heads(&self) -> Map<u64, usize> {
        self.data2head@
    }

    /// The sample of each slot.
    pub closed spec fn datas(&self) -> Map<usize, u64> {
        self.head2data@
    }

    /// Nothing is cached.
    pub fn new() -> (r: Self)
        ensures
            r.heads() == Map::<u64, usize>::empty(),
            r.datas() == Map::<usize, u64>::empty(),
    {
        CachedData { data2head: HashMap::new(), head2data: HashMap::new() }
    }

    /// The sample `data_id` stands in the slot `head`.
    pub fn add(&mut self, head: usize, data_id: u64)
        ensures
            final(self).heads() == old(self).heads().insert(data_id, head),
            final(self).datas() == old(self).datas().insert(head, data_id),
    {
        broadcast use vstd::std_specs::hash::group_hash_axioms;

        self.data2head.insert(data_id, head);
        self.head2data.insert(head, data_id);
    }

    /// The slot `head` holds no sample any more, and its sample is in no
    /// slot.
    pub fn remove(&mut self, head: usize)
        ensures
            final(self).datas() == old(self).datas().remove(head),
            final(self).heads() == if old(self).datas().contains_key(head) {
                old(self).heads().remove(old(self).datas()[head])
            } else {
                old(self).heads()
            },
    {
        broadcast use vstd::std_specs::hash::group_hash_axioms;

        match self.head2data.remove(&head) {
            Some(data) => {
                self.data2head.remove(&data);
            },
            None => {
                assert(self.head2data@ =~= old(self).head2data@.remove(head));
            },
        }
    }

    /// The slot in which the sample `data_id` stands.
    pub fn contains(&self, data_id: u64) -> (r: Option<usize>)
        ensures
            r == if self.heads().contains_key(data_id) {
                Some(self.heads()[data_id])
            } else {
                None
            },
    {
        broadcast use vstd::std_specs::hash::group_hash_axioms;

        match self.data2head.get(&data_id) {
            Some(head) => Some(*head),
            None => None,
        }
    }
}

} // verus!
