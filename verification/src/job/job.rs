//! A job: a consumer with a bounded queue of payloads.
//!
//! The queue itself is the caller's. The job keeps what the scheduler has to
//! know of it: how many places the queue has left, and how many payloads are
//! under way to it.
use vstd::prelude::*;

verus! {

/// The number of payloads that the queue of a job holds.
pub const CAP: usize = 1024;

/// A job.
#[derive(Debug)]
pub struct Job {
    id: u64,
    capacity: usize,
    pending: usize,
}

impl Job {
    /// The identifier of the job.
    pub closed spec fn spec_id(&self) -> u64 {
        self.id
    }

    /// The places that the queue has left.
    pub closed spec fn spec_capacity(&self) -> int {
        self.capacity as int
    }

    /// The payloads that are under way to the queue.
    pub closed spec fn spec_pending(&self) -> int {
        self.pending as int
    }

    /// What can still be promised to the job: the places left that no
    /// payload under way will take.
    pub open spec fn room(&self) -> int {
        if self.spec_pending() < self.spec_capacity() {
            self.spec_capacity() - self.spec_pending()
        } else {
            0
        }
    }

    /// The job `id`, with an empty queue and nothing under way.
    pub fn new(id: u64) -> (r: Self)
        ensures
            r.spec_id() == id,
            r.spec_capacity() == CAP,
            r.spec_pending() == 0,
    {
        Job { id, capacity: CAP, pending: 0 }
    }

    /// The identifier of the job.
    pub fn get_id(&self) -> (r: u64)
        ensures
            r == self.spec_id(),
    {
        self.id
    }

    /// Whether the queue has no place left.
    pub fn is_full(&self) -> (r: bool)
        ensures
            r == (self.spec_capacity() == 0),
    {
        self.capacity == 0
    }

    /// Whether one more payload can be promised to the job.
    pub fn can_push(&self) -> (r: bool)
        ensures
            r == (self.room() > 0),
    {
        self.pending < self.capacity
    }

    /// One more payload is under way.
    pub fn add_pending(&mut self)
        requires
            old(self).room() > 0,
        ensures
            final(self).spec_id() == old(self).spec_id(),
            final(self).spec_capacity() == old(self).spec_capacity(),
            final(self).spec_pending() == old(self).spec_pending() + 1,
            final(self).room() == old(self).room() - 1,
    {
        self.pending += 1;
    }

    /// A payload that was under way has come into the queue.
    pub fn push(&mut self)
        requires
            old(self).spec_pending() > 0,
            old(self).spec_capacity() > 0,
        ensures
            final(self).spec_id() == old(self).spec_id(),
            final(self).spec_capacity() == old(self).spec_capacity() - 1,
            final(self).spec_pending() == old(self).spec_pending() - 1,
            final(self).room() == old(self).room(),
    {
        self.pending -= 1;
        self.capacity -= 1;
    }

    /// The places that the queue has left.
    pub fn capacity(&self) -> (r: usize)
        ensures
            r == self.spec_capacity(),
    {
        self.capacity
    }

    /// The payloads that are under way to the queue.
    pub fn pending(&self) -> (r: usize)
        ensures
            r == self.spec_pending(),
    {
        self.pending
    }

    /// The queue reports the places that it has left.
    pub fn set_capacity(&mut self, capacity: usize)
        ensures
            final(self).spec_id() == old(self).spec_id(),
            final(self).spec_capacity() == capacity,
            final(self).spec_pending() == old(self).spec_pending(),
    {
        self.capacity = capacity;
    }
}

} // verus!
