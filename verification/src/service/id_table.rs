//! The names of datasets and of jobs.
use vstd::prelude::*;

verus! {

/// Why a request is refused.
#[derive(Clone, Copy, Debug, PartialEq, Eq, Structural)]
pub enum ServiceError {
    /// No dataset or job has the name.
    NotFound,
    /// A dataset or job has the name already.
    AlreadyExists,
    /// The job has seen all its samples, and its queue is empty.
    Drained,
}

/// The identifier of each name.
#[derive(Debug)]
pub struct IdTable {
    names: Vec<(String, u64)>,
}

/// Whether the first `n` entries hold the name.
pub open spec fn named(entries: Seq<(Seq<char>, u64)>, n: int, name: Seq<char>) -> bool {
    exists|i: int| 0 <= i < n && i < entries.len() && (#[trigger] entries[i]).0 == name
}

impl IdTable {
    /// The names, each with its identifier.
    pub closed spec fn entries(&self) -> Seq<(Seq<char>, u64)> {
        Seq::new(self.names@.len(), |i: int| (self.names@[i].0@, self.names@[i].1))
    }

    /// Whether the table holds the name.
    pub open spec fn has(&self, name: Seq<char>) -> bool {
        named(self.entries(), self.entries().len() as int, name)
    }

    /// The invariant of the type: no name stands twice.
    pub open spec fn wf(&self) -> bool {
        forall|i: int, j: int|
            0 <= i < j < self.entries().len() ==> (#[trigger] self.entries()[i]).0 != (
            #[trigger] self.entries()[j]).0
    }

    /// A table without names.
    pub fn new() -> (r: Self)
        ensures
            r.wf(),
            r.entries().len() == 0,
    {
        IdTable { names: Vec::new() }
    }

    /// The place of the name.
    fn find(&self, name: &String) -> (r: Option<usize>)
        ensures
            match r {
                Some(i) => i < self.entries().len() && self.entries()[i as int].0 == name@,
                None => !self.has(name@),
            },
    {
        let mut i: usize = 0;
        while i < self.names.len()
            invariant
                0 <= i <= self.names@.len(),
                forall|x: int| 0 <= x < i ==> (#[trigger] self.entries()[x]).0 != name@,
            decreases self.names@.len() - i,
        {
            if self.names[i].0 == *name {
                assert(self.entries()[i as int].0 == name@);
                return Some(i);
            }
            assert(self.entries()[i as int].0 != name@);
            i += 1;
        }
        None
    }

    /// The identifier of the name; the error `NotFound` where the table
    /// does not hold it.
    pub fn get(&self, name: &String) -> (r: Result<u64, ServiceError>)
        requires
            self.wf(),
        ensures
            match r {
                Ok(id) => exists|i: int|
                    0 <= i < self.entries().len() && #[trigger] self.entries()[i] == (name@, id),
                Err(e) => e == ServiceError::NotFound && !self.has(name@),
            },
    {
        match self.find(name) {
            Some(i) => {
                assert(self.entries()[i as int] == (name@, self.names@[i as int].1));
                Ok(self.names[i].1)
            },
            None => Err(ServiceError::NotFound),
        }
    }

    /// Gives the name the identifier `id`; the error `AlreadyExists` where
    /// the table holds the name, and then nothing changes.
    pub fn insert(&mut self, name: String, id: u64) -> (r: Result<(), ServiceError>)
        requires
            old(self).wf(),
        ensures
            final(self).wf(),
            match r {
                Ok(_) => !old(self).has(name@) && final(self).entries() == old(self).entries().push(
                    (name@, id),
                ),
                Err(e) => e == ServiceError::AlreadyExists && old(self).has(name@) && final(self).entries() == old(self).entries(),
            },
    {
        match self.find(&name) {
            Some(i) => {
                assert(old(self).entries()[i as int].0 == name@);
                Err(ServiceError::AlreadyExists)
            },
            None => {
                let ghost before = self.entries();
                self.names.push((name, id));
                proof {
                    assert(self.entries() =~= before.push((name@, id)));
                    assert forall|i: int, j: int| 0 <= i < j < self.entries().len() implies (
                    #[trigger] self.entries()[i]).0 != (#[trigger] self.entries()[j]).0 by {
                        assert(self.entries()[i] == before[i]);
                        if j < before.len() {
                            assert(self.entries()[j] == before[j]);
                            assert(before[i].0 != before[j].0);
                        } else {
                            assert(before[i].0 != name@);
                        }
                    }
                }
                Ok(())
            },
        }
    }

    /// Takes the name out, and returns its identifier; the error `NotFound`
    /// where the table does not hold it.
    pub fn remove(&mut self, name: &String) -> (r: Result<u64, ServiceError>)
        requires
            old(self).wf(),
        ensures
            final(self).wf(),
            !final(self).has(name@),
            match r {
                Ok(id) => exists|i: int|
                    0 <= i < old(self).entries().len() && #[trigger] old(self).entries()[i] == (
                        name@,
                        id,
                    ) && final(self).entries() == old(self).entries().remove(i),
                Err(e) => e == ServiceError::NotFound && !old(self).has(name@) && final(self).entries() == old(self).entries(),
            },
    {
        match self.find(name) {
            Some(i) => {
                let ghost before = self.entries();
                let entry = self.names.remove(i);
                proof {
                    let now = self.entries();
                    assert(now =~= before.remove(i as int));
                    assert(before[i as int] == (name@, entry.1));
                    assert forall|a: int, b: int| 0 <= a < b < now.len() implies (
                    #[trigger] now[a]).0 != (#[trigger] now[b]).0 by {
                        let a2 = if a < i { a } else { a + 1 };
                        let b2 = if b < i { b } else { b + 1 };
                        assert(now[a] == before[a2] && now[b] == before[b2]);
                        assert(before[a2].0 != before[b2].0);
                    }
                    if self.has(name@) {
                        let x = choose|x: int|
                            0 <= x < now.len() && x < now.len() && (#[trigger] now[x]).0 == name@;
                        let x2 = if x < i { x } else { x + 1 };
                        assert(now[x] == before[x2]);
                        if x2 < i {
                            assert(before[x2].0 != before[i as int].0);
                        } else {
                            assert(before[i as int].0 != before[x2].0);
                        }
                    }
                }
                Ok(entry.1)
            },
            None => Err(ServiceError::NotFound),
        }
    }
}

} // verus!
