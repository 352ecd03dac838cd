//! The turn of the hosts.
use vstd::prelude::*;

verus! {

/// The hosts of a job other than this one, and whose turn it was last: the
/// place of a host, or the number of hosts for this host's own turn.
#[derive(Debug)]
pub struct Cursor {
    v: Vec<u64>,
    idx: usize,
}

impl Cursor {
    /// The hosts.
    pub closed spec fn hosts(&self) -> Seq<u64> {
        self.v@
    }

    /// Whose turn it was last.
    pub closed spec fn at(&self) -> int {
        self.idx as int
    }

    /// No host, and the first turn to come is this host's own.
    pub fn new() -> (r: Self)
        ensures
            r.hosts().len() == 0,
            r.at() == 0,
    {
        Cursor { v: Vec::new(), idx: 0 }
    }

    /// One more host.
    pub fn push(&mut self, host_id: u64)
        ensures
            final(self).hosts() == old(self).hosts().push(host_id),
            final(self).at() == old(self).at(),
    {
        self.v.push(host_id);
    }

    /// The host whose turn is next: the hosts take turns in their order, and
    /// after the last of them this host itself, for which none is returned.
    pub fn next(&mut self) -> (r: Option<u64>)
        requires
            old(self).at() <= old(self).hosts().len(),
            old(self).hosts().len() < usize::MAX,
        ensures
            final(self).hosts() == old(self).hosts(),
            final(self).at() == (old(self).at() + 1) % (old(self).hosts().len() as int + 1),
            r == if final(self).at() == old(self).hosts().len() {
                None
            } else {
                Some(old(self).hosts()[final(self).at()])
            },
    {
        self.idx = (self.idx + 1) % (self.v.len() + 1);
        if self.idx == self.v.len() {
            return None;
        }
        Some(self.v[self.idx])
    }
}

} // verus!
