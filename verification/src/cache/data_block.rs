//! An extent of the data segment.
use vstd::prelude::*;

verus! {

/// The `len` bytes from the offset `off` of the region on.
#[derive(Debug, Clone, Copy, PartialEq, Eq, Structural)]
pub struct Data {
    len: u64,
    off: u64,
}

impl Data {
    /// The first byte of the extent.
    pub closed spec fn spec_off(&self) -> int {
        self.off as int
    }

    /// The number of bytes of the extent.
    pub closed spec fn spec_len(&self) -> int {
        self.len as int
    }

    /// The bytes of the extent.
    pub open spec fn bytes(&self) -> Set<int> {
        Set::new(|b: int| self.spec_off() <= b < self.spec_off() + self.spec_len())
    }

    /// The extent of `len` bytes from `off` on.
    pub fn new(off: u64, len: u64) -> (r: Data)
        ensures
            r.spec_off() == off,
            r.spec_len() == len,
    {
        Data { len, off }
    }

    /// The extent of `len` bytes from `off` on, which lies within this one.
    pub fn allocate(&mut self, off: u64, len: u64) -> (r: Data)
        requires
            old(self).spec_off() <= off,
            off + len <= old(self).spec_off() + old(self).spec_len(),
        ensures
            *final(self) == *old(self),
            r.spec_off() == off,
            r.spec_len() == len,
            r.bytes().subset_of(old(self).bytes()),
    {
        Data { off, len }
    }

    /// The number of bytes of the extent.
    pub fn len(&self) -> (r: u64)
        ensures
            r == self.spec_len(),
    {
        self.len
    }

    /// The first byte of the extent.
    pub fn off(&self) -> (r: u64)
        ensures
            r == self.spec_off(),
    {
        self.off
    }

    /// What is left of the extent behind its first `occupy_size` bytes; none
    /// where they are all of it.
    pub fn remain(&mut self, occupy_size: u64) -> (r: Option<Data>)
        requires
            occupy_size <= old(self).spec_len(),
            old(self).spec_off() + old(self).spec_len() <= u64::MAX,
        ensures
            *final(self) == *old(self),
            r is None <==> occupy_size == old(self).spec_len(),
            r matches Some(d) ==> d.spec_off() == old(self).spec_off() + occupy_size && d.spec_len()
                == old(self).spec_len() - occupy_size,
    {
        if occupy_size == self.len {
            return None;
        }
        Some(Data { len: self.len - occupy_size, off: self.off + occupy_size })
    }
}

} // verus!
