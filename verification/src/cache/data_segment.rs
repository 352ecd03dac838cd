//! The data segment: the payloads of the arena.
use crate::cache::data_block::Data;
use crate::cache::freelist::{in_extent, FreeList};
use vstd::prelude::*;

verus! {

/// The data segment and its free bytes.
#[derive(Debug)]
pub struct DataSegment {
    data: Data,
    free_list: FreeList,
}

impl DataSegment {
    /// The bytes of the segment.
    pub closed spec fn bytes(&self) -> Set<int> {
        self.data.bytes()
    }

    /// The bytes of the segment that are free.
    pub closed spec fn free_bytes(&self) -> Set<int> {
        self.free_list.free_bytes()
    }

    /// The bytes of the segment that are in use.
    pub open spec fn used_bytes(&self) -> Set<int> {
        self.bytes().difference(self.free_bytes())
    }

    /// The free extents of the segment.
    pub closed spec fn extents(&self) -> Set<(u64, u64)> {
        self.free_list.extents()
    }

    /// The invariant of the type: the free bytes are bytes of the segment,
    /// which ends within the range of offsets.
    pub closed spec fn wf(&self) -> bool {
        &&& self.free_list.wf()
        &&& self.free_list.free_bytes().subset_of(self.data.bytes())
        &&& self.data.spec_off() + self.data.spec_len() <= u64::MAX
    }

    /// Free bytes are bytes of the segment: each byte of the segment is free
    /// or in use, and not both.
    pub proof fn law_free_within(&self)
        requires
            self.wf(),
        ensures
            self.free_bytes().subset_of(self.bytes()),
            self.free_bytes().union(self.used_bytes()) == self.bytes(),
            self.free_bytes().disjoint(self.used_bytes()),
    {
        assert(self.free_bytes().union(self.used_bytes()) =~= self.bytes());
    }

    /// The free extents are not empty and neither overlap nor touch, and
    /// their bytes are free.
    pub proof fn law_free_extents(&self, a: (u64, u64), b: (u64, u64))
        requires
            self.wf(),
            self.extents().contains(a),
            self.extents().contains(b),
        ensures
            a.0 < a.1,
            a != b ==> a.1 < b.0 || b.1 < a.0,
            forall|x: int| in_extent(a, x) ==> self.free_bytes().contains(x),
    {
        self.free_list.law_extents_apart(a, b);
    }

    /// The segment of `len` bytes from `off` on, all of them free.
    pub fn new(off: u64, len: u64) -> (r: DataSegment)
        requires
            off + len <= u64::MAX,
        ensures
            r.wf(),
            r.bytes() == Set::new(|b: int| off <= b < off + len),
            r.free_bytes() == r.bytes(),
    {
        let mut free_list = FreeList::new();
        free_list.insert(off, len);
        let r = DataSegment { data: Data::new(off, len), free_list };
        proof {
            assert(r.bytes() =~= Set::new(|b: int| off <= b < off + len));
            assert(r.free_bytes() =~= r.bytes());
        }
        r
    }

    /// Takes `request_len` free bytes into use; none where no free extent
    /// has as many.
    pub fn allocate(&mut self, request_len: u64) -> (r: Option<Data>)
        requires
            old(self).wf(),
        ensures
            final(self).wf(),
            final(self).bytes() == old(self).bytes(),
            match r {
                Some(data) => {
                    &&& data.spec_len() == request_len
                    &&& data.bytes().subset_of(old(self).free_bytes())
                    &&& final(self).free_bytes() == old(self).free_bytes().difference(data.bytes())
                    &&& exists|z: (u64, u64)|
                        old(self).extents().contains(z) && z.0 == data.spec_off()
                            && data.spec_off() + request_len <= z.1
                },
                None => {
                    &&& final(self).free_bytes() == old(self).free_bytes()
                    &&& final(self).extents() == old(self).extents()
                    &&& forall|z: (u64, u64)|
                        old(self).extents().contains(z) ==> z.1 - z.0 < request_len
                },
            },
    {
        let ret = self.free_list.get(request_len);
        match ret {
            Some((off, len)) => {
                proof {
                    let z = choose|z: (u64, u64)|
                        old(self).free_list.extents().contains(z) && z.0 == off && off + len <= z.1;
                    assert forall|b: int| off <= b < off + len implies old(
                        self,
                    ).free_list.free_bytes().contains(b) by {
                        assert(in_extent(z, b));
                    }
                    if len > 0 {
                        assert(old(self).free_list.free_bytes().contains(off as int));
                        assert(old(self).free_list.free_bytes().contains(off + len - 1));
                    } else {
                        old(self).free_list.law_extents_apart(z, z);
                        assert(old(self).free_list.free_bytes().contains(off as int)) by {
                            assert(in_extent(z, off as int));
                        }
                    }
                }
                let data = self.data.allocate(off, request_len);
                proof {
                    assert(data.bytes() =~= Set::new(|b: int| off <= b < off + len));
                    let z = choose|z: (u64, u64)|
                        old(self).free_list.extents().contains(z) && z.0 == off && off + len <= z.1;
                    assert(old(self).extents().contains(z) && z.0 == data.spec_off()
                        && data.spec_off() + request_len <= z.1);
                }
                Some(data)
            },
            None => {
                proof {
                    assert(self.free_list.free_bytes() =~= old(self).free_list.free_bytes());
                }
                None
            },
        }
    }

    /// Frees the `len` bytes from `off` on, which are bytes of the segment
    /// in use.
    pub fn free(&mut self, off: u64, len: u64)
        requires
            old(self).wf(),
            off + len <= u64::MAX,
            forall|b: int| off <= b < off + len ==> #[trigger] old(self).used_bytes().contains(b),
        ensures
            final(self).wf(),
            final(self).bytes() == old(self).bytes(),
            final(self).free_bytes() == old(self).free_bytes().union(
                Set::new(|b: int| off <= b < off + len),
            ),
    {
        proof {
            assert forall|b: int| off <= b < off + len implies !self.free_list.free_bytes().contains(
                b,
            ) by {
                assert(self.used_bytes().contains(b));
            }
        }
        self.free_list.insert(off, len);
        proof {
            assert forall|b: int| self.free_list.free_bytes().contains(b) implies self.data.bytes().contains(
                b,
            ) by {
                if off <= b < off + len {
                    assert(old(self).used_bytes().contains(b));
                } else {
                    assert(old(self).free_list.free_bytes().contains(b));
                }
            }
        }
    }
}

} // verus!
