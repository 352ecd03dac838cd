//! The cache: one region, divided into the head segment and the data
//! segment, and the table of the samples that stand in it.
//!
//! The region itself is the caller's. The cache keeps the books: which slot
//! is in use, which bytes are free, which sample stands where. It writes the
//! descriptors into the region and reads the reader masks from it.
use crate::cache::cached_data::CachedData;
use crate::cache::data_block::Data;
use crate::cache::data_segment::DataSegment;
use crate::cache::head::{armed, head_len, head_mask, head_off, unread_count, Head};
use crate::cache::head_segment::{gives_up, HeadSegment};
use vstd::prelude::*;

verus! {

broadcast use vstd::slice::group_slice_axioms;

/// The cache over a region of `capacity` bytes.
#[derive(Debug)]
pub struct Cache {
    shmpath: String,
    head_segment: HeadSegment,
    data_segment: DataSegment,
    cached_data: CachedData,
    extents: Vec<Data>,
    capacity: usize,
}

impl Cache {
    /// The size of the region in bytes.
    pub closed spec fn spec_capacity(&self) -> int {
        self.capacity as int
    }

    /// The number of slots.
    pub closed spec fn slots(&self) -> int {
        self.head_segment.spec_len() as int
    }

    /// Whether the slot `idx` is in use.
    pub closed spec fn in_use(&self, idx: int) -> bool {
        self.head_segment.in_use(idx)
    }

    /// The level at which the slot `idx` was registered.
    pub closed spec fn level(&self, idx: int) -> int {
        self.head_segment.level(idx)
    }

    /// The payload of each slot, as it was when the slot last came into
    /// use.
    pub closed spec fn payloads(&self) -> Seq<Data> {
        self.extents@
    }

    /// Whether a sample is noted for the slot `idx`.
    pub closed spec fn slot_has_sample(&self, idx: usize) -> bool {
        self.cached_data.datas().contains_key(idx)
    }

    /// The bytes of the payload of the slot `idx`.
    pub closed spec fn payload(&self, idx: int) -> Set<int> {
        self.extents@[idx].bytes()
    }

    /// Where the payload of the slot `idx` begins.
    pub closed spec fn payload_off(&self, idx: int) -> int {
        self.extents@[idx].spec_off()
    }

    /// The number of bytes of the payload of the slot `idx`.
    pub closed spec fn payload_len(&self, idx: int) -> int {
        self.extents@[idx].spec_len()
    }

    /// The bytes of the data segment that are free.
    pub closed spec fn free_bytes(&self) -> Set<int> {
        self.data_segment.free_bytes()
    }

    /// The bytes of the data segment.
    pub closed spec fn data_bytes(&self) -> Set<int> {
        self.data_segment.bytes()
    }

    /// The slot in which each cached sample stands.
    pub closed spec fn cached(&self) -> Map<u64, usize> {
        self.cached_data.heads()
    }

    /// What holds of the cache whatever it is doing: the segments divide the
    /// region; the payload of a slot in use is made of bytes of the data
    /// segment that are not free; the payloads of two slots in use share no
    /// byte; a cached sample stands in a slot in use; and the sample that
    /// is noted for a slot is the one sample that is cached in it.
    pub closed spec fn core_wf(&self) -> bool {
        &&& self.head_segment.wf()
        &&& self.data_segment.wf()
        &&& self.extents@.len() == self.head_segment.spec_len()
        &&& 20 * self.head_segment.spec_len() <= self.capacity
        &&& self.data_segment.bytes() == Set::new(
            |b: int| 20 * self.head_segment.spec_len() <= b < self.capacity,
        )
        &&& forall|k: int| #[trigger]
            self.head_segment.in_use(k) ==> self.extents@[k].bytes().subset_of(
                self.data_segment.used_bytes(),
            )
        &&& forall|j: int, k: int|
            #[trigger] self.head_segment.in_use(j) && #[trigger] self.head_segment.in_use(k) && j
                != k ==> self.extents@[j].bytes().disjoint(self.extents@[k].bytes())
        &&& forall|h: usize| #[trigger]
            self.cached_data.datas().contains_key(h) ==> self.head_segment.in_use(h as int)
        &&& forall|d: u64| #[trigger]
            self.cached_data.heads().contains_key(d) ==> self.cached_data.datas().contains_key(
                self.cached_data.heads()[d],
            ) && self.cached_data.datas()[self.cached_data.heads()[d]] == d
        &&& forall|h: usize| #[trigger]
            self.cached_data.datas().contains_key(h) ==> self.cached_data.heads().contains_key(
                self.cached_data.datas()[h],
            ) && self.cached_data.heads()[self.cached_data.datas()[h]] == h
    }

    /// Every byte of the data segment that is not free is a byte of the
    /// payload of a slot in use.
    pub closed spec fn tight(&self) -> bool {
        forall|b: int| #[trigger]
            self.data_segment.used_bytes().contains(b) ==> exists|k: int| #[trigger]
                self.head_segment.in_use(k) && self.extents@[k].bytes().contains(b)
    }

    /// The invariant of the type.
    pub open spec fn wf(&self) -> bool {
        self.core_wf() && self.tight()
    }

    /// The bytes of the data segment are the bytes of the region behind the
    /// descriptors. Each is free or a byte of the payload of one slot in
    /// use, not both; and a cached sample stands in a slot in use.
    pub proof fn law_bytes(&self, b: int)
        requires
            self.wf(),
        ensures
            self.data_bytes().contains(b) == (20 * self.slots() <= b < self.spec_capacity()),
            self.free_bytes().contains(b) ==> self.data_bytes().contains(b),
            self.data_bytes().contains(b) && !self.free_bytes().contains(b) ==> exists|k: int|
                #[trigger] self.in_use(k) && self.payload(k).contains(b),
            forall|k: int| #[trigger]
                self.in_use(k) && self.payload(k).contains(b) ==> self.data_bytes().contains(b)
                    && !self.free_bytes().contains(b),
            forall|j: int, k: int|
                #[trigger] self.in_use(j) && #[trigger] self.in_use(k) && self.payload(j).contains(b)
                    && self.payload(k).contains(b) ==> j == k,
            forall|d: u64| #[trigger]
                self.cached().contains_key(d) ==> self.in_use(self.cached()[d] as int),
            forall|k: int| #[trigger] self.in_use(k) ==> 0 <= k < self.slots(),
            0 <= 20 * self.slots() <= self.spec_capacity(),
    {
        self.data_segment.law_free_within();
        if self.data_bytes().contains(b) && !self.free_bytes().contains(b) {
            assert(self.data_segment.used_bytes().contains(b));
            let k = choose|k: int| #[trigger]
                self.head_segment.in_use(k) && self.extents@[k].bytes().contains(b);
            assert(self.in_use(k) && self.payload(k).contains(b));
        }
        assert forall|k: int| #[trigger] self.in_use(k) && self.payload(k).contains(
            b,
        ) implies self.data_bytes().contains(b) && !self.free_bytes().contains(b) by {
            assert(self.data_segment.used_bytes().contains(b));
        }
        assert forall|d: u64| #[trigger] self.cached().contains_key(d) implies self.in_use(
            self.cached()[d] as int,
        ) by {
            assert(self.cached_data.datas().contains_key(self.cached_data.heads()[d]));
        }
    }

    /// Two cached samples stand in two slots.
    pub proof fn law_one_sample_a_slot(&self, d1: u64, d2: u64)
        requires
            self.wf(),
            self.cached().contains_key(d1),
            self.cached().contains_key(d2),
            self.cached()[d1] == self.cached()[d2],
        ensures
            d1 == d2,
    {
        assert(self.cached_data.heads().contains_key(d1));
        assert(self.cached_data.heads().contains_key(d2));
    }

    /// The cache over a region of `capacity` bytes, of which the first
    /// `20 * head_num` hold the descriptors of `head_num` slots. Nothing is
    /// in use.
    pub fn new(capacity: usize, shmpath: &str, head_num: u64) -> (r: Cache)
        requires
            20 * head_num <= capacity,
        ensures
            r.wf(),
            r.spec_capacity() == capacity,
            r.slots() == head_num,
            forall|k: int| !r.in_use(k),
            r.free_bytes() == r.data_bytes(),
            r.cached() == Map::<u64, usize>::empty(),
            r.spec_shm_path() == shmpath@,
    {
        let head_segment = HeadSegment::new(head_num);
        let data_segment = DataSegment::new(
            head_segment.size(),
            capacity as u64 - head_segment.size(),
        );
        let mut extents: Vec<Data> = Vec::new();
        let mut i: u64 = 0;
        while i < head_num
            invariant
                0 <= i <= head_num,
                extents@.len() == i,
            decreases head_num - i,
        {
            extents.push(Data::new(0, 0));
            i += 1;
        }
        let r = Cache {
            shmpath: shmpath.to_string(),
            head_segment,
            data_segment,
            cached_data: CachedData::new(),
            extents,
            capacity,
        };
        proof {
            r.data_segment.law_free_within();
            assert(r.data_segment.used_bytes() =~= Set::<int>::empty());
            assert(r.data_segment.bytes() =~= Set::new(
                |b: int| 20 * r.head_segment.spec_len() <= b < r.capacity,
            ));
        }
        r
    }

    /// The name of the shared memory that the region is.
    pub closed spec fn spec_shm_path(&self) -> Seq<char> {
        self.shmpath@
    }

    /// The name of the shared memory that the region is.
    pub fn get_shm_path(&self) -> (r: &str)
        ensures
            r@ == self.spec_shm_path(),
    {
        self.shmpath.as_str()
    }

    /// The slot in which the sample `data_id` stands.
    pub fn contains_data(&self, data_id: u64) -> (r: Option<usize>)
        ensures
            r == if self.cached().contains_key(data_id) {
                Some(self.cached()[data_id])
            } else {
                None
            },
    {
        self.cached_data.contains(data_id)
    }

    /// Arms the reader mask of the slot `head_idx` for `loader_cnt` readers.
    pub fn mark_unreaded(&mut self, region: &mut [u8], head_idx: usize, loader_cnt: usize)
        requires
            old(self).wf(),
            old(region)@.len() == old(self).spec_capacity(),
            head_idx < old(self).slots(),
            loader_cnt <= 8,
        ensures
            *final(self) == *old(self),
            final(region)@.len() == old(region)@.len(),
            forall|i: int|
                0 <= i < old(region)@.len() && !(20 * head_idx + 12 <= i < 20 * head_idx + 20)
                    ==> final(region)@[i] == old(region)@[i],
            head_mask(final(region)@, 20 * head_idx) == armed(loader_cnt as int),
            unread_count(head_mask(final(region)@, 20 * head_idx)) == loader_cnt,
    {
        self.head_segment.mark_unreaded(region, head_idx, loader_cnt);
        proof {
            crate::cache::head::lemma_armed_count(loader_cnt as int);
        }
    }

    /// Gives up the slots that are due: those of the lowest level that
    /// every reader has read. Their payloads are free, and the samples that
    /// stood in them are cached no more; every other sample stays cached,
    /// in its slot.
    pub fn free(&mut self, region: &[u8])
        requires
            old(self).core_wf(),
            region@.len() == old(self).spec_capacity(),
        ensures
            final(self).core_wf(),
            old(self).tight() ==> final(self).tight(),
            final(self).slots() == old(self).slots(),
            final(self).spec_capacity() == old(self).spec_capacity(),
            final(self).data_bytes() == old(self).data_bytes(),
            final(self).payloads() == old(self).payloads(),
            final(self).spec_shm_path() == old(self).spec_shm_path(),
            forall|k: int| final(self).in_use(k) ==> old(self).in_use(k),
            forall|k: int|
                old(self).in_use(k) && !final(self).in_use(k) ==> HeadSegment::slot_read(region@, k),
            forall|k: int|
                final(self).in_use(k) ==> final(self).level(k) == old(self).level(k),
            (forall|k: int| final(self).in_use(k) == old(self).in_use(k)) ==> (forall|k: int|
                old(self).in_use(k) ==> !HeadSegment::slot_read(region@, k)),
            forall|k: int, j: int|
                old(self).in_use(k) && !final(self).in_use(k) && old(self).in_use(j)
                    && HeadSegment::slot_read(region@, j) ==> #[trigger] old(self).level(k)
                    <= #[trigger] old(self).level(j),
            forall|k: int, j: int|
                old(self).in_use(k) && !final(self).in_use(k) && old(self).in_use(j)
                    && HeadSegment::slot_read(region@, j) && #[trigger] old(self).level(j)
                    == #[trigger] old(self).level(k) ==> !final(self).in_use(j),
            forall|b: int|
                final(self).free_bytes().contains(b) == (old(self).free_bytes().contains(b) || exists|
                    k: int,
                |
                    old(self).in_use(k) && !final(self).in_use(k) && #[trigger] old(self).payload(
                        k,
                    ).contains(b)),
            forall|d: u64| #[trigger]
                final(self).cached().contains_key(d) ==> old(self).cached().contains_key(d)
                    && final(self).cached()[d] == old(self).cached()[d],
            forall|d: u64| #[trigger]
                old(self).cached().contains_key(d) && final(self).in_use(
                    old(self).cached()[d] as int,
                ) ==> final(self).cached().contains_key(d),
            final(self).swept(*old(self), region@),
            final(self).settled(*old(self), region@, true),
    {
        let ghost t0 = *self;
        self.collect(region);
        proof {
            assert forall|k: int| #[trigger] self.in_use(k) == (t0.in_use(k) && !t0.due(
                region@,
                k,
            )) by {
                if self.in_use(k) && t0.due(region@, k) {
                    // Something was given up, of the level of `k`; so `k` was.
                    let f = choose|f: int| self.in_use(f) != t0.in_use(f);
                    assert(t0.in_use(f) && !self.in_use(f));
                    assert(t0.level(f) <= t0.level(k));
                    assert(t0.level(k) <= t0.level(f));
                }
            }
            assert forall|b: int|
                self.free_bytes().contains(b) == (t0.free_bytes().contains(b) || exists|k: int|
                    t0.due(region@, k) && #[trigger] t0.payload(k).contains(b)) by {
                if exists|k: int|
                    t0.in_use(k) && !self.in_use(k) && #[trigger] t0.payload(k).contains(b) {
                    let k = choose|k: int|
                        t0.in_use(k) && !self.in_use(k) && #[trigger] t0.payload(k).contains(b);
                    assert(t0.due(region@, k));
                }
                if exists|k: int| t0.due(region@, k) && #[trigger] t0.payload(k).contains(b) {
                    let k = choose|k: int|
                        t0.due(region@, k) && #[trigger] t0.payload(k).contains(b);
                    assert(t0.in_use(k) && !self.in_use(k));
                }
            }
            assert forall|k: int| #[trigger] self.in_use(k) == t0.stays(region@, true, k) by {
                assert(self.in_use(k) == (t0.in_use(k) && !t0.due(region@, k)));
            }
            assert forall|d: u64| #[trigger]
                self.cached().contains_key(d) == (t0.cached().contains_key(d) && t0.stays(
                    region@,
                    true,
                    t0.cached()[d] as int,
                )) by {
                if self.cached().contains_key(d) {
                    assert(self.cached_data.datas().contains_key(self.cached_data.heads()[d]));
                    assert(self.in_use(self.cached()[d] as int));
                    assert(t0.cached().contains_key(d) && self.cached()[d] == t0.cached()[d]);
                }
                if t0.cached().contains_key(d) {
                    assert(self.in_use(t0.cached()[d] as int) == t0.stays(
                        region@,
                        true,
                        t0.cached()[d] as int,
                    ));
                }
            }
        }
    }

    /// Gives up the slots of the lowest level that every reader has read,
    /// and frees their payloads.
    fn collect(&mut self, region: &[u8])
        requires
            old(self).core_wf(),
            region@.len() == old(self).spec_capacity(),
        ensures
            final(self).core_wf(),
            old(self).tight() ==> final(self).tight(),
            final(self).slots() == old(self).slots(),
            final(self).spec_capacity() == old(self).spec_capacity(),
            final(self).data_bytes() == old(self).data_bytes(),
            final(self).payloads() == old(self).payloads(),
            final(self).spec_shm_path() == old(self).spec_shm_path(),
            forall|k: int| final(self).in_use(k) ==> old(self).in_use(k),
            forall|k: int|
                old(self).in_use(k) && !final(self).in_use(k) ==> HeadSegment::slot_read(region@, k),
            forall|k: int|
                final(self).in_use(k) ==> final(self).level(k) == old(self).level(k),
            (forall|k: int| final(self).in_use(k) == old(self).in_use(k)) ==> (forall|k: int|
                old(self).in_use(k) ==> !HeadSegment::slot_read(region@, k)),
            forall|k: int, j: int|
                old(self).in_use(k) && !final(self).in_use(k) && old(self).in_use(j)
                    && HeadSegment::slot_read(region@, j) ==> #[trigger] old(self).level(k)
                    <= #[trigger] old(self).level(j),
            forall|k: int, j: int|
                old(self).in_use(k) && !final(self).in_use(k) && old(self).in_use(j)
                    && HeadSegment::slot_read(region@, j) && #[trigger] old(self).level(j)
                    == #[trigger] old(self).level(k) ==> !final(self).in_use(j),
            forall|b: int|
                final(self).free_bytes().contains(b) == (old(self).free_bytes().contains(b) || exists|
                    k: int,
                |
                    old(self).in_use(k) && !final(self).in_use(k) && #[trigger] old(self).payload(
                        k,
                    ).contains(b)),
            forall|d: u64| #[trigger]
                final(self).cached().contains_key(d) ==> old(self).cached().contains_key(d)
                    && final(self).cached()[d] == old(self).cached()[d],
            forall|d: u64| #[trigger]
                old(self).cached().contains_key(d) && final(self).in_use(
                    old(self).cached()[d] as int,
                ) ==> final(self).cached().contains_key(d),
    {
        let ghost t0 = *self;
        let found = self.head_segment.free(region);
        let ghost hs = self.head_segment;
        match found {
            None => {
                proof {
                    assert forall|b: int|
                        self.free_bytes().contains(b) == (t0.free_bytes().contains(b) || exists|
                            k: int,
                        |
                            t0.in_use(k) && !self.in_use(k) && #[trigger] t0.payload(k).contains(
                                b,
                            )) by {}
                    assert forall|k: int| t0.in_use(k) implies !HeadSegment::slot_read(
                        region@,
                        k,
                    ) by {
                        assert(t0.head_segment.in_use(k));
                    }
                }
            },
            Some(unvalid_heads) => {
                let ghost freed = unvalid_heads@;
                let mut i: usize = 0;
                while i < unvalid_heads.len()
                    invariant
                        0 <= i <= freed.len(),
                        freed == unvalid_heads@,
                        t0 == *old(self),
                        t0.core_wf(),
                        self.head_segment == hs,
                        self.extents == t0.extents,
                        self.capacity == t0.capacity,
                        self.shmpath == t0.shmpath,
                        hs.wf(),
                        hs.spec_len() == t0.head_segment.spec_len(),
                        forall|a: int, b: int|
                            0 <= a < b < freed.len() ==> (#[trigger] freed[a]).1 < (
                            #[trigger] freed[b]).1,
                        forall|k: int|
                            hs.in_use(k) == (t0.head_segment.in_use(k) && !gives_up(freed, k)),
                        forall|k: int| gives_up(freed, k) ==> t0.head_segment.in_use(k),
                        self.data_segment.wf(),
                        self.data_segment.bytes() == t0.data_segment.bytes(),
                        forall|k: int|
                            t0.head_segment.in_use(k) && !gives_up(freed.take(i as int), k)
                                ==> #[trigger] t0.extents@[k].bytes().subset_of(
                                self.data_segment.used_bytes(),
                            ),
                        forall|b: int|
                            self.data_segment.free_bytes().contains(b) == (
                            t0.data_segment.free_bytes().contains(b) || exists|k: int|
                                gives_up(freed.take(i as int), k) && #[trigger] t0.extents@[k].bytes().contains(
                                    b,
                                )),
                        forall|h: usize| #[trigger]
                            self.cached_data.datas().contains_key(h) ==> t0.head_segment.in_use(
                                h as int,
                            ) && !gives_up(freed.take(i as int), h as int),
                        forall|d: u64| #[trigger]
                            self.cached_data.heads().contains_key(d)
                                ==> self.cached_data.datas().contains_key(
                                self.cached_data.heads()[d],
                            ) && self.cached_data.datas()[self.cached_data.heads()[d]] == d,
                        forall|d: u64| #[trigger]
                            self.cached_data.heads().contains_key(d)
                                ==> t0.cached_data.heads().contains_key(d)
                                && self.cached_data.heads()[d] == t0.cached_data.heads()[d],
                        forall|h: usize| #[trigger]
                            self.cached_data.datas().contains_key(h)
                                ==> self.cached_data.heads().contains_key(
                                self.cached_data.datas()[h],
                            ) && self.cached_data.heads()[self.cached_data.datas()[h]] == h,
                        forall|d: u64| #[trigger]
                            t0.cached_data.heads().contains_key(d) && !gives_up(
                                freed.take(i as int),
                                t0.cached_data.heads()[d] as int,
                            ) ==> self.cached_data.heads().contains_key(d),
                    decreases freed.len() - i,
                {
                    let idx = unvalid_heads[i].1;
                    let ghost done = freed.take(i as int);
                    let ghost next = freed.take(i + 1);
                    let ghost free0 = self.data_segment.free_bytes();
                    let ghost used0 = self.data_segment.used_bytes();
                    proof {
                        assert(freed[i as int].1 == idx);
                        assert(gives_up(freed, idx as int));
                        assert(!gives_up(done, idx as int)) by {
                            if gives_up(done, idx as int) {
                                let a = choose|a: int|
                                    0 <= a < done.len() && (#[trigger] done[a]).1 == idx;
                                assert(done[a] == freed[a]);
                                assert(freed[a].1 < freed[i as int].1);
                            }
                        }
                        assert(next =~= done.push(freed[i as int]));
                        assert forall|k: int| gives_up(next, k) == (gives_up(done, k) || k == idx) by {
                            if gives_up(next, k) {
                                let a = choose|a: int|
                                    0 <= a < next.len() && (#[trigger] next[a]).1 == k;
                                if a < done.len() {
                                    assert(done[a].1 == k);
                                }
                            }
                            if gives_up(done, k) {
                                let a = choose|a: int|
                                    0 <= a < done.len() && (#[trigger] done[a]).1 == k;
                                assert(next[a].1 == k);
                            }
                            if k == idx {
                                assert(next[i as int].1 == k);
                            }
                        }
                        assert(t0.extents@[idx as int].bytes().subset_of(used0));
                        self.data_segment.law_free_within();
                    }
                    let ghost heads0 = self.cached_data.heads();
                    let ghost datas0 = self.cached_data.datas();
                    self.cached_data.remove(idx);
                    proof {
                        assert forall|d: u64| #[trigger]
                            t0.cached_data.heads().contains_key(d) && !gives_up(
                                next,
                                t0.cached_data.heads()[d] as int,
                            ) implies self.cached_data.heads().contains_key(d) by {
                            assert(heads0.contains_key(d));
                            assert(heads0[d] != idx);
                            if datas0.contains_key(idx) {
                                assert(heads0[datas0[idx]] == idx);
                            }
                        }
                        assert forall|h: usize| #[trigger]
                            self.cached_data.datas().contains_key(h) implies self.cached_data.heads().contains_key(
                            self.cached_data.datas()[h],
                        ) && self.cached_data.heads()[self.cached_data.datas()[h]] == h by {
                            assert(datas0.contains_key(h) && h != idx);
                            assert(heads0[datas0[h]] == h);
                            if datas0.contains_key(idx) {
                                assert(heads0[datas0[idx]] == idx);
                            }
                        }
                    }
                    let data = self.extents[idx];
                    proof {
                        assert forall|b: int|
                            data.spec_off() <= b < data.spec_off() + data.spec_len() implies #[trigger] self.data_segment.used_bytes().contains(
                            b,
                        ) by {
                            assert(data.bytes().contains(b));
                        }
                        assert(data.bytes().subset_of(t0.data_segment.bytes()));
                        if data.spec_len() > 0 {
                            assert(data.bytes().contains(data.spec_off() + data.spec_len() - 1));
                            assert(t0.data_segment.bytes().contains(
                                data.spec_off() + data.spec_len() - 1,
                            ));
                        }
                    }
                    if data.len() > 0 {
                        self.data_segment.free(data.off(), data.len());
                    }
                    proof {
                        let free1 = self.data_segment.free_bytes();
                        assert forall|b: int| free1.contains(b) == (free0.contains(b)
                            || data.bytes().contains(b)) by {}
                        assert forall|k: int|
                            t0.head_segment.in_use(k) && !gives_up(next, k) implies #[trigger] t0.extents@[k].bytes().subset_of(
                            self.data_segment.used_bytes(),
                        ) by {
                            assert(t0.extents@[k].bytes().subset_of(used0));
                            assert(t0.head_segment.in_use(idx as int));
                            assert(t0.extents@[k].bytes().disjoint(t0.extents@[idx as int].bytes()));
                        }
                        assert forall|b: int|
                            free1.contains(b) == (t0.data_segment.free_bytes().contains(b) || exists|
                                k: int,
                            |
                                gives_up(next, k) && #[trigger] t0.extents@[k].bytes().contains(b)) by {
                            if free0.contains(b) && !t0.data_segment.free_bytes().contains(b) {
                                let k = choose|k: int|
                                    gives_up(done, k) && #[trigger] t0.extents@[k].bytes().contains(
                                        b,
                                    );
                                assert(gives_up(next, k));
                            }
                            if data.bytes().contains(b) {
                                assert(gives_up(next, idx as int));
                                assert(t0.extents@[idx as int].bytes().contains(b));
                            }
                            if exists|k: int|
                                gives_up(next, k) && #[trigger] t0.extents@[k].bytes().contains(b) {
                                let k = choose|k: int|
                                    gives_up(next, k) && #[trigger] t0.extents@[k].bytes().contains(
                                        b,
                                    );
                                if k != idx {
                                    assert(gives_up(done, k));
                                }
                            }
                        }
                    }
                    i += 1;
                }
                proof {
                    assert(freed.take(i as int) =~= freed);
                    assert forall|k: int| #[trigger]
                        self.head_segment.in_use(k) implies self.extents@[k].bytes().subset_of(
                        self.data_segment.used_bytes(),
                    ) by {
                        assert(t0.head_segment.in_use(k) && !gives_up(freed, k));
                    }
                    assert forall|j: int, k: int|
                        #[trigger] self.head_segment.in_use(j) && #[trigger] self.head_segment.in_use(
                            k,
                        ) && j != k implies self.extents@[j].bytes().disjoint(
                        self.extents@[k].bytes(),
                    ) by {
                        assert(t0.head_segment.in_use(j) && t0.head_segment.in_use(k));
                    }
                    assert forall|b: int|
                        self.free_bytes().contains(b) == (t0.free_bytes().contains(b) || exists|
                            k: int,
                        |
                            t0.in_use(k) && !self.in_use(k) && #[trigger] t0.payload(k).contains(
                                b,
                            )) by {
                        if exists|k: int|
                            gives_up(freed, k) && #[trigger] t0.extents@[k].bytes().contains(b) {
                            let k = choose|k: int|
                                gives_up(freed, k) && #[trigger] t0.extents@[k].bytes().contains(b);
                            assert(t0.in_use(k) && !self.in_use(k) && t0.payload(k).contains(b));
                        }
                        if exists|k: int|
                            t0.in_use(k) && !self.in_use(k) && #[trigger] t0.payload(k).contains(b) {
                            let k = choose|k: int|
                                t0.in_use(k) && !self.in_use(k) && #[trigger] t0.payload(
                                    k,
                                ).contains(b);
                            assert(gives_up(freed, k));
                            assert(t0.extents@[k].bytes().contains(b));
                        }
                    }
                    if t0.tight() {
                        assert forall|b: int| #[trigger]
                            self.data_segment.used_bytes().contains(b) implies exists|k: int|
                            #[trigger] self.head_segment.in_use(k) && self.extents@[k].bytes().contains(
                                b,
                            ) by {
                            assert(t0.data_segment.used_bytes().contains(b));
                            let k = choose|k: int| #[trigger]
                                t0.head_segment.in_use(k) && t0.extents@[k].bytes().contains(b);
                            if gives_up(freed, k) {
                                assert(self.data_segment.free_bytes().contains(b));
                            }
                        }
                    }
                    assert(gives_up(freed, freed[0].1 as int));
                    assert(t0.in_use(freed[0].1 as int) && !self.in_use(freed[0].1 as int));
                    let lowest = t0.head_segment.level(freed[0].1 as int);
                    assert forall|k: int, j: int|
                        t0.in_use(k) && !self.in_use(k) && t0.in_use(j) && HeadSegment::slot_read(
                            region@,
                            j,
                        ) implies #[trigger] t0.level(k) <= #[trigger] t0.level(j) by {
                        assert(gives_up(freed, k));
                        assert(t0.head_segment.level(k) == lowest);
                    }
                    assert forall|k: int, j: int|
                        t0.in_use(k) && !self.in_use(k) && t0.in_use(j) && HeadSegment::slot_read(
                            region@,
                            j,
                        ) && #[trigger] t0.level(j) == #[trigger] t0.level(k) implies !self.in_use(
                        j,
                    ) by {
                        assert(gives_up(freed, k));
                        assert(gives_up(freed, j));
                    }
                }
            },
        }
    }

    /// Whether no free extent has `len` bytes.
    pub open spec fn lacks_bytes(&self, len: int) -> bool {
        forall|z: (u64, u64)| self.free_extents().contains(z) ==> z.1 - z.0 < len
    }

    /// Whether every slot is in use.
    pub open spec fn lacks_slot(&self) -> bool {
        forall|k: int| 0 <= k < self.slots() ==> self.in_use(k)
    }

    /// Whether the slot `k` stays in use when, where `sweep` says so, the
    /// slots that are due are given up.
    pub open spec fn stays(&self, region: Seq<u8>, sweep: bool, k: int) -> bool {
        self.in_use(k) && !(sweep && self.due(region, k))
    }

    /// What the slots and the cached samples are when, where `sweep` says
    /// so, the slots that are due have been given up, and nothing else is
    /// done: the slots in use are those that stay, with their levels and
    /// their payloads, and the cached samples are those of the slots that
    /// stay.
    pub open spec fn settled(&self, before: Cache, region: Seq<u8>, sweep: bool) -> bool {
        &&& self.slots() == before.slots()
        &&& self.spec_capacity() == before.spec_capacity()
        &&& self.spec_shm_path() == before.spec_shm_path()
        &&& self.data_bytes() == before.data_bytes()
        &&& self.payloads() == before.payloads()
        &&& forall|k: int| #[trigger] self.in_use(k) == before.stays(region, sweep, k)
        &&& forall|k: int| self.in_use(k) ==> self.level(k) == before.level(k)
        &&& forall|d: u64| #[trigger]
            self.cached().contains_key(d) == (before.cached().contains_key(d) && before.stays(
                region,
                sweep,
                before.cached()[d] as int,
            ))
        &&& forall|d: u64| #[trigger]
            self.cached().contains_key(d) ==> self.cached()[d] == before.cached()[d]
    }

    /// What the slots are when, where `sweep` says so, the slots that are
    /// due have been given up, and the first slot that is then free, which
    /// is `idx`, has been taken into use: the other slots in use are those
    /// that stay, with their levels and their payloads.
    pub open spec fn taken(&self, before: Cache, region: Seq<u8>, sweep: bool, idx: int) -> bool {
        &&& self.slots() == before.slots()
        &&& self.spec_capacity() == before.spec_capacity()
        &&& self.spec_shm_path() == before.spec_shm_path()
        &&& self.data_bytes() == before.data_bytes()
        &&& 0 <= idx < before.slots()
        &&& self.in_use(idx)
        &&& !before.stays(region, sweep, idx)
        &&& forall|k: int| 0 <= k < idx ==> #[trigger] before.stays(region, sweep, k)
        &&& forall|k: int| k != idx ==> #[trigger] self.in_use(k) == before.stays(region, sweep, k)
        &&& forall|k: int|
            k != idx && self.in_use(k) ==> self.level(k) == before.level(k) && self.payloads()[k]
                == before.payloads()[k]
    }

    /// Once the slots are settled, with or without a sweep, the slots that
    /// stay through a sweep that is not the second are those that stay
    /// through the one sweep from the start.
    proof fn lemma_stays(s0: Cache, s1: Cache, region: Seq<u8>, a: bool, b: bool)
        requires
            s1.settled(s0, region, a),
            !(a && b),
        ensures
            forall|k: int| #[trigger] s1.stays(region, b, k) == s0.stays(region, a || b, k),
            !a ==> s1.lacks_slot() == s0.lacks_slot(),
    {
        assert forall|j: int| s1.in_use(j) == s0.stays(region, a, j) by {}
        if !a {
            assert forall|k: int| s1.due(region, k) == s0.due(region, k) by {
                assert(s1.in_use(k) == s0.stays(region, a, k));
                if s1.in_use(k) && HeadSegment::slot_read(region, k) {
                    assert(s1.level(k) == s0.level(k));
                    if s0.due(region, k) {
                        assert forall|j: int|
                            s1.in_use(j) && HeadSegment::slot_read(region, j) implies s1.level(k)
                            <= #[trigger] s1.level(j) by {
                            assert(s1.in_use(j) == s0.stays(region, a, j));
                            assert(s0.level(k) <= s0.level(j));
                        }
                    }
                    if s1.due(region, k) {
                        assert forall|j: int|
                            s0.in_use(j) && HeadSegment::slot_read(region, j) implies s0.level(k)
                            <= #[trigger] s0.level(j) by {
                            assert(s1.in_use(j) == s0.stays(region, a, j));
                            assert(s1.level(k) <= s1.level(j));
                        }
                    }
                }
            }
            assert(s1.lacks_slot() == s0.lacks_slot()) by {
                assert forall|j: int| s1.in_use(j) == s0.in_use(j) by {
                    assert(s1.in_use(j) == s0.stays(region, a, j));
                }
            }
        }
        assert forall|k: int| #[trigger] s1.stays(region, b, k) == s0.stays(region, a || b, k) by {
            assert(s1.in_use(k) == s0.stays(region, a, k));
        }
    }

    /// Two caches with the same slots and the same cached samples are
    /// settled alike.
    proof fn lemma_same(x: Cache, y: Cache, before: Cache, region: Seq<u8>, sweep: bool)
        requires
            x.settled(before, region, sweep),
            y.head_segment == x.head_segment,
            y.extents == x.extents,
            y.cached_data == x.cached_data,
            y.capacity == x.capacity,
            y.shmpath == x.shmpath,
            y.data_segment.bytes() == x.data_segment.bytes(),
        ensures
            y.settled(before, region, sweep),
    {
        assert forall|k: int| #[trigger] y.in_use(k) == before.stays(region, sweep, k) by {
            assert(x.in_use(k) == before.stays(region, sweep, k));
        }
        assert forall|k: int| y.in_use(k) implies y.level(k) == before.level(k) by {
            assert(x.in_use(k));
        }
        assert forall|d: u64| #[trigger]
            y.cached().contains_key(d) == (before.cached().contains_key(d) && before.stays(
                region,
                sweep,
                before.cached()[d] as int,
            )) by {
            assert(x.cached().contains_key(d) == y.cached().contains_key(d));
        }
        assert forall|d: u64| #[trigger] y.cached().contains_key(d) implies y.cached()[d]
            == before.cached()[d] by {
            assert(x.cached().contains_key(d));
        }
    }

    /// What is settled from a cache is settled from one with the same slots
    /// and the same cached samples.
    proof fn lemma_same_start(x: Cache, a: Cache, b: Cache, region: Seq<u8>, sweep: bool)
        requires
            x.settled(a, region, sweep),
            b.head_segment == a.head_segment,
            b.extents == a.extents,
            b.cached_data == a.cached_data,
            b.capacity == a.capacity,
            b.shmpath == a.shmpath,
            b.data_segment.bytes() == a.data_segment.bytes(),
        ensures
            x.settled(b, region, sweep),
    {
        assert forall|k: int| a.due(region, k) == b.due(region, k) by {
            if a.due(region, k) {
                assert forall|j: int|
                    b.in_use(j) && HeadSegment::slot_read(region, j) implies b.level(k)
                    <= #[trigger] b.level(j) by {
                    assert(a.in_use(j));
                    assert(a.level(k) <= a.level(j));
                }
            }
            if b.due(region, k) {
                assert forall|j: int|
                    a.in_use(j) && HeadSegment::slot_read(region, j) implies a.level(k)
                    <= #[trigger] a.level(j) by {
                    assert(b.in_use(j));
                    assert(b.level(k) <= b.level(j));
                }
            }
        }
        assert forall|k: int| #[trigger] x.in_use(k) == b.stays(region, sweep, k) by {
            assert(x.in_use(k) == a.stays(region, sweep, k));
        }
        assert forall|k: int| x.in_use(k) implies x.level(k) == b.level(k) by {
            assert(x.in_use(k) == a.stays(region, sweep, k));
        }
        assert forall|d: u64| #[trigger] x.cached().contains_key(d) implies x.cached()[d]
            == b.cached()[d] by {}
        assert forall|d: u64| #[trigger]
            x.cached().contains_key(d) == (b.cached().contains_key(d) && b.stays(
                region,
                sweep,
                b.cached()[d] as int,
            )) by {
            assert(x.cached().contains_key(d) == (a.cached().contains_key(d) && a.stays(
                region,
                sweep,
                a.cached()[d] as int,
            )));
        }
    }

    /// Takes a slot and `len` bytes of the data segment for the sample
    /// `data_id`, writes the slot's descriptor with the mask armed for
    /// `loader_cnt` readers, and notes the sample as cached, in this slot
    /// alone. Returns where the payload begins, and the slot.
    ///
    /// Where no free extent has the bytes, or no slot is free, the slots
    /// that are due are given up once: those that every reader has read,
    /// of the lowest level that has some. The slot is then the first that
    /// is free. None is returned where that is not enough: the slots that
    /// were due are given up all the same, and the caller may try again
    /// when readers have gone on.
    pub fn allocate(
        &mut self,
        region: &mut [u8],
        len: usize,
        ref_cnt: usize,
        data_id: u64,
        loader_cnt: usize,
    ) -> (r: Option<(u64, usize)>)
        requires
            old(self).wf(),
            old(region)@.len() == old(self).spec_capacity(),
            len <= u32::MAX,
            ref_cnt < 64,
            loader_cnt <= 8,
        ensures
            final(self).wf(),
            final(self).slots() == old(self).slots(),
            final(self).spec_capacity() == old(self).spec_capacity(),
            final(self).spec_shm_path() == old(self).spec_shm_path(),
            final(self).data_bytes() == old(self).data_bytes(),
            final(region)@.len() == old(region)@.len(),
            forall|k: int|
                old(self).in_use(k) && !final(self).in_use(k) ==> HeadSegment::slot_read(
                    old(region)@,
                    k,
                ),
            match r {
                Some((off, idx)) => {
                    &&& idx < old(self).slots()
                    &&& final(self).taken(
                        *old(self),
                        old(region)@,
                        old(self).lacks_bytes(len as int) || old(self).lacks_slot(),
                        idx as int,
                    )
                    &&& old(self).in_use(idx as int) ==> HeadSegment::slot_read(
                        old(region)@,
                        idx as int,
                    )
                    &&& final(self).level(idx as int) == ref_cnt
                    &&& final(self).payload_off(idx as int) == off
                    &&& final(self).payload_len(idx as int) == len
                    &&& final(self).cached().contains_key(data_id)
                    &&& final(self).cached()[data_id] == idx
                    &&& head_len(final(region)@, 20 * idx) == len
                    &&& head_off(final(region)@, 20 * idx) == off
                    &&& head_mask(final(region)@, 20 * idx) == armed(loader_cnt as int)
                    &&& unread_count(head_mask(final(region)@, 20 * idx)) == loader_cnt
                    &&& forall|i: int|
                        0 <= i < old(region)@.len() && !(20 * idx <= i < 20 * idx + 20)
                            ==> final(region)@[i] == old(region)@[i]
                    &&& forall|k: int| 0 <= k < idx ==> final(self).in_use(k)
                    &&& forall|d: u64|
                        d != data_id ==> #[trigger] final(self).cached().contains_key(d) == (old(
                            self,
                        ).cached().contains_key(d) && old(self).stays(
                            old(region)@,
                            old(self).lacks_bytes(len as int) || old(self).lacks_slot(),
                            old(self).cached()[d] as int,
                        ))
                    &&& forall|d: u64|
                        d != data_id && #[trigger] final(self).cached().contains_key(d)
                            ==> final(self).cached()[d] == old(self).cached()[d]
                },
                None => {
                    &&& final(region)@ == old(region)@
                    &&& old(self).lacks_bytes(len as int) || old(self).lacks_slot()
                    &&& final(self).settled(*old(self), old(region)@, true)
                    &&& final(self).lacks_bytes(len as int) || final(self).lacks_slot()
                },
            },
    {
        let ghost s0 = *self;
        let ghost reg = region@;
        let ghost sweep = s0.lacks_bytes(len as int) || s0.lacks_slot();
        // Bytes first: to make room for them may take slots.
        let (found, swept) = self.allocate_data(region, len as u64);
        let data = match found {
            Some(data) => data,
            None => {
                proof {
                    assert forall|k: int| s0.in_use(k) && !self.in_use(
                        k,
                    ) implies HeadSegment::slot_read(reg, k) by {
                        assert(self.in_use(k) == s0.stays(reg, true, k));
                    }
                }
                return None;
            },
        };
        let ghost s1 = *self;
        let ghost b = !swept && s1.lacks_slot();
        proof {
            Self::lemma_stays(s0, s1, reg, swept, b);
            assert((swept || b) == sweep);
        }
        let (mut head, idx) = match self.allocate_head(region, ref_cnt, data, swept) {
            Some(slot) => slot,
            None => {
                let ghost s2 = *self;
                proof {
                    self.data_segment.law_free_within();
                    assert forall|b: int|
                        data.spec_off() <= b < data.spec_off() + data.spec_len() implies #[trigger] self.data_segment.used_bytes().contains(
                        b,
                    ) by {
                        assert(data.bytes().contains(b));
                    }
                    if data.spec_len() > 0 {
                        assert(data.bytes().contains(data.spec_off() + data.spec_len() - 1));
                        assert(self.data_segment.bytes().contains(
                            data.spec_off() + data.spec_len() - 1,
                        ));
                    }
                }
                if data.len() > 0 {
                    self.data_segment.free(data.off(), data.len());
                }
                proof {
                    self.data_segment.law_free_within();
                    assert forall|k: int| #[trigger]
                        self.head_segment.in_use(k) implies self.extents@[k].bytes().subset_of(
                        self.data_segment.used_bytes(),
                    ) by {
                        assert(s2.extents@[k].bytes().subset_of(s2.data_segment.used_bytes()));
                        assert(s2.extents@[k].bytes().disjoint(data.bytes()));
                    }
                    assert forall|b: int| #[trigger]
                        self.data_segment.used_bytes().contains(b) implies exists|k: int|
                        #[trigger] self.head_segment.in_use(k) && self.extents@[k].bytes().contains(
                            b,
                        ) by {
                        assert(s2.data_segment.used_bytes().contains(b));
                        assert(!data.bytes().contains(b));
                    }
                    assert(self.core_wf());
                    assert(self.tight());
                    Self::lemma_same(s2, *self, s1, reg, b);
                    assert(self.lacks_slot()) by {
                        assert forall|k: int| 0 <= k < self.slots() implies self.in_use(k) by {
                            assert(s2.in_use(k));
                        }
                    }
                    // Every slot is in use, as before: none was due.
                    assert forall|k: int| #[trigger] self.in_use(k) == s0.stays(reg, sweep, k) by {
                        assert(self.in_use(k) == s1.stays(reg, b, k));
                    }
                    s0.law_bytes(0);
                    assert forall|k: int| 0 <= k < s0.slots() implies s0.in_use(k) by {
                        assert(self.in_use(k) == s0.stays(reg, sweep, k));
                    }
                    assert(s0.lacks_slot());
                    assert forall|k: int| #[trigger] self.in_use(k) == s0.stays(reg, true, k) by {
                        assert(self.in_use(k) == s0.stays(reg, sweep, k));
                        if s0.in_use(k) {
                            assert(0 <= k < s0.slots());
                            assert(self.in_use(k));
                        }
                    }
                    assert forall|d: u64| #[trigger]
                        self.cached().contains_key(d) == (s0.cached().contains_key(d) && s0.stays(
                            reg,
                            true,
                            s0.cached()[d] as int,
                        )) by {
                        if s0.cached().contains_key(d) {
                            let h = s0.cached()[d] as int;
                            assert(s0.in_use(h));
                            assert(self.in_use(h) == s0.stays(reg, true, h));
                            assert(s1.cached().contains_key(d) == s0.stays(reg, swept, h));
                            if s1.cached().contains_key(d) {
                                assert(s1.cached()[d] == s0.cached()[d]);
                                assert(self.cached().contains_key(d) == s1.stays(reg, b, h));
                            }
                        }
                    }
                    assert forall|k: int| self.in_use(k) implies self.level(k) == s0.level(k) by {
                        assert(self.in_use(k) == s1.stays(reg, b, k));
                    }
                    assert forall|d: u64| #[trigger] self.cached().contains_key(d) implies self.cached()[d]
                        == s0.cached()[d] by {
                        assert(s1.cached().contains_key(d));
                    }
                    assert(self.settled(s0, reg, true));
                    assert forall|k: int| s0.in_use(k) && !self.in_use(
                        k,
                    ) implies HeadSegment::slot_read(reg, k) by {
                        assert(self.in_use(k) == s0.stays(reg, true, k));
                    }
                }
                return None;
            },
        };
        let ghost s2 = *self;
        head.set(region, len as u32, data.off(), loader_cnt);
        // The sample stands in this slot alone.
        match self.cached_data.contains(data_id) {
            Some(stale) => {
                self.cached_data.remove(stale);
            },
            None => {},
        }
        self.cached_data.add(idx, data_id);
        proof {
            let heads2 = s2.cached_data.heads();
            let datas2 = s2.cached_data.datas();
            assert(!datas2.contains_key(idx));
            assert forall|h: usize| #[trigger]
                self.cached_data.datas().contains_key(h) implies self.head_segment.in_use(
                h as int,
            ) && self.cached_data.heads().contains_key(self.cached_data.datas()[h])
                && self.cached_data.heads()[self.cached_data.datas()[h]] == h by {
                if h != idx {
                    assert(datas2.contains_key(h));
                    assert(heads2[datas2[h]] == h);
                }
            }
            assert forall|d: u64| #[trigger]
                self.cached_data.heads().contains_key(d) implies self.cached_data.datas().contains_key(
                self.cached_data.heads()[d],
            ) && self.cached_data.datas()[self.cached_data.heads()[d]] == d by {
                if d != data_id {
                    assert(heads2.contains_key(d));
                    assert(datas2.contains_key(heads2[d]));
                }
            }
            assert forall|d: u64| d != data_id implies #[trigger] self.cached().contains_key(d)
                == s2.cached().contains_key(d) by {}
            assert forall|d: u64| d != data_id && #[trigger] self.cached().contains_key(
                d,
            ) implies self.cached()[d] == s2.cached()[d] by {}
            assert(s2.taken(s1, reg, b, idx as int));
            assert(self.taken(s0, reg, sweep, idx as int)) by {
                assert forall|k: int| 0 <= k < idx implies #[trigger] s0.stays(reg, sweep, k) by {
                    assert(s1.stays(reg, b, k));
                }
                assert forall|k: int| k != idx implies #[trigger] self.in_use(k) == s0.stays(
                    reg,
                    sweep,
                    k,
                ) by {
                    assert(s2.in_use(k) == s1.stays(reg, b, k));
                }
                assert forall|k: int| k != idx && self.in_use(k) implies self.level(k) == s0.level(
                    k,
                ) && self.payloads()[k] == s0.payloads()[k] by {
                    assert(s2.in_use(k) == s1.stays(reg, b, k));
                    assert(s1.in_use(k));
                }
                assert(!s0.stays(reg, sweep, idx as int)) by {
                    assert(!s1.stays(reg, b, idx as int));
                }
            }
            assert forall|d: u64| d != data_id implies #[trigger] self.cached().contains_key(d) == (
            s0.cached().contains_key(d) && s0.stays(reg, sweep, s0.cached()[d] as int)) by {
                assert(self.cached().contains_key(d) == s2.cached().contains_key(d));
                if s0.cached().contains_key(d) {
                    let h = s0.cached()[d] as int;
                    assert(s1.cached().contains_key(d) == s0.stays(reg, swept, h));
                    if s1.cached().contains_key(d) {
                        assert(s1.cached()[d] == s0.cached()[d]);
                        assert(s2.cached().contains_key(d) == s1.stays(reg, b, h));
                    }
                } else {
                    assert(!s1.cached().contains_key(d));
                }
            }
            assert forall|d: u64| d != data_id && #[trigger] self.cached().contains_key(
                d,
            ) implies self.cached()[d] == s0.cached()[d] by {
                assert(s2.cached().contains_key(d));
                assert(s1.cached().contains_key(d));
            }
            assert forall|k: int| s0.in_use(k) && !self.in_use(k) implies HeadSegment::slot_read(
                reg,
                k,
            ) by {
                assert(self.in_use(k) == s0.stays(reg, sweep, k));
            }
            assert forall|k: int| 0 <= k < idx implies self.in_use(k) by {
                assert(s0.stays(reg, sweep, k));
            }
            assert(self.core_wf());
            assert(self.tight());
            assert(self.in_use(idx as int));
            assert(self.level(idx as int) == ref_cnt);
            assert(self.payloads()[idx as int] == data);
            assert(self.payload_off(idx as int) == data.spec_off());
            assert(self.payload_len(idx as int) == len);
            assert(self.cached().contains_key(data_id) && self.cached()[data_id] == idx);
            assert(head_len(region@, 20 * idx) == len);
            assert(head_off(region@, 20 * idx) == data.spec_off());
        }
        Some((data.off(), idx))
    }

    /// The free extents of the data segment.
    pub closed spec fn free_extents(&self) -> Set<(u64, u64)> {
        self.data_segment.extents()
    }

    /// The bytes `data` are taken out of the free bytes for a payload that
    /// no slot has yet: they are bytes of no payload, and every other byte
    /// that is not free is one of a payload.
    pub closed spec fn set_aside(&self, data: Data) -> bool {
        &&& data.bytes().subset_of(self.data_segment.used_bytes())
        &&& forall|k: int| #[trigger]
            self.head_segment.in_use(k) ==> self.extents@[k].bytes().disjoint(data.bytes())
        &&& forall|b: int| #[trigger]
            self.data_segment.used_bytes().contains(b) ==> data.bytes().contains(b) || exists|
                k: int,
            | #[trigger] self.head_segment.in_use(k) && self.extents@[k].bytes().contains(b)
    }

    /// What stays when slots are given up: no slot comes into use, and one
    /// that goes out of use has been read by every reader; the slots keep
    /// their payloads and their levels; no sample comes to be cached.
    pub open spec fn gave_up(&self, before: Cache, region: Seq<u8>) -> bool {
        &&& self.slots() == before.slots()
        &&& self.spec_capacity() == before.spec_capacity()
        &&& self.spec_shm_path() == before.spec_shm_path()
        &&& self.data_bytes() == before.data_bytes()
        &&& self.payloads() == before.payloads()
        &&& forall|k: int| self.in_use(k) ==> before.in_use(k)
        &&& forall|k: int|
            before.in_use(k) && !self.in_use(k) ==> HeadSegment::slot_read(region, k)
        &&& forall|k: int| self.in_use(k) ==> self.level(k) == before.level(k)
        &&& forall|d: u64| #[trigger]
            self.cached().contains_key(d) ==> before.cached().contains_key(d) && self.cached()[d]
                == before.cached()[d]
    }

    /// Whether the slot `k` is due to be given up: it is in use, every
    /// reader has read it, and no slot in use that every reader has read is
    /// of a lower level.
    pub open spec fn due(&self, region: Seq<u8>, k: int) -> bool {
        &&& self.in_use(k)
        &&& HeadSegment::slot_read(region, k)
        &&& forall|j: int|
            self.in_use(j) && HeadSegment::slot_read(region, j) ==> self.level(k)
                <= #[trigger] self.level(j)
    }

    /// What giving slots up once does: the slots that were due are in use
    /// no more, and no others; their payloads are free; and the rest stays
    /// as `gave_up` says.
    pub open spec fn swept(&self, before: Cache, region: Seq<u8>) -> bool {
        &&& self.gave_up(before, region)
        &&& forall|k: int| #[trigger] self.in_use(k) == (before.in_use(k) && !before.due(region, k))
        &&& forall|b: int|
            self.free_bytes().contains(b) == (before.free_bytes().contains(b) || exists|k: int|
                before.due(region, k) && #[trigger] before.payload(k).contains(b))
    }

    /// Takes `request_len` free bytes into use. Where no free extent has as
    /// many, the slots that are due are given up, and it tries again.
    /// Returns the bytes, and whether slots were given up.
    fn allocate_data(&mut self, region: &[u8], request_len: u64) -> (r: (Option<Data>, bool))
        requires
            old(self).wf(),
            region@.len() == old(self).spec_capacity(),
        ensures
            final(self).core_wf(),
            r.1 == old(self).lacks_bytes(request_len as int),
            final(self).settled(*old(self), region@, r.1),
            match r.0 {
                Some(data) => data.spec_len() == request_len && final(self).set_aside(data),
                None => r.1 && final(self).tight() && final(self).lacks_bytes(request_len as int),
            },
    {
        let ghost s0 = *self;
        let first = self.data_segment.allocate(request_len);
        match first {
            Some(d) => {
                proof {
                    Self::lemma_set_aside(s0, *self, d);
                    assert(self.set_aside(d));
                    assert(d.spec_len() == request_len);
                    assert(self.core_wf());
                    let z = choose|z: (u64, u64)|
                        s0.data_segment.extents().contains(z) && z.0 == d.spec_off() && d.spec_off()
                            + request_len <= z.1;
                    assert(s0.free_extents().contains(z));
                    assert(!s0.lacks_bytes(request_len as int));
                    s0.law_bytes(0);
                    assert(self.settled(s0, region@, false));
                }
                (Some(d), false)
            },
            None => {
                proof {
                    assert(self.core_wf());
                    assert(self.data_segment.used_bytes() == s0.data_segment.used_bytes());
                    assert forall|b: int| #[trigger]
                        self.data_segment.used_bytes().contains(b) implies exists|k: int|
                        #[trigger] self.head_segment.in_use(k) && self.extents@[k].bytes().contains(
                            b,
                        ) by {
                        assert(s0.data_segment.used_bytes().contains(b));
                        let k = choose|k: int| #[trigger]
                            s0.head_segment.in_use(k) && s0.extents@[k].bytes().contains(b);
                        assert(self.head_segment.in_use(k) && self.extents@[k].bytes().contains(b));
                    }
                    assert(self.tight());
                    assert(s0.lacks_bytes(request_len as int));
                }
                let ghost s0b = *self;
                self.free(region);
                let ghost s1 = *self;
                proof {
                    Self::lemma_same_start(s1, s0b, s0, region@, true);
                }
                let second = self.data_segment.allocate(request_len);
                proof {
                    match second {
                        Some(d) => {
                            Self::lemma_set_aside(s1, *self, d);
                            assert(self.set_aside(d));
                        },
                        None => {
                            assert(s1.tight());
                            assert(self.data_segment.used_bytes() == s1.data_segment.used_bytes());
                            assert forall|b: int| #[trigger]
                                self.data_segment.used_bytes().contains(b) implies exists|k: int|
                                #[trigger] self.head_segment.in_use(k)
                                    && self.extents@[k].bytes().contains(b) by {
                                assert(s1.data_segment.used_bytes().contains(b));
                                let k = choose|k: int| #[trigger]
                                    s1.head_segment.in_use(k) && s1.extents@[k].bytes().contains(b);
                                assert(self.head_segment.in_use(k) && self.extents@[k].bytes().contains(
                                    b,
                                ));
                            }
                            assert(self.tight());
                            assert(self.lacks_bytes(request_len as int));
                        },
                    }
                    assert(s1.settled(s0, region@, true));
                    Self::lemma_same(s1, *self, s0, region@, true);
                }
                (second, true)
            },
        }
    }

    /// Once free bytes are taken into use for a payload, they are set
    /// aside.
    proof fn lemma_set_aside(pre: Cache, post: Cache, d: Data)
        requires
            pre.wf(),
            post.head_segment == pre.head_segment,
            post.extents == pre.extents,
            post.cached_data == pre.cached_data,
            post.capacity == pre.capacity,
            post.shmpath == pre.shmpath,
            post.data_segment.wf(),
            post.data_segment.bytes() == pre.data_segment.bytes(),
            d.bytes().subset_of(pre.data_segment.free_bytes()),
            post.data_segment.free_bytes() == pre.data_segment.free_bytes().difference(d.bytes()),
        ensures
            post.core_wf(),
            post.set_aside(d),
    {
        pre.data_segment.law_free_within();
        post.data_segment.law_free_within();
        assert forall|k: int| #[trigger]
            post.head_segment.in_use(k) implies post.extents@[k].bytes().disjoint(d.bytes())
            && post.extents@[k].bytes().subset_of(post.data_segment.used_bytes()) by {
            assert(pre.extents@[k].bytes().subset_of(pre.data_segment.used_bytes()));
        }
        assert forall|b: int| #[trigger]
            post.data_segment.used_bytes().contains(b) implies d.bytes().contains(b) || exists|
            k: int,
        | #[trigger] post.head_segment.in_use(k) && post.extents@[k].bytes().contains(b) by {
            if !d.bytes().contains(b) {
                assert(pre.data_segment.used_bytes().contains(b));
                let k = choose|k: int| #[trigger]
                    pre.head_segment.in_use(k) && pre.extents@[k].bytes().contains(b);
                assert(post.head_segment.in_use(k) && post.extents@[k].bytes().contains(b));
            }
        }
    }

    /// Takes the first free slot into use for the payload `data`, which is
    /// set aside, at the level `ref_cnt`. Where no slot is free and no
    /// slots were given up before, as `swept` tells, the slots that are due
    /// are given up, and it tries again.
    fn allocate_head(&mut self, region: &[u8], ref_cnt: usize, data: Data, swept: bool) -> (r:
        Option<(Head, usize)>)
        requires
            old(self).core_wf(),
            old(self).set_aside(data),
            region@.len() == old(self).spec_capacity(),
            ref_cnt < 64,
        ensures
            forall|d: u64| #[trigger]
                final(self).cached().contains_key(d) == (old(self).cached().contains_key(d) && old(
                    self,
                ).stays(region@, !swept && old(self).lacks_slot(), old(self).cached()[d] as int)),
            forall|d: u64| #[trigger]
                final(self).cached().contains_key(d) ==> final(self).cached()[d] == old(
                    self,
                ).cached()[d],
            match r {
                Some((head, idx)) => {
                    &&& final(self).wf()
                    &&& head.at() == 20 * idx
                    &&& final(self).level(idx as int) == ref_cnt
                    &&& final(self).payloads() == old(self).payloads().update(idx as int, data)
                    &&& !final(self).slot_has_sample(idx)
                    &&& final(self).taken(
                        *old(self),
                        region@,
                        !swept && old(self).lacks_slot(),
                        idx as int,
                    )
                },
                None => {
                    &&& final(self).core_wf()
                    &&& final(self).set_aside(data)
                    &&& final(self).lacks_slot()
                    &&& final(self).settled(*old(self), region@, !swept && old(self).lacks_slot())
                },
            },
    {
        let ghost s0 = *self;
        let ghost sweep = !swept && s0.lacks_slot();
        let ghost mut m = s0;
        let mut ret = self.head_segment.allocate(ref_cnt);
        proof {
            assert(ret is None == s0.lacks_slot()) by {
                if ret is Some {
                    assert(!s0.in_use(ret.unwrap().1 as int));
                }
            }
        }
        if ret.is_none() && !swept {
            self.free_slots(region, Ghost(data));
            proof {
                m = *self;
            }
            ret = self.head_segment.allocate(ref_cnt);
        }
        let ghost t1 = *self;
        proof {
            // `m` is the cache before the slot is taken.
            assert(m.settled(s0, region@, sweep)) by {
                if !sweep {
                    assert forall|d: u64| #[trigger]
                        m.cached().contains_key(d) == (s0.cached().contains_key(d) && s0.stays(
                            region@,
                            sweep,
                            s0.cached()[d] as int,
                        )) by {
                        if s0.cached().contains_key(d) {
                            assert(s0.cached_data.datas().contains_key(s0.cached_data.heads()[d]));
                            assert(s0.in_use(s0.cached()[d] as int));
                        }
                    }
                }
            }
            assert(t1.cached() == m.cached());
            assert forall|d: u64| #[trigger]
                t1.cached().contains_key(d) == (s0.cached().contains_key(d) && s0.stays(
                    region@,
                    sweep,
                    s0.cached()[d] as int,
                )) by {
                assert(m.cached().contains_key(d) == t1.cached().contains_key(d));
            }
            assert forall|d: u64| #[trigger] t1.cached().contains_key(d) implies t1.cached()[d]
                == s0.cached()[d] by {
                assert(m.cached().contains_key(d));
            }
            match ret {
                Some((head, idx)) => {
                    assert(!m.in_use(idx as int));
                    assert forall|k: int| 0 <= k < idx implies m.in_use(k) by {}
                    assert forall|k: int| t1.in_use(k) == (m.in_use(k) || k == idx) by {}
                    assert forall|k: int| m.in_use(k) implies t1.level(k) == m.level(k) by {}
                },
                None => {
                    assert forall|k: int| t1.in_use(k) == m.in_use(k) by {}
                    assert forall|k: int| t1.level(k) == m.level(k) by {}
                },
            }
        }
        match ret {
            Some((head, idx)) => {
                self.extents.set(idx, data);
                proof {
                    assert(self.cached() == t1.cached());
                    assert forall|k: int| k != idx implies #[trigger] self.in_use(k) == s0.stays(
                        region@,
                        sweep,
                        k,
                    ) by {
                        assert(t1.in_use(k) == (m.in_use(k) || k == idx));
                        assert(m.in_use(k) == s0.stays(region@, sweep, k));
                    }
                    assert forall|k: int| 0 <= k < idx implies #[trigger] s0.stays(
                        region@,
                        sweep,
                        k,
                    ) by {
                        assert(m.in_use(k));
                        assert(m.in_use(k) == s0.stays(region@, sweep, k));
                    }
                    assert(!s0.stays(region@, sweep, idx as int)) by {
                        assert(m.in_use(idx as int) == s0.stays(region@, sweep, idx as int));
                    }
                    assert forall|k: int| k != idx && self.in_use(k) implies self.level(k)
                        == s0.level(k) && self.payloads()[k] == s0.payloads()[k] by {
                        assert(t1.in_use(k) == (m.in_use(k) || k == idx));
                        assert(m.in_use(k));
                    }
                    assert forall|k: int| #[trigger]
                        self.head_segment.in_use(k) implies self.extents@[k].bytes().subset_of(
                        self.data_segment.used_bytes(),
                    ) by {
                        if k != idx {
                            assert(t1.extents@[k] == self.extents@[k]);
                            assert(t1.in_use(k) == (m.in_use(k) || k == idx));
                            assert(m.head_segment.in_use(k));
                        }
                    }
                    assert forall|j: int, k: int|
                        #[trigger] self.head_segment.in_use(j) && #[trigger] self.head_segment.in_use(
                            k,
                        ) && j != k implies self.extents@[j].bytes().disjoint(
                        self.extents@[k].bytes(),
                    ) by {
                        assert(t1.in_use(j) == (m.in_use(j) || j == idx));
                        assert(t1.in_use(k) == (m.in_use(k) || k == idx));
                        if j != idx {
                            assert(t1.extents@[j] == self.extents@[j]);
                            assert(m.head_segment.in_use(j));
                        }
                        if k != idx {
                            assert(t1.extents@[k] == self.extents@[k]);
                            assert(m.head_segment.in_use(k));
                        }
                    }
                    assert forall|b: int| #[trigger]
                        self.data_segment.used_bytes().contains(b) implies exists|k: int|
                        #[trigger] self.head_segment.in_use(k) && self.extents@[k].bytes().contains(
                            b,
                        ) by {
                        if data.bytes().contains(b) {
                            assert(self.head_segment.in_use(idx as int));
                            assert(self.extents@[idx as int].bytes().contains(b));
                        } else {
                            let k = choose|k: int| #[trigger]
                                m.head_segment.in_use(k) && m.extents@[k].bytes().contains(b);
                            assert(t1.in_use(k) == (m.in_use(k) || k == idx));
                            assert(self.head_segment.in_use(k));
                            assert(self.extents@[k] == m.extents@[k]);
                        }
                    }
                }
                Some((head, idx))
            },
            None => {
                proof {
                    assert forall|k: int| #[trigger] self.in_use(k) == s0.stays(
                        region@,
                        sweep,
                        k,
                    ) by {
                        assert(t1.in_use(k) == m.in_use(k));
                        assert(m.in_use(k) == s0.stays(region@, sweep, k));
                    }
                    assert forall|k: int| self.in_use(k) implies self.level(k) == s0.level(k) by {
                        assert(t1.in_use(k) == m.in_use(k));
                    }
                }
                None
            },
        }
    }

    /// Gives slots up once while a payload is set aside: the slots that are
    /// due go out of use and their payloads become free, and the payload
    /// that is set aside stays so.
    fn free_slots(&mut self, region: &[u8], Ghost(data): Ghost<Data>)
        requires
            old(self).core_wf(),
            old(self).set_aside(data),
            region@.len() == old(self).spec_capacity(),
        ensures
            final(self).core_wf(),
            final(self).set_aside(data),
            final(self).swept(*old(self), region@),
            final(self).settled(*old(self), region@, true),
    {
        let ghost t0 = *self;
        self.free(region);
        proof {
            self.data_segment.law_free_within();
            t0.data_segment.law_free_within();
            assert forall|b: int| data.bytes().contains(b) implies !self.free_bytes().contains(
                b,
            ) by {
                assert(t0.data_segment.used_bytes().contains(b));
                if self.free_bytes().contains(b) {
                    let k = choose|k: int|
                        t0.in_use(k) && !self.in_use(k) && #[trigger] t0.payload(k).contains(b);
                    assert(t0.extents@[k].bytes().disjoint(data.bytes()));
                }
            }
            assert(data.bytes().subset_of(self.data_segment.used_bytes()));
            assert forall|k: int| #[trigger]
                self.head_segment.in_use(k) implies self.extents@[k].bytes().disjoint(
                data.bytes(),
            ) by {
                assert(t0.in_use(k));
            }
            assert forall|b: int| #[trigger]
                self.data_segment.used_bytes().contains(b) implies data.bytes().contains(b)
                || exists|k: int| #[trigger]
                    self.head_segment.in_use(k) && self.extents@[k].bytes().contains(b) by {
                assert(t0.data_segment.used_bytes().contains(b));
                if !data.bytes().contains(b) {
                    let k = choose|k: int| #[trigger]
                        t0.head_segment.in_use(k) && t0.extents@[k].bytes().contains(b);
                    if !self.in_use(k) {
                        assert(t0.in_use(k) && !self.in_use(k) && t0.payload(k).contains(b));
                        assert(self.free_bytes().contains(b));
                    }
                }
            }
        }
    }
}

} // verus!
