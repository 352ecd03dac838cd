//! The head segment: the slots of the arena, one descriptor each.
use crate::cache::head::{all_read, armed, head_mask, Head, HEAD_SIZE};
use vstd::prelude::*;

verus! {

broadcast use vstd::slice::group_slice_axioms;

/// The number of levels that a slot can be registered at.
pub const LEVELS: usize = 64;

/// The slots, in the order of their descriptors in the region, and for each
/// slot in use the level it was registered at. Slots of a lower level are
/// given up first.
#[derive(Debug)]
pub struct HeadSegment {
    head_segment: Vec<Head>,
    ref_table: Vec<usize>,
}

/// Whether the slot `k` is one of the slots given up.
pub open spec fn gives_up(freed: Seq<(Head, usize)>, k: int) -> bool {
    exists|i: int| 0 <= i < freed.len() && (#[trigger] freed[i]).1 == k
}

impl HeadSegment {
    /// The number of slots.
    pub closed spec fn spec_len(&self) -> nat {
        self.head_segment@.len()
    }

    /// Whether the slot `idx` is marked free.
    pub closed spec fn marked_free(&self, idx: int) -> bool {
        self.head_segment@[idx].spec_is_free()
    }

    /// Whether the slot `idx` is in use.
    pub open spec fn in_use(&self, idx: int) -> bool {
        0 <= idx < self.spec_len() && !self.marked_free(idx)
    }

    /// The level at which the slot `idx` was registered.
    pub closed spec fn level(&self, idx: int) -> int {
        self.ref_table@[idx] as int
    }

    /// The invariant of the type: the descriptor of the slot `k` begins at
    /// byte `20 * k`, and every slot has a level below 64.
    pub closed spec fn wf(&self) -> bool {
        &&& self.ref_table@.len() == self.head_segment@.len()
        &&& self.head_segment@.len() * 20 <= usize::MAX
        &&& forall|k: int|
            0 <= k < self.head_segment@.len() ==> (#[trigger] self.head_segment@[k]).at() == 20 * k
        &&& forall|k: int| 0 <= k < self.ref_table@.len() ==> (#[trigger] self.ref_table@[k]) < 64
    }

    /// Whether every reader has read the slot `idx`, as the region says.
    pub open spec fn slot_read(region: Seq<u8>, idx: int) -> bool {
        all_read(head_mask(region, 20 * idx))
    }

    /// `head_num` free slots.
    pub fn new(head_num: u64) -> (r: HeadSegment)
        requires
            head_num * 20 <= usize::MAX,
        ensures
            r.wf(),
            r.spec_len() == head_num,
            forall|idx: int| !r.in_use(idx),
    {
        let mut head_segment: Vec<Head> = Vec::new();
        let mut ref_table: Vec<usize> = Vec::new();
        let mut i: u64 = 0;
        while i < head_num
            invariant
                0 <= i <= head_num,
                head_num * 20 <= usize::MAX,
                head_segment@.len() == i,
                ref_table@.len() == i,
                forall|k: int|
                    0 <= k < i ==> (#[trigger] head_segment@[k]).at() == 20 * k
                        && head_segment@[k].spec_is_free(),
                forall|k: int| 0 <= k < i ==> (#[trigger] ref_table@[k]) < 64,
            decreases head_num - i,
        {
            head_segment.push(Head::new((i * HEAD_SIZE) as usize));
            ref_table.push(0);
            i += 1;
        }
        HeadSegment { head_segment, ref_table }
    }

    /// The size of the head segment in bytes.
    pub fn size(&self) -> (r: u64)
        requires
            self.wf(),
        ensures
            r == 20 * self.spec_len(),
    {
        (self.head_segment.len() as u64) * HEAD_SIZE
    }

    /// Arms the reader mask of the slot `idx` for `loader_cnt` readers.
    pub fn mark_unreaded(&mut self, region: &mut [u8], idx: usize, loader_cnt: usize)
        requires
            old(self).wf(),
            idx < old(self).spec_len(),
            20 * old(self).spec_len() <= old(region)@.len(),
            loader_cnt <= 8,
        ensures
            *final(self) == *old(self),
            final(region)@.len() == old(region)@.len(),
            forall|i: int|
                0 <= i < old(region)@.len() && !(20 * idx + 12 <= i < 20 * idx + 20)
                    ==> final(region)@[i] == old(region)@[i],
            head_mask(final(region)@, 20 * idx) == armed(loader_cnt as int),
    {
        let mut head = self.head_segment[idx];
        head.set_unread(region, loader_cnt);
    }

    /// Takes the first free slot into use, at the level `ref_cnt`; none
    /// where no slot is free.
    pub fn allocate(&mut self, ref_cnt: usize) -> (r: Option<(Head, usize)>)
        requires
            old(self).wf(),
            ref_cnt < 64,
        ensures
            final(self).wf(),
            final(self).spec_len() == old(self).spec_len(),
            match r {
                Some((head, idx)) => {
                    &&& idx < old(self).spec_len()
                    &&& !old(self).in_use(idx as int)
                    &&& forall|k: int| 0 <= k < idx ==> old(self).in_use(k)
                    &&& head.at() == 20 * idx
                    &&& final(self).level(idx as int) == ref_cnt
                    &&& forall|k: int| final(self).in_use(k) == (old(self).in_use(k) || k == idx)
                    &&& forall|k: int|
                        old(self).in_use(k) ==> final(self).level(k) == old(self).level(k)
                },
                None => {
                    &&& forall|k: int| 0 <= k < old(self).spec_len() ==> old(self).in_use(k)
                    &&& *final(self) == *old(self)
                },
            },
    {
        let mut idx: usize = 0;
        while idx < self.head_segment.len()
            invariant
                *self == *old(self),
                self.wf(),
                ref_cnt < 64,
                0 <= idx <= self.head_segment@.len(),
                forall|k: int| 0 <= k < idx ==> self.in_use(k),
            decreases self.head_segment@.len() - idx,
        {
            let mut head = self.head_segment[idx];
            assert(head.at() == 20 * idx);
            if head.is_free() {
                head.allocated();
                self.head_segment.set(idx, head);
                self.ref_table.set(idx, ref_cnt);
                proof {
                    assert forall|k: int| 0 <= k < self.head_segment@.len() implies (
                    #[trigger] self.head_segment@[k]).at() == 20 * k by {
                        if k != idx {
                            assert(self.head_segment@[k] == old(self).head_segment@[k]);
                        }
                    }
                    assert forall|k: int| 0 <= k < self.ref_table@.len() implies (
                    #[trigger] self.ref_table@[k]) < 64 by {
                        if k != idx {
                            assert(self.ref_table@[k] == old(self).ref_table@[k]);
                            assert(old(self).ref_table@[k] < 64);
                        }
                    }
                }
                return Some((head, idx));
            }
            idx += 1;
        }
        None
    }

    /// Gives up slots that every reader has read: those of the lowest level
    /// that has such a slot. None where no slot in use has been read by
    /// every reader.
    pub fn free(&mut self, region: &[u8]) -> (r: Option<Vec<(Head, usize)>>)
        requires
            old(self).wf(),
            20 * old(self).spec_len() <= region@.len(),
        ensures
            final(self).wf(),
            final(self).spec_len() == old(self).spec_len(),
            forall|k: int| old(self).in_use(k) ==> final(self).level(k) == old(self).level(k),
            match r {
                Some(freed) => {
                    &&& freed@.len() > 0
                    &&& forall|i: int, j: int|
                        0 <= i < j < freed@.len() ==> (#[trigger] freed@[i]).1 < (
                        #[trigger] freed@[j]).1
                    &&& forall|i: int|
                        0 <= i < freed@.len() ==> (#[trigger] freed@[i]).0.at() == 20 * freed@[i].1
                    &&& forall|k: int|
                        old(self).in_use(k) && Self::slot_read(region@, k) ==> old(self).level(
                            freed@[0].1 as int,
                        ) <= old(self).level(k)
                    &&& forall|k: int|
                        gives_up(freed@, k) == (old(self).in_use(k) && Self::slot_read(region@, k)
                            && old(self).level(k) == old(self).level(freed@[0].1 as int))
                    &&& forall|k: int|
                        final(self).in_use(k) == (old(self).in_use(k) && !gives_up(freed@, k))
                },
                None => {
                    &&& forall|k: int| old(self).in_use(k) ==> !Self::slot_read(region@, k)
                    &&& *final(self) == *old(self)
                },
            },
    {
        let total = self.head_segment.len();
        // The lowest level that has a slot read by every reader.
        let mut lowest: usize = LEVELS;
        let mut k: usize = 0;
        while k < total
            invariant
                *self == *old(self),
                self.wf(),
                total == self.head_segment@.len(),
                20 * total <= region@.len(),
                0 <= k <= total,
                lowest <= 64,
                forall|x: int|
                    0 <= x < k && self.in_use(x) && Self::slot_read(region@, x) ==> lowest
                        <= self.level(x),
                lowest < 64 ==> exists|x: int|
                    0 <= x < k && self.in_use(x) && Self::slot_read(region@, x) && self.level(x)
                        == lowest,
            decreases total - k,
        {
            let head = self.head_segment[k];
            let ghost lowest0 = lowest;
            assert(head.at() == 20 * k);
            if !head.is_free() && head.is_readed(region) && self.ref_table[k] < lowest {
                lowest = self.ref_table[k];
                proof {
                    assert(self.in_use(k as int) && Self::slot_read(region@, k as int)
                        && self.level(k as int) == lowest);
                }
            } else {
                proof {
                    if lowest < 64 {
                        let x = choose|x: int|
                            0 <= x < k && self.in_use(x) && Self::slot_read(region@, x)
                                && self.level(x) == lowest0;
                        assert(0 <= x < k + 1);
                    }
                }
            }
            k += 1;
        }
        if lowest == LEVELS {
            return None;
        }
        let mut ret: Vec<(Head, usize)> = Vec::new();
        let mut k: usize = 0;
        while k < total
            invariant
                self.wf(),
                old(self).wf(),
                total == self.head_segment@.len(),
                total == old(self).head_segment@.len(),
                self.ref_table@ == old(self).ref_table@,
                20 * total <= region@.len(),
                0 <= k <= total,
                lowest < 64,
                forall|x: int| k <= x < total ==> self.head_segment@[x] == old(self).head_segment@[x],
                forall|x: int|
                    0 <= x < k ==> self.in_use(x) == (old(self).in_use(x) && !(Self::slot_read(
                        region@,
                        x,
                    ) && old(self).level(x) == lowest)),
                forall|i: int| 0 <= i < ret@.len() ==> (#[trigger] ret@[i]).1 < k,
                forall|i: int, j: int|
                    0 <= i < j < ret@.len() ==> (#[trigger] ret@[i]).1 < (#[trigger] ret@[j]).1,
                forall|i: int| 0 <= i < ret@.len() ==> (#[trigger] ret@[i]).0.at() == 20 * ret@[i].1,
                forall|x: int|
                    gives_up(ret@, x) == (0 <= x < k && old(self).in_use(x) && Self::slot_read(
                        region@,
                        x,
                    ) && old(self).level(x) == lowest),
            decreases total - k,
        {
            let mut head = self.head_segment[k];
            let ghost before = ret@;
            assert(head.at() == 20 * k);
            if !head.is_free() && head.is_readed(region) && self.ref_table[k] == lowest {
                head.set_free();
                self.head_segment.set(k, head);
                ret.push((head, k));
                proof {
                    assert(ret@[before.len() as int].1 == k);
                }
            }
            proof {
                assert forall|x: int|
                    gives_up(ret@, x) == (0 <= x < k + 1 && old(self).in_use(x) && Self::slot_read(
                        region@,
                        x,
                    ) && old(self).level(x) == lowest) by {
                    if gives_up(ret@, x) {
                        let i = choose|i: int| 0 <= i < ret@.len() && (#[trigger] ret@[i]).1 == x;
                        if i < before.len() {
                            assert(before[i].1 == x);
                        }
                    }
                    if gives_up(before, x) {
                        let i = choose|i: int| 0 <= i < before.len() && (#[trigger] before[i]).1 == x;
                        assert(ret@[i].1 == x);
                    }
                }
            }
            k += 1;
        }
        proof {
            let x = choose|x: int|
                0 <= x < total && old(self).in_use(x) && Self::slot_read(region@, x) && old(
                    self,
                ).level(x) == lowest;
            assert(gives_up(ret@, x));
            assert(ret@.len() > 0);
            assert(gives_up(ret@, ret@[0].1 as int));
            assert(old(self).level(ret@[0].1 as int) == lowest);
        }
        Some(ret)
    }
}

} // verus!
