//! The descriptor of a slot: 20 bytes in the head segment.
//!
//! ```text
//! bytes  0..4    the length of the payload, big-endian
//! bytes  4..12   the offset of the payload from the base of the region,
//!                big-endian
//! bytes 12..20   the reader mask: one byte for each of up to 8 readers
//! ```
use vstd::prelude::*;

verus! {

broadcast use vstd::slice::group_slice_axioms;

/// The size of a descriptor in bytes.
pub const HEAD_SIZE: u64 = 1 * 8 + 12;

/// The mask of a slot that all 8 readers have yet to read.
pub const UNREADED: u64 = 0xffffffffffffffff;

/// Where, in a descriptor, the reader mask begins.
pub const READ_OFF: usize = 12;

/// Where, in a descriptor, the length begins.
pub const LEN_OFF: usize = 0;

/// Where, in a descriptor, the offset begins.
pub const OFF_OFF: usize = 4;

/// The size of the reader mask in bytes.
pub const READ_LEN: usize = 8;

/// The size of the length in bytes.
pub const LEN_LEN: usize = 4;

/// The size of the offset in bytes.
pub const OFF_LEN: usize = 8;

/// The number that 4 bytes stand for, the first byte counting most.
pub open spec fn be_u32(bytes: Seq<u8>) -> int {
    ((bytes[0] * 0x100 + bytes[1]) * 0x100 + bytes[2]) * 0x100 + bytes[3]
}

/// The number that 8 bytes stand for, the first byte counting most.
pub open spec fn be_u64(bytes: Seq<u8>) -> int {
    ((((((bytes[0] * 0x100 + bytes[1]) * 0x100 + bytes[2]) * 0x100 + bytes[3]) * 0x100 + bytes[4])
        * 0x100 + bytes[5]) * 0x100 + bytes[6]) * 0x100 + bytes[7]
}

/// The length that the descriptor at `at` states.
pub open spec fn head_len(region: Seq<u8>, at: int) -> int {
    be_u32(region.subrange(at, at + 4))
}

/// The offset that the descriptor at `at` states.
pub open spec fn head_off(region: Seq<u8>, at: int) -> int {
    be_u64(region.subrange(at + 4, at + 12))
}

/// The reader mask of the descriptor at `at`.
pub open spec fn head_mask(region: Seq<u8>, at: int) -> Seq<u8> {
    region.subrange(at + 12, at + 20)
}

/// The reader mask of the slot `slot`, whose descriptor is the `slot`th of
/// the region.
pub open spec fn slot_mask(region: Seq<u8>, slot: int) -> Seq<u8> {
    head_mask(region, 20 * slot)
}

/// Whether every reader has read the slot: all bytes of the mask are zero.
pub open spec fn all_read(mask: Seq<u8>) -> bool {
    forall|i: int| 0 <= i < mask.len() ==> mask[i] == 0
}

/// The number of bytes of a mask that are not zero: the readers that have
/// yet to read.
pub open spec fn unread_count(mask: Seq<u8>) -> nat
    decreases mask.len(),
{
    if mask.len() == 0 {
        0
    } else {
        unread_count(mask.drop_last()) + if mask.last() != 0 {
            1nat
        } else {
            0nat
        }
    }
}

/// The mask of a slot that `cnt` readers have yet to read: the first `cnt`
/// bytes are `0xff`, the others zero.
pub open spec fn armed(cnt: int) -> Seq<u8> {
    Seq::new(8, |i: int| if i < cnt { 0xffu8 } else { 0u8 })
}

/// As many bytes of an armed mask are not zero as readers were asked for.
pub proof fn lemma_armed_count(cnt: int)
    requires
        0 <= cnt <= 8,
    ensures
        unread_count(armed(cnt)) == cnt,
{
    let m = armed(cnt);
    let m7 = m.drop_last();
    let m6 = m7.drop_last();
    let m5 = m6.drop_last();
    let m4 = m5.drop_last();
    let m3 = m4.drop_last();
    let m2 = m3.drop_last();
    let m1 = m2.drop_last();
    let m0 = m1.drop_last();
    assert(m0.len() == 0);
    assert(unread_count(m0) == 0);
    assert(unread_count(m1) == if cnt > 0 { 1nat } else { 0nat });
    assert(unread_count(m2) == if cnt > 1 { 2nat } else { unread_count(m1) });
    assert(unread_count(m3) == if cnt > 2 { 3nat } else { unread_count(m2) });
    assert(unread_count(m4) == if cnt > 3 { 4nat } else { unread_count(m3) });
    assert(unread_count(m5) == if cnt > 4 { 5nat } else { unread_count(m4) });
    assert(unread_count(m6) == if cnt > 5 { 6nat } else { unread_count(m5) });
    assert(unread_count(m7) == if cnt > 6 { 7nat } else { unread_count(m6) });
    assert(unread_count(m) == if cnt > 7 { 8nat } else { unread_count(m7) });
}

/// Whether a slot is in use.
#[derive(Debug, Clone, Copy, PartialEq, Eq, Structural)]
pub enum HeadState {
    Free,
    Allocated,
}

/// A slot: where its descriptor stands in the region, and whether it is in
/// use.
#[derive(Debug, Clone, Copy)]
pub struct Head {
    ptr: usize,
    state: HeadState,
}

impl Head {
    /// Where the descriptor begins, counted from the base of the region.
    pub closed spec fn at(&self) -> int {
        self.ptr as int
    }

    /// Whether the slot is free.
    pub closed spec fn spec_is_free(&self) -> bool {
        self.state == HeadState::Free
    }

    /// The free slot whose descriptor begins at `ptr`.
    pub fn new(ptr: usize) -> (r: Self)
        ensures
            r.at() == ptr,
            r.spec_is_free(),
    {
        Self { ptr, state: HeadState::Free }
    }

    /// Writes the descriptor: the length, the offset, and the mask for
    /// `cnt` readers.
    pub fn set(&mut self, region: &mut [u8], len: u32, off: u64, cnt: usize)
        requires
            old(self).at() + 20 <= old(region)@.len(),
            cnt <= 8,
        ensures
            *final(self) == *old(self),
            final(region)@.len() == old(region)@.len(),
            forall|i: int|
                0 <= i < old(region)@.len() && !(old(self).at() <= i < old(self).at() + 20)
                    ==> final(region)@[i] == old(region)@[i],
            head_len(final(region)@, old(self).at()) == len,
            head_off(final(region)@, old(self).at()) == off,
            head_mask(final(region)@, old(self).at()) == armed(cnt as int),
            unread_count(head_mask(final(region)@, old(self).at())) == cnt,
    {
        self.set_unread(region, cnt);
        let ghost r1 = region@;
        self.set_len(region, len);
        let ghost r2 = region@;
        self.set_off(region, off);
        proof {
            let at = self.at();
            assert(head_mask(region@, at) =~= head_mask(r1, at));
            assert(region@.subrange(at, at + 4) =~= r2.subrange(at, at + 4));
            lemma_armed_count(cnt as int);
        }
    }

    /// Arms the reader mask for `cnt` readers.
    pub fn set_unread(&mut self, region: &mut [u8], cnt: usize)
        requires
            old(self).at() + 20 <= old(region)@.len(),
            cnt <= 8,
        ensures
            *final(self) == *old(self),
            final(region)@.len() == old(region)@.len(),
            forall|i: int|
                0 <= i < old(region)@.len() && !(old(self).at() + 12 <= i < old(self).at() + 20)
                    ==> final(region)@[i] == old(region)@[i],
            head_mask(final(region)@, old(self).at()) == armed(cnt as int),
    {
        let total = region.len();
        let mut i: usize = 0;
        while i < READ_LEN
            invariant
                0 <= i <= 8,
                *self == *old(self),
                self.ptr + 20 <= region@.len(),
                region@.len() == total,
                region@.len() == old(region)@.len(),
                forall|j: int|
                    0 <= j < region@.len() && !(self.ptr + 12 <= j < self.ptr + 12 + i)
                        ==> region@[j] == old(region)@[j],
                forall|k: int|
                    self.ptr + 12 <= k < self.ptr + 12 + i ==> #[trigger] region@[k] == (if k - (
                    self.ptr + 12) < cnt {
                        0xffu8
                    } else {
                        0u8
                    }),
            decreases 8 - i,
        {
            region[self.ptr + READ_OFF + i] = if i < cnt { 0xff } else { 0 };
            i += 1;
        }
        proof {
            assert(head_mask(region@, self.at()) =~= armed(cnt as int));
        }
    }

    /// Writes the length.
    fn set_len(&mut self, region: &mut [u8], len: u32)
        requires
            old(self).at() + 20 <= old(region)@.len(),
        ensures
            *final(self) == *old(self),
            final(region)@.len() == old(region)@.len(),
            forall|i: int|
                0 <= i < old(region)@.len() && !(old(self).at() <= i < old(self).at() + 4)
                    ==> final(region)@[i] == old(region)@[i],
            head_len(final(region)@, old(self).at()) == len,
    {
        let total = region.len();
        let at = self.ptr + LEN_OFF;
        let q1 = len / 0x100;
        let q2 = q1 / 0x100;
        let q3 = q2 / 0x100;
        region[at] = q3 as u8;
        region[at + 1] = (q2 % 0x100) as u8;
        region[at + 2] = (q1 % 0x100) as u8;
        region[at + 3] = (len % 0x100) as u8;
    }

    /// Writes the offset.
    fn set_off(&mut self, region: &mut [u8], off: u64)
        requires
            old(self).at() + 20 <= old(region)@.len(),
        ensures
            *final(self) == *old(self),
            final(region)@.len() == old(region)@.len(),
            forall|i: int|
                0 <= i < old(region)@.len() && !(old(self).at() + 4 <= i < old(self).at() + 12)
                    ==> final(region)@[i] == old(region)@[i],
            head_off(final(region)@, old(self).at()) == off,
    {
        let total = region.len();
        let at = self.ptr + OFF_OFF;
        let q1 = off / 0x100;
        let q2 = q1 / 0x100;
        let q3 = q2 / 0x100;
        let q4 = q3 / 0x100;
        let q5 = q4 / 0x100;
        let q6 = q5 / 0x100;
        let q7 = q6 / 0x100;
        region[at] = q7 as u8;
        region[at + 1] = (q6 % 0x100) as u8;
        region[at + 2] = (q5 % 0x100) as u8;
        region[at + 3] = (q4 % 0x100) as u8;
        region[at + 4] = (q3 % 0x100) as u8;
        region[at + 5] = (q2 % 0x100) as u8;
        region[at + 6] = (q1 % 0x100) as u8;
        region[at + 7] = (off % 0x100) as u8;
        proof {
            let b = region@.subrange(at as int, at + 8);
            assert(b[0] == q7 && b[1] == q6 % 0x100 && b[2] == q5 % 0x100 && b[3] == q4 % 0x100);
            assert(b[4] == q3 % 0x100 && b[5] == q2 % 0x100 && b[6] == q1 % 0x100 && b[7] == off
                % 0x100);
            assert(b[0] * 0x100 + b[1] == q6);
            assert(q6 * 0x100 + b[2] == q5);
            assert(q5 * 0x100 + b[3] == q4);
            assert(q4 * 0x100 + b[4] == q3);
            assert(q3 * 0x100 + b[5] == q2);
            assert(q2 * 0x100 + b[6] == q1);
            assert(q1 * 0x100 + b[7] == off);
        }
    }

    /// What the descriptor states: whether every reader has read the slot,
    /// the length, and the offset.
    pub fn get(&self, region: &[u8]) -> (r: (bool, u32, u64))
        requires
            self.at() + 20 <= region@.len(),
        ensures
            r.0 == all_read(head_mask(region@, self.at())),
            r.1 == head_len(region@, self.at()),
            r.2 == head_off(region@, self.at()),
    {
        (self.get_readed(region), self.get_len(region), self.get_off(region))
    }

    /// The length that the descriptor states.
    pub fn get_len(&self, region: &[u8]) -> (r: u32)
        requires
            self.at() + 20 <= region@.len(),
        ensures
            r == head_len(region@, self.at()),
    {
        let total = region.len();
        let at = self.ptr + LEN_OFF;
        let v1 = (region[at] as u32) * 0x100 + (region[at + 1] as u32);
        let v2 = v1 * 0x100 + (region[at + 2] as u32);
        let v3 = v2 * 0x100 + (region[at + 3] as u32);
        proof {
            let b = region@.subrange(at as int, at + 4);
            assert(b[0] == region@[at as int] && b[1] == region@[at + 1] && b[2] == region@[at + 2]
                && b[3] == region@[at + 3]);
        }
        v3
    }

    /// The offset that the descriptor states.
    pub fn get_off(&self, region: &[u8]) -> (r: u64)
        requires
            self.at() + 20 <= region@.len(),
        ensures
            r == head_off(region@, self.at()),
    {
        let total = region.len();
        let at = self.ptr + OFF_OFF;
        let v1 = (region[at] as u64) * 0x100 + (region[at + 1] as u64);
        let v2 = v1 * 0x100 + (region[at + 2] as u64);
        let v3 = v2 * 0x100 + (region[at + 3] as u64);
        let v4 = v3 * 0x100 + (region[at + 4] as u64);
        let v5 = v4 * 0x100 + (region[at + 5] as u64);
        let v6 = v5 * 0x100 + (region[at + 6] as u64);
        let v7 = v6 * 0x100 + (region[at + 7] as u64);
        proof {
            let b = region@.subrange(at as int, at + 8);
            assert(b[0] == region@[at as int] && b[1] == region@[at + 1] && b[2] == region@[at + 2]
                && b[3] == region@[at + 3]);
            assert(b[4] == region@[at + 4] && b[5] == region@[at + 5] && b[6] == region@[at + 6]
                && b[7] == region@[at + 7]);
        }
        v7
    }

    /// Whether every reader has read the slot.
    pub fn get_readed(&self, region: &[u8]) -> (r: bool)
        requires
            self.at() + 20 <= region@.len(),
        ensures
            r == all_read(head_mask(region@, self.at())),
    {
        let total = region.len();
        let mut i: usize = 0;
        while i < READ_LEN
            invariant
                0 <= i <= 8,
                self.ptr + 20 <= region@.len(),
                region@.len() == total,
                forall|k: int| self.ptr + 12 <= k < self.ptr + 12 + i ==> #[trigger] region@[k] == 0,
            decreases 8 - i,
        {
            if region[self.ptr + READ_OFF + i] != 0 {
                proof {
                    assert(head_mask(region@, self.at())[i as int] != 0);
                }
                return false;
            }
            i += 1;
        }
        true
    }

    /// Whether every reader has read the slot.
    pub fn is_readed(&self, region: &[u8]) -> (r: bool)
        requires
            self.at() + 20 <= region@.len(),
        ensures
            r == all_read(head_mask(region@, self.at())),
    {
        self.get_readed(region)
    }

    /// What the reader `cnt`, counted from 1, does when it is done with the
    /// slot: it sets its byte of the mask to zero.
    pub fn readed(&mut self, region: &mut [u8], cnt: usize)
        requires
            old(self).at() + 20 <= old(region)@.len(),
            1 <= cnt <= 8,
        ensures
            *final(self) == *old(self),
            final(region)@ == old(region)@.update(old(self).at() + 12 + (cnt - 1), 0u8),
    {
        let total = region.len();
        region[self.ptr + READ_OFF + (cnt - 1)] = 0;
        proof {
            assert(region@ =~= old(region)@.update(old(self).at() + 12 + (cnt - 1), 0u8));
        }
    }

    /// Whether the slot is free.
    pub fn is_free(&self) -> (r: bool)
        ensures
            r == self.spec_is_free(),
    {
        self.state == HeadState::Free
    }

    /// The slot becomes free.
    pub fn set_free(&mut self)
        ensures
            final(self).spec_is_free(),
            final(self).at() == old(self).at(),
    {
        self.state = HeadState::Free;
    }

    /// The slot comes into use.
    pub fn allocated(&mut self)
        ensures
            !final(self).spec_is_free(),
            final(self).at() == old(self).at(),
    {
        self.state = HeadState::Allocated;
    }

    /// The size of a descriptor in bytes.
    pub fn size() -> (r: u64)
        ensures
            r == 20,
    {
        HEAD_SIZE
    }

    /// Where the descriptor begins, counted from the base of the region.
    pub fn as_ptr(&self) -> (r: usize)
        ensures
            r == self.at(),
    {
        self.ptr
    }
}

} // verus!
