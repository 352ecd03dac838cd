//! The 128-bit bitmap that backs one block of a value set.
use bitmaps::Bitmap;
use vstd::prelude::*;

verus! {

/// Number of values that one block covers.
pub const BASE: usize = 128;

/// A bitmap of `BASE` bits: a `bitmaps::Bitmap<128>`, which only the
/// methods below reach. What is known of one is what they state of
/// `block_bits`.
#[verifier::external_body]
#[derive(Debug, PartialEq)]
pub struct BlockBits {
    bm: Bitmap<128>,
}

impl Clone for BlockBits {
    /// `Bitmap::clone`: a bitmap with the same bits set.
    #[verifier::external_body]
    fn clone(&self) -> (r: Self)
        ensures
            block_bits(r) == block_bits(*self),
    {
        BlockBits { bm: self.bm.clone() }
    }
}

impl Copy for BlockBits {

}

/// The positions, counted from 0, of the bits that are set in a bitmap.
pub uninterp spec fn block_bits(b: BlockBits) -> Set<int>;

/// The 128 positions of a bitmap.
pub open spec fn all_positions() -> Set<int> {
    Set::new(|i: int| 0 <= i < 128)
}

impl BlockBits {
    /// `Bitmap::new`: the bitmap in which no bit is set.
    #[verifier::external_body]
    pub(crate) fn new() -> (b: BlockBits)
        ensures
            block_bits(b) == Set::<int>::empty(),
    {
        BlockBits { bm: Bitmap::new() }
    }

    /// `Bitmap::invert`: every one of the 128 bits is flipped.
    #[verifier::external_body]
    pub(crate) fn invert(&mut self)
        ensures
            block_bits(*final(self)) == all_positions().difference(block_bits(*old(self))),
    {
        self.bm.invert();
    }

    /// `Bitmap::get`: whether the bit at `index` is set. An index of 128 or
    /// more is left out, since the bitmap has no such bit.
    #[verifier::external_body]
    pub(crate) fn get(&self, index: usize) -> (r: bool)
        requires
            index < 128,
        ensures
            r == block_bits(*self).contains(index as int),
    {
        self.bm.get(index)
    }

    /// `Bitmap::set`: the bit at `index` becomes `value`, every other bit
    /// stays, and the bit's earlier value is returned.
    #[verifier::external_body]
    pub(crate) fn set(&mut self, index: usize, value: bool) -> (prev: bool)
        requires
            index < 128,
        ensures
            prev == block_bits(*old(self)).contains(index as int),
            block_bits(*final(self)) == if value {
                block_bits(*old(self)).insert(index as int)
            } else {
                block_bits(*old(self)).remove(index as int)
            },
    {
        self.bm.set(index, value)
    }

    /// `Bitmap::is_empty`: whether none of the 128 bits is set.
    #[verifier::external_body]
    pub(crate) fn is_empty(&self) -> (r: bool)
        ensures
            r == (forall|i: int| 0 <= i < 128 ==> !block_bits(*self).contains(i)),
    {
        self.bm.is_empty()
    }

    /// `Bitmap::len`: how many of the 128 bits are set.
    #[verifier::external_body]
    pub(crate) fn len(&self) -> (r: usize)
        ensures
            r == block_bits(*self).intersect(all_positions()).len(),
            r <= 128,
    {
        self.bm.len()
    }

    /// `&` on two bitmaps: the bits that are set in both.
    #[verifier::external_body]
    pub(crate) fn and(&self, other: &BlockBits) -> (r: BlockBits)
        ensures
            block_bits(r) == block_bits(*self).intersect(block_bits(*other)),
    {
        BlockBits { bm: self.bm & other.bm }
    }

    /// `|` on two bitmaps: the bits that are set in either.
    #[verifier::external_body]
    pub(crate) fn or(&self, other: &BlockBits) -> (r: BlockBits)
        ensures
            block_bits(r) == block_bits(*self).union(block_bits(*other)),
    {
        BlockBits { bm: self.bm | other.bm }
    }

    /// `!` on a bitmap: of the 128 bits, those that were not set.
    #[verifier::external_body]
    pub(crate) fn not(&self) -> (r: BlockBits)
        ensures
            block_bits(r) == all_positions().difference(block_bits(*self)),
    {
        BlockBits { bm: !self.bm }
    }
}

} // verus!
