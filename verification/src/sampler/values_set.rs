//! A set of 32-bit indices, kept as a sorted run of 128-bit blocks.
use crate::sampler::bits::{all_positions, block_bits, BlockBits, BASE};
use crate::sampler::random::{new_rng, random_below};
use rand::rngs::SmallRng;
use vstd::prelude::*;
use vstd::set_lib::{lemma_int_range, lemma_len_subset, lemma_map_size};

verus! {

/// One block: the bits for the values `off .. off + 128`.
#[derive(Debug, PartialEq)]
pub struct BitmapOff {
    bm: BlockBits,
    off: usize,
}

impl Clone for BitmapOff {
    fn clone(&self) -> (r: Self)
        ensures
            r.wf() == self.wf(),
            r.spec_off() == self.spec_off(),
            r.values() == self.values(),
    {
        let r = BitmapOff { bm: self.bm.clone(), off: self.off };
        proof {
            assert(r.values() =~= self.values());
        }
        r
    }
}

impl Copy for BitmapOff {

}

impl BitmapOff {
    /// The block starts at a multiple of 128, ends within the 32-bit range
    /// and holds no bit beyond its 128 positions.
    pub closed spec fn wf(&self) -> bool {
        &&& self.off % 128 == 0
        &&& self.off + 128 <= 0x1_0000_0000
        &&& block_bits(self.bm).subset_of(all_positions())
    }

    /// Whether the block holds the value `v`.
    pub closed spec fn has(&self, v: u32) -> bool {
        self.off <= v < self.off + 128 && block_bits(self.bm).contains(v - self.off)
    }

    /// The values that the block holds.
    pub closed spec fn values(&self) -> Set<u32> {
        Set::new(|v: u32| self.has(v))
    }

    /// The first value that the block covers.
    pub closed spec fn spec_off(&self) -> int {
        self.off as int
    }

    /// A block at `off` that holds nothing.
    pub fn new(off: usize) -> (b: Self)
        requires
            off % 128 == 0,
            off + 128 <= 0x1_0000_0000,
        ensures
            b.wf(),
            b.spec_off() == off,
            b.values() == Set::<u32>::empty(),
    {
        let b = BitmapOff { bm: BlockBits::new(), off };
        assert(b.values() =~= Set::<u32>::empty());
        b
    }

    /// A block at `off` that holds all of its 128 values.
    pub fn init_1(off: usize) -> (b: Self)
        requires
            off % 128 == 0,
            off + 128 <= 0x1_0000_0000,
        ensures
            b.wf(),
            b.spec_off() == off,
            b.values() == Set::new(|v: u32| off <= v < off + 128),
            b.values().finite(),
            b.values().len() == 128,
    {
        let mut bm = BlockBits::new();
        bm.invert();
        let b = BitmapOff { bm, off };
        proof {
            assert(b.values() =~= Set::new(|v: u32| off <= v < off + 128));
            assert(block_bits(b.bm) =~= vstd::set_lib::set_int_range(0, 128));
            lemma_int_range(0, 128);
            b.lemma_values_len();
        }
        b
    }

    /// The block that holds, of the values both blocks cover, those that `op`
    /// keeps.
    fn combine(&self, other: &BitmapOff, op: SetOp) -> (b: Self)
        requires
            self.wf(),
            other.wf(),
            self.off == other.off,
        ensures
            b.wf(),
            b.off == self.off,
            forall|v: u32| b.has(v) == op_holds(op, self.has(v), other.has(v)),
    {
        let bm = match op {
            SetOp::Union => self.bm.or(&other.bm),
            SetOp::Intersection => self.bm.and(&other.bm),
            SetOp::Difference => self.bm.and(&other.bm.not()),
        };
        BitmapOff { bm, off: self.off }
    }

    /// Puts `idx` into the block.
    pub fn set(&mut self, idx: usize)
        requires
            old(self).wf(),
            old(self).spec_off() <= idx < old(self).spec_off() + 128,
        ensures
            final(self).wf(),
            final(self).spec_off() == old(self).spec_off(),
            final(self).values() == old(self).values().insert(idx as u32),
    {
        self.bm.set(idx - self.off, true);
        assert(self.values() =~= old(self).values().insert(idx as u32));
    }

    /// Takes `idx` out of the block.
    pub fn reset(&mut self, idx: usize)
        requires
            old(self).wf(),
            old(self).spec_off() <= idx < old(self).spec_off() + 128,
        ensures
            final(self).wf(),
            final(self).spec_off() == old(self).spec_off(),
            final(self).values() == old(self).values().remove(idx as u32),
    {
        self.bm.set(idx - self.off, false);
        assert(self.values() =~= old(self).values().remove(idx as u32));
    }

    /// Whether the block holds no value.
    pub fn is_empty(&self) -> (r: bool)
        requires
            self.wf(),
        ensures
            r == (self.values() == Set::<u32>::empty()),
    {
        let r = self.bm.is_empty();
        proof {
            if r {
                assert(self.values() =~= Set::<u32>::empty());
            } else {
                let i = choose|i: int| 0 <= i < 128 && block_bits(self.bm).contains(i);
                assert(self.has((self.off + i) as u32));
                assert(self.values().contains((self.off + i) as u32));
            }
        }
        r
    }

    /// How many values the block holds.
    pub fn len(&self) -> (r: usize)
        requires
            self.wf(),
        ensures
            r == self.values().len(),
            self.values().finite(),
            r <= 128,
    {
        proof {
            self.lemma_values_len();
            assert(block_bits(self.bm).intersect(all_positions()) =~= block_bits(self.bm));
        }
        self.bm.len()
    }

    /// The smallest value of the block, which leaves the block.
    pub fn pick_first(&mut self) -> (r: u32)
        requires
            old(self).wf(),
            old(self).values() != Set::<u32>::empty(),
        ensures
            final(self).wf(),
            final(self).spec_off() == old(self).spec_off(),
            old(self).values().contains(r),
            forall|w: u32| old(self).values().contains(w) ==> r <= w,
            final(self).values() == old(self).values().remove(r),
    {
        let mut i: usize = 0;
        while i < BASE
            invariant
                0 <= i <= 128,
                *self == *old(self),
                self.wf(),
                forall|k: int| 0 <= k < i ==> !block_bits(self.bm).contains(k),
            decreases 128 - i,
        {
            if self.bm.get(i) {
                self.bm.set(i, false);
                let r = (i + self.off) as u32;
                proof {
                    assert(old(self).has(r));
                    assert forall|w: u32| old(self).values().contains(w) implies r <= w by {
                        assert(old(self).has(w));
                    }
                    assert(self.values() =~= old(self).values().remove(r));
                }
                return r;
            }
            i += 1;
        }
        proof {
            assert(self.values() =~= Set::<u32>::empty()) by {
                assert forall|v: u32| !self.has(v) by {}
            }
        }
        0
    }

    /// Whether the block holds `idx`.
    pub fn get(&self, idx: usize) -> (r: bool)
        requires
            self.wf(),
            self.spec_off() <= idx < self.spec_off() + 128,
        ensures
            r == self.values().contains(idx as u32),
    {
        self.bm.get(idx - self.off)
    }

    /// Whether `v` lies in the range of values that the block covers.
    pub closed spec fn covers(&self, v: u32) -> bool {
        self.off <= v < self.off + 128
    }

    /// A block that starts where it does starts at the block start of each
    /// value it holds.
    proof fn lemma_has_off(&self, v: u32)
        requires
            self.wf(),
            self.covers(v),
        ensures
            self.off == (v as int / 128) * 128,
    {
    }

    /// The values of a block are its bits moved up by its offset.
    proof fn lemma_values_len(&self)
        requires
            self.wf(),
        ensures
            self.values().finite(),
            self.values().len() == block_bits(self.bm).len(),
            block_bits(self.bm).finite(),
            block_bits(self.bm).len() <= 128,
    {
        let bits = block_bits(self.bm);
        lemma_int_range(0, 128);
        assert(all_positions() =~= vstd::set_lib::set_int_range(0, 128));
        lemma_len_subset(bits, all_positions());
        let off = self.off as int;
        let f = |i: int| (off + i) as u32;
        assert(bits.map(f) =~= self.values()) by {
            assert forall|v: u32| self.values().contains(v) implies bits.map(f).contains(v) by {
                assert(self.has(v));
                assert(bits.contains(v - off));
                assert(f(v - off) == v);
            }
            assert forall|v: u32| bits.map(f).contains(v) implies self.values().contains(v) by {
                let i = choose|i: int| bits.contains(i) && f(i) == v;
                assert(self.has(v));
            }
        }
        assert(vstd::relations::injective_on(f, bits));
        lemma_map_size(bits, self.values(), f);
    }
}


/// The three ways in which two sets are merged.
#[derive(Clone, Copy, PartialEq, Eq, Structural)]
enum SetOp {
    Union,
    Intersection,
    Difference,
}

/// Whether `op` keeps a value, given whether each of the two sets has it.
spec fn op_holds(op: SetOp, a: bool, b: bool) -> bool {
    match op {
        SetOp::Union => a || b,
        SetOp::Intersection => a && b,
        SetOp::Difference => a && !b,
    }
}

/// The blocks are well formed, none is empty, and they stand in the order of
/// their offsets.
spec fn blocks_wf(s: Seq<BitmapOff>) -> bool {
    &&& forall|i: int| 0 <= i < s.len() ==> (#[trigger] s[i]).wf()
    &&& forall|i: int| 0 <= i < s.len() ==> (#[trigger] s[i]).values() != Set::<u32>::empty()
    &&& forall|i: int, j: int| 0 <= i < j < s.len() ==> (#[trigger] s[i]).off < (#[trigger] s[j]).off
}

/// Whether one of the blocks holds `v`.
spec fn blocks_has(s: Seq<BitmapOff>, v: u32) -> bool {
    exists|i: int| 0 <= i < s.len() && (#[trigger] s[i]).has(v)
}

/// The number of bits set over all the blocks.
spec fn blocks_count(s: Seq<BitmapOff>) -> nat
    decreases s.len(),
{
    if s.len() == 0 {
        0
    } else {
        blocks_count(s.drop_last()) + s.last().values().len()
    }
}

/// A value is held by some blocks with one more block behind them where it
/// is held by them or by that block.
proof fn lemma_has_push(s: Seq<BitmapOff>, b: BitmapOff, v: u32)
    ensures
        blocks_has(s.push(b), v) == (blocks_has(s, v) || b.has(v)),
{
    let t = s.push(b);
    if blocks_has(t, v) {
        let i = choose|i: int| 0 <= i < t.len() && (#[trigger] t[i]).has(v);
        if i < s.len() {
            assert(s[i].has(v));
        }
    }
    if blocks_has(s, v) {
        let i = choose|i: int| 0 <= i < s.len() && (#[trigger] s[i]).has(v);
        assert(t[i].has(v));
    }
    if b.has(v) {
        assert(t[s.len() as int].has(v));
    }
}

/// A value is held by the first `n + 1` blocks where it is held by the first
/// `n` or by the next.
proof fn lemma_has_take(s: Seq<BitmapOff>, n: int, v: u32)
    requires
        0 <= n < s.len(),
    ensures
        blocks_has(s.take(n + 1), v) == (blocks_has(s.take(n), v) || s[n].has(v)),
{
    assert(s.take(n + 1) =~= s.take(n).push(s[n]));
    lemma_has_push(s.take(n), s[n], v);
}

/// A value that a block holds is in no block of a prefix whose blocks all
/// start elsewhere.
proof fn lemma_not_in_prefix(s: Seq<BitmapOff>, n: int, b: BitmapOff, v: u32)
    requires
        0 <= n <= s.len(),
        forall|k: int| 0 <= k < n ==> (#[trigger] s[k]).wf() && s[k].off != b.off,
        b.wf(),
        b.covers(v),
    ensures
        !blocks_has(s.take(n), v),
{
    let t = s.take(n);
    if blocks_has(t, v) {
        let k = choose|k: int| 0 <= k < t.len() && (#[trigger] t[k]).has(v);
        assert(t[k] == s[k]);
        s[k].lemma_has_off(v);
        b.lemma_has_off(v);
    }
}

/// Among well-formed blocks, a value is held by the block that covers it or
/// by none.
proof fn lemma_has_at(s: Seq<BitmapOff>, idx: int, v: u32)
    requires
        blocks_wf(s),
        0 <= idx < s.len(),
        s[idx].covers(v),
    ensures
        blocks_has(s, v) == s[idx].has(v),
{
    if blocks_has(s, v) {
        let k = choose|k: int| 0 <= k < s.len() && (#[trigger] s[k]).has(v);
        s[k].lemma_has_off(v);
        s[idx].lemma_has_off(v);
    }
}

/// Blocks put behind others hold as many values as both together.
proof fn lemma_count_concat(a: Seq<BitmapOff>, b: Seq<BitmapOff>)
    ensures
        blocks_count(a + b) == blocks_count(a) + blocks_count(b),
    decreases b.len(),
{
    if b.len() == 0 {
        assert(a + b =~= a);
    } else {
        assert((a + b).drop_last() =~= a + b.drop_last());
        lemma_count_concat(a, b.drop_last());
    }
}

/// One block alone holds as many values as it holds.
proof fn lemma_count_one(b: BitmapOff)
    ensures
        blocks_count(seq![b]) == b.values().len(),
{
    assert(seq![b].drop_last() =~= Seq::<BitmapOff>::empty());
    assert(blocks_count(seq![b].drop_last()) == 0);
}

/// The `k`-th of some ordered blocks starts at `128 * k` or later.
proof fn lemma_off_lower(s: Seq<BitmapOff>, k: int)
    requires
        blocks_wf(s),
        0 <= k < s.len(),
    ensures
        s[k].off >= 128 * k,
    decreases k,
{
    if k > 0 {
        lemma_off_lower(s, k - 1);
        assert(s[k - 1].wf());
        assert(s[k].wf());
        assert(s[k - 1].off < s[k].off);
    }
}

/// Well-formed blocks hold at most 2^32 values.
proof fn lemma_count_bound(s: Seq<BitmapOff>)
    requires
        blocks_wf(s),
    ensures
        blocks_count(s) <= 128 * s.len(),
        128 * s.len() <= 0x1_0000_0000,
    decreases s.len(),
{
    if s.len() > 0 {
        let t = s.drop_last();
        assert(blocks_wf(t)) by {
            assert forall|i: int| 0 <= i < t.len() implies (#[trigger] t[i]).wf() by {
                assert(t[i] == s[i]);
            }
            assert forall|i: int| 0 <= i < t.len() implies (#[trigger] t[i]).values() != Set::<
                u32,
            >::empty() by {
                assert(t[i] == s[i]);
            }
            assert forall|i: int, j: int| 0 <= i < j < t.len() implies (#[trigger] t[i]).off < (
            #[trigger] t[j]).off by {
                assert(t[i] == s[i] && t[j] == s[j]);
            }
        }
        lemma_count_bound(t);
        assert(s.last().wf());
        s.last().lemma_values_len();
        lemma_off_lower(s, s.len() - 1);
    }
}

/// The values that some blocks hold.
spec fn blocks_view(s: Seq<BitmapOff>) -> Set<u32> {
    Set::new(|v: u32| blocks_has(s, v))
}

/// Well-formed blocks hold as many values as they have bits set.
proof fn lemma_count_is_len(s: Seq<BitmapOff>)
    requires
        blocks_wf(s),
    ensures
        blocks_view(s).finite(),
        blocks_view(s).len() == blocks_count(s),
    decreases s.len(),
{
    if s.len() == 0 {
        assert(blocks_view(s) =~= Set::<u32>::empty());
    } else {
        let t = s.drop_last();
        let b = s.last();
        assert(blocks_wf(t)) by {
            assert forall|i: int| 0 <= i < t.len() implies (#[trigger] t[i]).wf() by {
                assert(t[i] == s[i]);
            }
            assert forall|i: int| 0 <= i < t.len() implies (#[trigger] t[i]).values() != Set::<
                u32,
            >::empty() by {
                assert(t[i] == s[i]);
            }
            assert forall|i: int, j: int| 0 <= i < j < t.len() implies (#[trigger] t[i]).off < (
            #[trigger] t[j]).off by {
                assert(t[i] == s[i] && t[j] == s[j]);
            }
        }
        lemma_count_is_len(t);
        assert(b.wf());
        b.lemma_values_len();
        assert(s =~= t.push(b));
        assert(blocks_view(s) =~= blocks_view(t).union(b.values())) by {
            assert forall|v: u32| blocks_view(s).contains(v) == (blocks_view(t).contains(v)
                || b.values().contains(v)) by {
                lemma_has_push(t, b, v);
            }
        }
        assert(blocks_view(t).disjoint(b.values())) by {
            assert forall|v: u32| !(blocks_view(t).contains(v) && b.values().contains(v)) by {
                if b.has(v) {
                    assert forall|k: int| 0 <= k < t.len() implies (#[trigger] s[k]).wf() && s[k].off
                        != b.off by {
                        assert(s[k].off < s[s.len() - 1].off);
                    }
                    lemma_not_in_prefix(s, t.len() as int, b, v);
                    assert(s.take(t.len() as int) =~= t);
                }
            }
        }
        vstd::set_lib::lemma_set_disjoint_lens(blocks_view(t), b.values());
    }
}

/// A set of 32-bit indices.
///
/// The blocks are sorted by offset, none of them is empty, and `size` is the
/// number of indices in the set.
#[derive(Debug, PartialEq)]
pub struct ValueSet {
    set: Vec<BitmapOff>,
    size: u64,
}

impl View for ValueSet {
    type V = Set<u32>;

    closed spec fn view(&self) -> Set<u32> {
        blocks_view(self.set@)
    }
}

impl Clone for ValueSet {
    fn clone(&self) -> (r: Self)
        ensures
            self.wf() ==> r.wf(),
            r@ == self@,
    {
        let mut set: Vec<BitmapOff> = Vec::new();
        let mut i: usize = 0;
        while i < self.set.len()
            invariant
                0 <= i <= self.set.len(),
                set@.len() == i,
                forall|k: int|
                    0 <= k < i ==> (#[trigger] set@[k]).off == self.set@[k].off && set@[k].values()
                        == self.set@[k].values() && set@[k].wf() == self.set@[k].wf(),
            decreases self.set.len() - i,
        {
            set.push(self.set[i].clone());
            i += 1;
        }
        let r = ValueSet { set, size: self.size };
        proof {
            lemma_same_blocks(self.set@, r.set@, self.set@.len() as int);
            assert forall|v: u32| blocks_has(r.set@, v) == blocks_has(self.set@, v) by {
                if blocks_has(r.set@, v) {
                    let k = choose|k: int| 0 <= k < r.set@.len() && (#[trigger] r.set@[k]).has(v);
                    assert(r.set@[k].values().contains(v));
                    assert(self.set@[k].values().contains(v));
                    assert(self.set@[k].has(v));
                }
                if blocks_has(self.set@, v) {
                    let k = choose|k: int|
                        0 <= k < self.set@.len() && (#[trigger] self.set@[k]).has(v);
                    assert(self.set@[k].values().contains(v));
                    assert(r.set@[k].values().contains(v));
                    assert(r.set@[k].has(v));
                }
            }
            assert(r@ =~= self@);
            if self.wf() {
                assert forall|k: int| 0 <= k < r.set@.len() implies (#[trigger] r.set@[k]).wf()
                    && r.set@[k].values() != Set::<u32>::empty() by {
                    assert(self.set@[k].wf());
                }
                assert forall|a: int, b: int| 0 <= a < b < r.set@.len() implies (
                #[trigger] r.set@[a]).off < (#[trigger] r.set@[b]).off by {
                    assert(self.set@[a].off < self.set@[b].off);
                }
            }
        }
        r
    }
}

/// Blocks that hold the same values, one by one, hold as many values.
proof fn lemma_same_blocks(a: Seq<BitmapOff>, b: Seq<BitmapOff>, n: int)
    requires
        0 <= n <= a.len(),
        a.len() == b.len(),
        forall|k: int| 0 <= k < a.len() ==> (#[trigger] b[k]).values() == a[k].values(),
    ensures
        blocks_count(a.take(n)) == blocks_count(b.take(n)),
        n == a.len() ==> blocks_count(a) == blocks_count(b),
    decreases n,
{
    if n > 0 {
        lemma_same_blocks(a, b, n - 1);
        assert(a.take(n).drop_last() =~= a.take(n - 1));
        assert(b.take(n).drop_last() =~= b.take(n - 1));
        assert(b[n - 1].values() == a[n - 1].values());
    }
    if n == a.len() {
        assert(a.take(n) =~= a);
        assert(b.take(n) =~= b);
    }
}

impl ValueSet {
    /// The invariant of the type.
    pub closed spec fn wf(&self) -> bool {
        &&& blocks_wf(self.set@)
        &&& self.size == blocks_count(self.set@)
    }

    /// The number of blocks in use.
    pub closed spec fn spec_blocks(&self) -> nat {
        self.set@.len()
    }

    /// The first value that the `k`-th block in use covers.
    pub closed spec fn block_start(&self, k: int) -> int {
        self.set@[k].off as int
    }

    /// Whether the set has a value in the range of the `k`-th block in use.
    pub open spec fn block_in_use(&self, k: int) -> bool {
        exists|v: u32| #[trigger] self@.contains(v) && self.block_start(k) == (v as int / 128) * 128
    }

    /// The blocks in use are the 128-aligned ranges in which the set has a
    /// value, in ascending order; and the set is finite.
    pub proof fn lemma_blocks(&self)
        requires
            self.wf(),
        ensures
            self@.finite(),
            forall|k: int|
                0 <= k < self.spec_blocks() ==> 0 <= #[trigger] self.block_start(k)
                    && self.block_start(k) % 128 == 0,
            forall|k: int, l: int|
                0 <= k < l < self.spec_blocks() ==> self.block_start(k) < self.block_start(l),
            forall|v: u32|
                self@.contains(v) ==> exists|k: int|
                    0 <= k < self.spec_blocks() && #[trigger] self.block_start(k) == (v as int / 128)
                        * 128,
            forall|k: int| 0 <= k < self.spec_blocks() ==> #[trigger] self.block_in_use(k),
    {
        let s = self.set@;
        lemma_count_is_len(s);
        assert forall|k: int| 0 <= k < self.spec_blocks() implies 0 <= #[trigger] self.block_start(
            k,
        ) && self.block_start(k) % 128 == 0 by {
            assert(s[k].wf());
        }
        assert forall|k: int, l: int| 0 <= k < l < self.spec_blocks() implies self.block_start(k)
            < self.block_start(l) by {
            assert(s[k].off < s[l].off);
        }
        assert forall|v: u32| self@.contains(v) implies exists|k: int|
            0 <= k < self.spec_blocks() && #[trigger] self.block_start(k) == (v as int / 128)
                * 128 by {
            let k = choose|k: int| 0 <= k < s.len() && (#[trigger] s[k]).has(v);
            assert(s[k].wf());
            s[k].lemma_has_off(v);
            assert(self.block_start(k) == (v as int / 128) * 128);
        }
        assert forall|k: int| 0 <= k < self.spec_blocks() implies #[trigger] self.block_in_use(
            k,
        ) by {
            assert(s[k].wf());
            assert(s[k].values() != Set::<u32>::empty());
            assert(exists|v: u32| s[k].values().contains(v)) by {
                if forall|v: u32| !s[k].values().contains(v) {
                    assert(s[k].values() =~= Set::<u32>::empty());
                }
            }
            let v = choose|v: u32| s[k].values().contains(v);
            assert(s[k].has(v));
            s[k].lemma_has_off(v);
            assert(self@.contains(v));
        }
    }

    /// The empty set.
    pub fn new() -> (r: Self)
        ensures
            r.wf(),
            r@ == Set::<u32>::empty(),
    {
        let r = ValueSet { set: Vec::new(), size: 0 };
        assert(r@ =~= Set::<u32>::empty());
        r
    }

    /// The number of indices in the set.
    pub fn len(&self) -> (r: u64)
        requires
            self.wf(),
        ensures
            r == self@.len(),
            self@.finite(),
            r <= 0x1_0000_0000,
    {
        proof {
            lemma_count_is_len(self.set@);
            lemma_count_bound(self.set@);
        }
        self.size
    }

    /// Whether the set holds no value.
    pub fn is_empty(&self) -> (r: bool)
        requires
            self.wf(),
        ensures
            r == (self@ == Set::<u32>::empty()),
            r == (self@.len() == 0),
            self@.finite(),
    {
        proof {
            lemma_count_is_len(self.set@);
            if self.size == 0 {
                self@.lemma_len0_is_empty();
                assert(self@ =~= Set::<u32>::empty());
            }
        }
        self.size == 0
    }

    /// The place of the block that starts at `off`: whether there is one, and
    /// the index at which it stands or would have to be put.
    fn find(&self, off: usize) -> (r: (bool, usize))
        requires
            blocks_wf(self.set@),
        ensures
            r.1 <= self.set@.len(),
            r.0 ==> r.1 < self.set@.len() && self.set@[r.1 as int].off == off,
            forall|k: int| 0 <= k < r.1 ==> (#[trigger] self.set@[k]).off < off,
            forall|k: int|
                r.1 <= k < self.set@.len() && !(r.0 && k == r.1) ==> (#[trigger] self.set@[k]).off
                    > off,
    {
        let mut lo: usize = 0;
        let mut hi: usize = self.set.len();
        while lo < hi
            invariant
                0 <= lo <= hi <= self.set@.len(),
                blocks_wf(self.set@),
                forall|k: int| 0 <= k < lo ==> (#[trigger] self.set@[k]).off < off,
                forall|k: int| hi <= k < self.set@.len() ==> (#[trigger] self.set@[k]).off >= off,
            decreases hi - lo,
        {
            let mid = lo + (hi - lo) / 2;
            if self.set[mid].off < off {
                assert forall|k: int| 0 <= k < mid + 1 implies (#[trigger] self.set@[k]).off
                    < off by {
                    if k < mid {
                        assert(self.set@[k].off < self.set@[mid as int].off);
                    }
                }
                lo = mid + 1;
            } else {
                assert forall|k: int| mid <= k < self.set@.len() implies (#[trigger] self.set@[k]).off
                    >= off by {
                    if k > mid {
                        assert(self.set@[mid as int].off < self.set@[k].off);
                    }
                }
                hi = mid;
            }
        }
        let found = lo < self.set.len() && self.set[lo].off == off;
        proof {
            assert forall|k: int|
                lo <= k < self.set@.len() && !(found && k == lo) implies (#[trigger] self.set@[k]).off
                > off by {
                if k > lo {
                    assert(self.set@[lo as int].off < self.set@[k].off);
                }
            }
        }
        (found, lo)
    }

    /// Puts `b` in the place of the block at `idx`, which starts where `b`
    /// does, or drops that block where `b` is empty.
    fn replace_block(&mut self, idx: usize, b: BitmapOff)
        requires
            old(self).wf(),
            idx < old(self).set@.len(),
            b.wf(),
            b.off == old(self).set@[idx as int].off,
        ensures
            final(self).wf(),
            forall|w: u32|
                final(self)@.contains(w) == (if b.covers(w) {
                    b.has(w)
                } else {
                    old(self)@.contains(w)
                }),
    {
        let ghost s = self.set@;
        let ghost i = idx as int;
        let old_len = self.set[idx].len() as u64;
        let new_len = b.len() as u64;
        proof {
            lemma_count_bound(s);
            assert(s =~= s.take(i) + seq![s[i]] + s.skip(i + 1));
            lemma_count_concat(s.take(i) + seq![s[i]], s.skip(i + 1));
            lemma_count_concat(s.take(i), seq![s[i]]);
            lemma_count_one(s[i]);
            lemma_count_one(b);
        }
        if b.is_empty() {
            self.set.remove(idx);
            proof {
                let t = self.set@;
                assert(t =~= s.take(i) + s.skip(i + 1));
                lemma_count_concat(s.take(i), s.skip(i + 1));
                assert(blocks_wf(t)) by {
                    assert forall|k: int| 0 <= k < t.len() implies (#[trigger] t[k]).wf()
                        && t[k].values() != Set::<u32>::empty() by {
                        if k < i {
                            assert(t[k] == s[k]);
                        } else {
                            assert(t[k] == s[k + 1]);
                        }
                    }
                    assert forall|k: int, l: int| 0 <= k < l < t.len() implies (#[trigger] t[k]).off
                        < (#[trigger] t[l]).off by {
                        let k2 = if k < i { k } else { k + 1 };
                        let l2 = if l < i { l } else { l + 1 };
                        assert(t[k] == s[k2] && t[l] == s[l2]);
                        assert(s[k2].off < s[l2].off);
                    }
                }
                assert forall|w: u32|
                    blocks_has(t, w) == (if b.covers(w) {
                        b.has(w)
                    } else {
                        blocks_has(s, w)
                    }) by {
                    assert(!b.values().contains(w));
                    if !b.covers(w) && !blocks_has(s, w) && blocks_has(t, w) {
                        let k = choose|k: int| 0 <= k < t.len() && (#[trigger] t[k]).has(w);
                        let k2 = if k < i { k } else { k + 1 };
                        assert(t[k] == s[k2]);
                        assert(s[k2].has(w));
                    }
                    if blocks_has(t, w) {
                        let k = choose|k: int| 0 <= k < t.len() && (#[trigger] t[k]).has(w);
                        let k2 = if k < i { k } else { k + 1 };
                        assert(t[k] == s[k2]);
                        assert(s[k2].has(w));
                        assert(s[k2].wf() && s[i].wf());
                        if b.covers(w) {
                            s[k2].lemma_has_off(w);
                            s[i].lemma_has_off(w);
                            if k2 < i {
                                assert(s[k2].off < s[i].off);
                            } else {
                                assert(s[i].off < s[k2].off);
                            }
                        }
                    }
                    if !b.covers(w) && blocks_has(s, w) {
                        let k = choose|k: int| 0 <= k < s.len() && (#[trigger] s[k]).has(w);
                        let k2 = if k < i { k } else { k - 1 };
                        assert(t[k2] == s[k]);
                        assert(t[k2].has(w));
                    }
                }
            }
        } else {
            self.set.set(idx, b);
            proof {
                let t = self.set@;
                assert(t =~= s.take(i) + seq![b] + s.skip(i + 1));
                lemma_count_concat(s.take(i) + seq![b], s.skip(i + 1));
                lemma_count_concat(s.take(i), seq![b]);
                assert(blocks_wf(t)) by {
                    assert forall|k: int| 0 <= k < t.len() implies (#[trigger] t[k]).wf()
                        && t[k].values() != Set::<u32>::empty() by {
                        if k != i {
                            assert(t[k] == s[k]);
                        }
                    }
                    assert forall|k: int, l: int| 0 <= k < l < t.len() implies (#[trigger] t[k]).off
                        < (#[trigger] t[l]).off by {
                        assert(t[k].off == s[k].off && t[l].off == s[l].off);
                        assert(s[k].off < s[l].off);
                    }
                }
                assert forall|w: u32|
                    blocks_has(t, w) == (if b.covers(w) {
                        b.has(w)
                    } else {
                        blocks_has(s, w)
                    }) by {
                    if b.covers(w) {
                        lemma_has_at(t, i, w);
                    } else {
                        if blocks_has(t, w) {
                            let k = choose|k: int| 0 <= k < t.len() && (#[trigger] t[k]).has(w);
                            assert(k != i);
                            assert(s[k].has(w));
                        }
                        if blocks_has(s, w) {
                            let k = choose|k: int| 0 <= k < s.len() && (#[trigger] s[k]).has(w);
                            assert(k != i);
                            assert(t[k].has(w));
                        }
                    }
                }
            }
        }
        self.size = self.size - old_len + new_len;
    }

    /// Puts `v` into the set.
    pub fn set(&mut self, v: u32)
        requires
            old(self).wf(),
        ensures
            final(self).wf(),
            final(self)@ == old(self)@.insert(v),
    {
        let off = (v as usize / BASE) * BASE;
        let (found, idx) = self.find(off);
        let ghost s = self.set@;
        if found {
            let mut b = self.set[idx];
            let ghost b0 = b;
            assert(b.wf());
            b.set(v as usize);
            self.replace_block(idx, b);
            proof {
                assert forall|w: u32| self@.contains(w) == old(self)@.insert(v).contains(w) by {
                    assert(b.values().contains(w) == (b0.values().contains(w) || w == v));
                    assert(b.covers(v));
                    assert(old(self)@.contains(w) == blocks_has(s, w));
                    if b.covers(w) {
                        assert(b0.covers(w));
                        lemma_has_at(s, idx as int, w);
                    }
                }
                assert(self@ =~= old(self)@.insert(v));
            }
        } else {
            let mut b = BitmapOff::new(off);
            b.set(v as usize);
            proof {
                lemma_count_bound(s);
                b.lemma_values_len();
                assert(b.values() =~= Set::<u32>::empty().insert(v));
                assert(b.values().len() == 1);
            }
            self.set.insert(idx, b);
            self.size += 1;
            proof {
                let t = self.set@;
                let i = idx as int;
                assert(s =~= s.take(i) + s.skip(i));
                assert(t =~= s.take(i) + seq![b] + s.skip(i));
                lemma_count_concat(s.take(i), s.skip(i));
                lemma_count_concat(s.take(i) + seq![b], s.skip(i));
                lemma_count_concat(s.take(i), seq![b]);
                lemma_count_one(b);
                assert(blocks_wf(t)) by {
                    assert forall|k: int| 0 <= k < t.len() implies (#[trigger] t[k]).wf()
                        && t[k].values() != Set::<u32>::empty() by {
                        if k < i {
                            assert(t[k] == s[k]);
                        } else if k > i {
                            assert(t[k] == s[k - 1]);
                        } else {
                            assert(t[k].values().contains(v));
                        }
                    }
                    assert forall|k: int, l: int| 0 <= k < l < t.len() implies (#[trigger] t[k]).off
                        < (#[trigger] t[l]).off by {
                        let k2 = if k < i { k } else { k - 1 };
                        let l2 = if l < i { l } else { l - 1 };
                        if k != i && l != i {
                            assert(t[k] == s[k2] && t[l] == s[l2]);
                            assert(s[k2].off < s[l2].off);
                        } else if k == i {
                            assert(t[l] == s[l2]);
                        } else {
                            assert(t[k] == s[k2]);
                        }
                    }
                }
                assert forall|w: u32| blocks_has(t, w) == (blocks_has(s, w) || w == v) by {
                    if blocks_has(t, w) {
                        let k = choose|k: int| 0 <= k < t.len() && (#[trigger] t[k]).has(w);
                        if k < i {
                            assert(s[k].has(w));
                        } else if k > i {
                            assert(t[k] == s[k - 1]);
                            assert(s[k - 1].has(w));
                        } else {
                            assert(b.values().contains(w));
                        }
                    }
                    if blocks_has(s, w) {
                        let k = choose|k: int| 0 <= k < s.len() && (#[trigger] s[k]).has(w);
                        let k2 = if k < i { k } else { k + 1 };
                        assert(t[k2] == s[k]);
                        assert(t[k2].has(w));
                    }
                    if w == v {
                        assert(b.values().contains(v));
                        assert(t[i].has(w));
                    }
                }
                assert(self@ =~= old(self)@.insert(v));
            }
        }
    }

    /// Takes `v` out of the set.
    pub fn reset(&mut self, v: u32)
        requires
            old(self).wf(),
        ensures
            final(self).wf(),
            final(self)@ == old(self)@.remove(v),
    {
        let off = (v as usize / BASE) * BASE;
        let (found, idx) = self.find(off);
        let ghost s = self.set@;
        if found {
            let mut b = self.set[idx];
            let ghost b0 = b;
            assert(b.wf());
            b.reset(v as usize);
            self.replace_block(idx, b);
            proof {
                assert forall|w: u32| self@.contains(w) == old(self)@.remove(v).contains(w) by {
                    assert(b.values().contains(w) == (b0.values().contains(w) && w != v));
                    assert(b.covers(v));
                    assert(old(self)@.contains(w) == blocks_has(s, w));
                    if b.covers(w) {
                        assert(b0.covers(w));
                        lemma_has_at(s, idx as int, w);
                    }
                }
                assert(self@ =~= old(self)@.remove(v));
            }
        } else {
            proof {
                if blocks_has(s, v) {
                    let k = choose|k: int| 0 <= k < s.len() && (#[trigger] s[k]).has(v);
                    assert(s[k].wf());
                    s[k].lemma_has_off(v);
                }
                assert(self@ =~= old(self)@.remove(v));
            }
        }
    }

    /// The smallest value of the block at `choice_idx`, which leaves the set.
    pub fn pick_from(&mut self, choice_idx: usize) -> (r: u32)
        requires
            old(self).wf(),
            choice_idx < old(self).spec_blocks(),
        ensures
            final(self).wf(),
            old(self)@.contains(r),
            (r as int / 128) * 128 == old(self).block_start(choice_idx as int),
            forall|w: u32| old(self)@.contains(w) && w / 128 == r / 128 ==> r <= w,
            final(self)@ == old(self)@.remove(r),
    {
        let ghost s = self.set@;
        let mut b = self.set[choice_idx];
        let ghost b0 = b;
        assert(b.wf() && b.values() != Set::<u32>::empty());
        let r = b.pick_first();
        self.replace_block(choice_idx, b);
        proof {
            assert(b0.has(r));
            b0.lemma_has_off(r);
            assert forall|w: u32| old(self)@.contains(w) && w / 128 == r / 128 implies r <= w by {
                assert(b0.covers(w));
                lemma_has_at(s, choice_idx as int, w);
                assert(b0.values().contains(w));
            }
            assert forall|w: u32| self@.contains(w) == old(self)@.remove(r).contains(w) by {
                assert(b.values().contains(w) == (b0.values().contains(w) && w != r));
                assert(b.covers(r));
                assert(old(self)@.contains(w) == blocks_has(s, w));
                if b.covers(w) {
                    assert(b0.covers(w));
                    lemma_has_at(s, choice_idx as int, w);
                }
            }
            assert(self@ =~= old(self)@.remove(r));
        }
        r
    }

    /// The smallest value of a block drawn at random, which leaves the set.
    pub fn random_pick(&mut self) -> (r: u32)
        requires
            old(self).wf(),
            old(self)@.len() > 0,
        ensures
            final(self).wf(),
            old(self)@.contains(r),
            forall|w: u32| old(self)@.contains(w) && w / 128 == r / 128 ==> r <= w,
            final(self)@ == old(self)@.remove(r),
    {
        let mut rng = new_rng();
        self.random_pick_with(&mut rng)
    }

    /// The smallest value of a block drawn at random with the generator
    /// `rng`; the value leaves the set.
    pub fn random_pick_with(&mut self, rng: &mut SmallRng) -> (r: u32)
        requires
            old(self).wf(),
            old(self)@.len() > 0,
        ensures
            final(self).wf(),
            old(self)@.contains(r),
            forall|w: u32| old(self)@.contains(w) && w / 128 == r / 128 ==> r <= w,
            final(self)@ == old(self)@.remove(r),
    {
        let len = self.set.len();
        proof {
            if len == 0 {
                assert(self@ =~= Set::<u32>::empty());
            }
        }
        let choice_idx = random_below(rng, len as u64) as usize;
        self.pick_from(choice_idx)
    }

    /// One pass over the blocks of both sets in the order of their offsets,
    /// which keeps of each block what `op` keeps.
    fn merge(&self, other: &ValueSet, op: SetOp) -> (r: ValueSet)
        requires
            self.wf(),
            other.wf(),
        ensures
            r.wf(),
            forall|v: u32| r@.contains(v) == op_holds(op, self@.contains(v), other@.contains(v)),
    {
        let ghost a = self.set@;
        let ghost b = other.set@;
        let mut set: Vec<BitmapOff> = Vec::new();
        let mut size: u64 = 0;
        let mut i: usize = 0;
        let mut j: usize = 0;
        proof {
            assert(a.take(0) =~= Seq::<BitmapOff>::empty());
            assert(b.take(0) =~= Seq::<BitmapOff>::empty());
        }
        while i < self.set.len() || j < other.set.len()
            invariant
                a == self.set@,
                b == other.set@,
                blocks_wf(a),
                blocks_wf(b),
                0 <= i <= a.len(),
                0 <= j <= b.len(),
                blocks_wf(set@),
                size == blocks_count(set@),
                forall|k: int| 0 <= k < set@.len() && i < a.len() ==> (#[trigger] set@[k]).off < a[i as int].off,
                forall|k: int| 0 <= k < set@.len() && j < b.len() ==> (#[trigger] set@[k]).off < b[j as int].off,
                forall|k: int| 0 <= k < i && j < b.len() ==> (#[trigger] a[k]).off < b[j as int].off,
                forall|k: int| 0 <= k < j && i < a.len() ==> (#[trigger] b[k]).off < a[i as int].off,
                forall|v: u32|
                    blocks_has(set@, v) == op_holds(
                        op,
                        blocks_has(a.take(i as int), v),
                        blocks_has(b.take(j as int), v),
                    ),
            decreases a.len() - i + b.len() - j,
        {
            let ghost i0 = i as int;
            let ghost j0 = j as int;
            let ghost set0 = set@;
            let only_a = j >= other.set.len() || (i < self.set.len() && self.set[i].off
                < other.set[j].off);
            let only_b = !only_a && (i >= self.set.len() || other.set[j].off < self.set[i].off);
            let bmo: BitmapOff;
            let keep: bool;
            if only_a {
                bmo = self.set[i];
                keep = !(op == SetOp::Intersection);
                i += 1;
                proof {
                    assert(bmo.wf() && bmo.values() != Set::<u32>::empty());
                    assert forall|v: u32| #[trigger] bmo.covers(v) implies !blocks_has(b.take(j0), v) by {
                        assert forall|k: int| 0 <= k < j0 implies (#[trigger] b[k]).wf() && b[k].off
                            != bmo.off by {}
                        lemma_not_in_prefix(b, j0, bmo, v);
                    }
                    assert forall|v: u32|
                        blocks_has(a.take(i0 + 1), v) == (blocks_has(a.take(i0), v) || bmo.has(v)) by {
                        lemma_has_take(a, i0, v);
                    }
                    assert forall|k: int| 0 <= k < j && i < a.len() implies (#[trigger] b[k]).off
                        < a[i as int].off by {
                        assert(a[i0].off < a[i as int].off);
                    }
                    assert forall|k: int| 0 <= k < i && j < b.len() implies (#[trigger] a[k]).off
                        < b[j as int].off by {}
                }
            } else if only_b {
                bmo = other.set[j];
                keep = op == SetOp::Union;
                j += 1;
                proof {
                    assert(bmo.wf() && bmo.values() != Set::<u32>::empty());
                    assert forall|v: u32| #[trigger] bmo.covers(v) implies !blocks_has(a.take(i0), v) by {
                        assert forall|k: int| 0 <= k < i0 implies (#[trigger] a[k]).wf() && a[k].off
                            != bmo.off by {}
                        lemma_not_in_prefix(a, i0, bmo, v);
                    }
                    assert forall|v: u32|
                        blocks_has(b.take(j0 + 1), v) == (blocks_has(b.take(j0), v) || bmo.has(v)) by {
                        lemma_has_take(b, j0, v);
                    }
                    assert forall|k: int| 0 <= k < i && j < b.len() implies (#[trigger] a[k]).off
                        < b[j as int].off by {
                        assert(b[j0].off < b[j as int].off);
                    }
                    assert forall|k: int| 0 <= k < j && i < a.len() implies (#[trigger] b[k]).off
                        < a[i as int].off by {}
                }
            } else {
                assert(a[i0].wf() && b[j0].wf());
                bmo = self.set[i].combine(&other.set[j], op);
                keep = !bmo.is_empty();
                i += 1;
                j += 1;
                proof {
                    assert forall|v: u32| #[trigger] bmo.covers(v) implies !blocks_has(a.take(i0), v)
                        && !blocks_has(b.take(j0), v) by {
                        assert forall|k: int| 0 <= k < i0 implies (#[trigger] a[k]).wf() && a[k].off
                            != bmo.off by {
                            assert(a[k].off < a[i0].off);
                        }
                        lemma_not_in_prefix(a, i0, bmo, v);
                        assert forall|k: int| 0 <= k < j0 implies (#[trigger] b[k]).wf() && b[k].off
                            != bmo.off by {
                            assert(b[k].off < b[j0].off);
                        }
                        lemma_not_in_prefix(b, j0, bmo, v);
                    }
                    assert forall|v: u32|
                        blocks_has(a.take(i0 + 1), v) == (blocks_has(a.take(i0), v) || a[i0].has(v))
                            && blocks_has(b.take(j0 + 1), v) == (blocks_has(b.take(j0), v)
                            || b[j0].has(v)) by {
                        lemma_has_take(a, i0, v);
                        lemma_has_take(b, j0, v);
                    }
                    assert forall|k: int| 0 <= k < i && j < b.len() implies (#[trigger] a[k]).off
                        < b[j as int].off by {
                        assert(b[j0].off < b[j as int].off);
                        if k < i0 {
                            assert(a[k].off < a[i0].off);
                        }
                    }
                    assert forall|k: int| 0 <= k < j && i < a.len() implies (#[trigger] b[k]).off
                        < a[i as int].off by {
                        assert(a[i0].off < a[i as int].off);
                        if k < j0 {
                            assert(b[k].off < b[j0].off);
                        }
                    }
                    if !keep {
                        assert forall|v: u32| !bmo.has(v) by {
                            assert(!bmo.values().contains(v));
                        }
                    }
                }
            }
            proof {
                assert(i0 < a.len() ==> bmo.off <= a[i0].off);
                assert(j0 < b.len() ==> bmo.off <= b[j0].off);
                if i < a.len() {
                    assert(a[i0].off < a[i as int].off || i == i0);
                }
                if j < b.len() {
                    assert(b[j0].off < b[j as int].off || j == j0);
                }
            }
            if keep {
                proof {
                    let t = set0.push(bmo);
                    assert(blocks_wf(t)) by {
                        assert forall|k: int| 0 <= k < t.len() implies (#[trigger] t[k]).wf()
                            && t[k].values() != Set::<u32>::empty() by {
                            if k < set0.len() {
                                assert(t[k] == set0[k]);
                            }
                        }
                        assert forall|k: int, l: int| 0 <= k < l < t.len() implies (
                        #[trigger] t[k]).off < (#[trigger] t[l]).off by {
                            assert(t[k] == set0[k]);
                            if l < set0.len() {
                                assert(t[l] == set0[l]);
                            }
                        }
                    }
                    lemma_count_bound(t);
                    assert(t.drop_last() =~= set0);
                    bmo.lemma_values_len();
                    assert forall|v: u32| blocks_has(t, v) == (blocks_has(set0, v) || bmo.has(v)) by {
                        lemma_has_push(set0, bmo, v);
                    }
                }
                size += bmo.len() as u64;
                set.push(bmo);
            }
            proof {
                assert forall|v: u32|
                    blocks_has(set@, v) == op_holds(
                        op,
                        blocks_has(a.take(i as int), v),
                        blocks_has(b.take(j as int), v),
                    ) by {
                    if bmo.has(v) {
                        assert(bmo.covers(v));
                    }
                    if i0 < a.len() && a[i0].has(v) && i > i0 {
                        assert(bmo.covers(v));
                    }
                    if j0 < b.len() && b[j0].has(v) && j > j0 {
                        assert(bmo.covers(v));
                    }
                }
                assert forall|k: int| 0 <= k < set@.len() && i < a.len() implies (
                #[trigger] set@[k]).off < a[i as int].off by {
                    if k < set0.len() {
                        assert(set@[k] == set0[k]);
                    }
                }
                assert forall|k: int| 0 <= k < set@.len() && j < b.len() implies (
                #[trigger] set@[k]).off < b[j as int].off by {
                    if k < set0.len() {
                        assert(set@[k] == set0[k]);
                    }
                }
            }
        }
        proof {
            assert(a.take(i as int) =~= a);
            assert(b.take(j as int) =~= b);
        }
        ValueSet { set, size }
    }

    /// The values that both sets hold.
    pub fn intersection(&self, other: &ValueSet) -> (r: Self)
        requires
            self.wf(),
            other.wf(),
        ensures
            r.wf(),
            r@ == self@.intersect(other@),
    {
        let r = self.merge(other, SetOp::Intersection);
        assert(r@ =~= self@.intersect(other@));
        r
    }

    /// The values of this set that `other` does not hold.
    pub fn difference(&self, other: &ValueSet) -> (r: Self)
        requires
            self.wf(),
            other.wf(),
        ensures
            r.wf(),
            r@ == self@.difference(other@),
    {
        let r = self.merge(other, SetOp::Difference);
        assert(r@ =~= self@.difference(other@));
        r
    }

    /// The values that either set holds.
    pub fn union(&self, other: &ValueSet) -> (r: Self)
        requires
            self.wf(),
            other.wf(),
        ensures
            r.wf(),
            r@ == self@.union(other@),
    {
        let r = self.merge(other, SetOp::Union);
        assert(r@ =~= self@.union(other@));
        r
    }

    /// The set of the values below `size`.
    pub fn init(size: usize) -> (r: Self)
        requires
            size <= 0x1_0000_0000,
        ensures
            r.wf(),
            r@ == Set::new(|v: u32| (v as int) < size),
    {
        let n = size / BASE;
        let mut set: Vec<BitmapOff> = Vec::new();
        let mut i: usize = 0;
        while i < n
            invariant
                0 <= i <= n,
                n == size / 128,
                size <= 0x1_0000_0000,
                set@.len() == i,
                blocks_count(set@) == 128 * i,
                forall|k: int|
                    0 <= k < i ==> (#[trigger] set@[k]).wf() && set@[k].off == 128 * k
                        && set@[k].values() == Set::new(|v: u32| 128 * k <= v < 128 * k + 128),
            decreases n - i,
        {
            let b = BitmapOff::init_1(i * BASE);
            proof {
                assert(set@.push(b).drop_last() =~= set@);
            }
            set.push(b);
            i += 1;
        }
        if size % BASE != 0 {
            let off = n * BASE;
            let mut bm = BitmapOff::init_1(off);
            let mut v: usize = size % BASE;
            while v < BASE
                invariant
                    size % 128 <= v <= 128,
                    off == 128 * n,
                    n == size / 128,
                    size <= 0x1_0000_0000,
                    bm.wf(),
                    bm.off == off,
                    bm.values().finite(),
                    bm.values().len() == 128 - (v - size % 128),
                    bm.values() == Set::new(|w: u32| off <= w < off + 128 && !(size <= w < off + v)),
                decreases 128 - v,
            {
                let ghost before = bm.values();
                assert(before.contains((v + off) as u32));
                bm.reset(v + off);
                v += 1;
                assert(bm.values() =~= Set::new(
                    |w: u32| off <= w < off + 128 && !(size <= w < off + v),
                ));
            }
            proof {
                assert(set@.push(bm).drop_last() =~= set@);
                assert(bm.values() =~= Set::new(|w: u32| off <= w < size));
                assert(bm.values().contains(off as u32));
            }
            set.push(bm);
        }
        let r = ValueSet { set, size: size as u64 };
        proof {
            let s = r.set@;
            assert forall|k: int| 0 <= k < s.len() implies (#[trigger] s[k]).wf() && s[k].off == 128
                * k && s[k].values() == Set::new(
                |v: u32| 128 * k <= v < 128 * k + 128 && (v as int) < size,
            ) by {
                if k < n {
                    assert(s[k].values() =~= Set::new(
                        |v: u32| 128 * k <= v < 128 * k + 128 && (v as int) < size,
                    ));
                } else {
                    assert(s[k].values() =~= Set::new(
                        |v: u32| 128 * k <= v < 128 * k + 128 && (v as int) < size,
                    ));
                }
            }
            assert(blocks_wf(s)) by {
                assert forall|k: int| 0 <= k < s.len() implies (#[trigger] s[k]).values() != Set::<
                    u32,
                >::empty() by {
                    assert(s[k].values().contains((128 * k) as u32));
                }
            }
            assert forall|v: u32| blocks_has(s, v) == ((v as int) < size) by {
                if blocks_has(s, v) {
                    let k = choose|k: int| 0 <= k < s.len() && (#[trigger] s[k]).has(v);
                    assert(s[k].values().contains(v));
                }
                if (v as int) < size {
                    let k = v as int / 128;
                    assert(s[k].values().contains(v));
                    assert(s[k].has(v));
                }
            }
            assert(r@ =~= Set::new(|v: u32| (v as int) < size));
        }
        r
    }

    /// The values of the set in ascending order.
    pub fn as_vec(&self) -> (res: Vec<u32>)
        requires
            self.wf(),
        ensures
            res@.len() == self@.len(),
            forall|v: u32| res@.contains(v) == self@.contains(v),
            forall|i: int, j: int| 0 <= i < j < res@.len() ==> res@[i] < res@[j],
    {
        let ghost s = self.set@;
        let mut res: Vec<u32> = Vec::new();
        let mut k: usize = 0;
        proof {
            assert(s.take(0) =~= Seq::<BitmapOff>::empty());
            lemma_count_is_len(s);
        }
        while k < self.set.len()
            invariant
                s == self.set@,
                blocks_wf(s),
                0 <= k <= s.len(),
                res@.len() == blocks_count(s.take(k as int)),
                forall|v: u32| res@.contains(v) == blocks_has(s.take(k as int), v),
                forall|i: int, j: int| 0 <= i < j < res@.len() ==> res@[i] < res@[j],
                forall|i: int| 0 <= i < res@.len() && k < s.len() ==> res@[i] < s[k as int].off,
            decreases s.len() - k,
        {
            let b = self.set[k];
            let ghost res0 = res@;
            let ghost bits = block_bits(b.bm);
            assert(b.wf());
            let mut i: usize = 0;
            proof {
                b.lemma_values_len();
                assert(bits.filter(|p: int| p < 0) =~= Set::<int>::empty());
            }
            while i < BASE
                invariant
                    0 <= i <= 128,
                    0 <= k < s.len(),
                    b.wf(),
                    b == s[k as int],
                    bits == block_bits(b.bm),
                    bits.finite(),
                    res0.len() <= res@.len(),
                    res@.take(res0.len() as int) == res0,
                    res@.len() == res0.len() + bits.filter(|p: int| p < i).len(),
                    forall|v: u32|
                        res@.contains(v) == (res0.contains(v) || (b.has(v) && v < b.off + i)),
                    forall|x: int, y: int| 0 <= x < y < res@.len() ==> res@[x] < res@[y],
                    forall|x: int| 0 <= x < res0.len() ==> res0[x] < b.off,
                    forall|x: int| 0 <= x < res@.len() ==> res@[x] < b.off + i,
                decreases 128 - i,
            {
                let ghost cur = res@;
                let ghost seen = bits.filter(|p: int| p < i);
                if b.get(i + b.off) {
                    res.push((i + b.off) as u32);
                    proof {
                        let val = (i + b.off) as u32;
                        assert(bits.filter(|p: int| p < i + 1) =~= seen.insert(i as int));
                        bits.lemma_len_filter(|p: int| p < i);
                        assert(res@.take(res0.len() as int) =~= res0);
                        assert forall|v: u32|
                            res@.contains(v) == (res0.contains(v) || (b.has(v) && v < b.off + i
                                + 1)) by {
                            if res@.contains(v) {
                                let x = choose|x: int| 0 <= x < res@.len() && res@[x] == v;
                                if x < cur.len() {
                                    assert(cur[x] == v);
                                    assert(cur.contains(v));
                                }
                            }
                            if cur.contains(v) {
                                let x = choose|x: int| 0 <= x < cur.len() && cur[x] == v;
                                assert(res@[x] == v);
                            }
                            if v == val {
                                assert(res@[cur.len() as int] == v);
                            }
                        }
                    }
                } else {
                    proof {
                        assert(bits.filter(|p: int| p < i + 1) =~= seen);
                    }
                }
                i += 1;
            }
            proof {
                assert(bits.filter(|p: int| p < 128) =~= bits);
                assert(s.take(k + 1) =~= s.take(k as int).push(b));
                assert(s.take(k + 1).drop_last() =~= s.take(k as int));
                assert forall|v: u32| res@.contains(v) == blocks_has(s.take(k + 1), v) by {
                    lemma_has_take(s, k as int, v);
                    assert(res0.contains(v) == blocks_has(s.take(k as int), v));
                }
                if k + 1 < s.len() {
                    assert(s[k as int].off < s[k + 1].off);
                    assert(s[k + 1].wf());
                }
            }
            k += 1;
        }
        proof {
            assert(s.take(k as int) =~= s);
        }
        res
    }
}

/// The values of `init(size)`, listed in ascending order as `as_vec` lists
/// them, are `0, 1, ..` up to `size - 1`.
pub proof fn law_init_as_vec(size: nat, set: ValueSet, listed: Seq<u32>)
    requires
        size <= 0x1_0000_0000,
        set@ == Set::new(|v: u32| (v as int) < size),
        forall|v: u32| listed.contains(v) == set@.contains(v),
        forall|i: int, j: int| 0 <= i < j < listed.len() ==> listed[i] < listed[j],
    ensures
        listed == Seq::new(size, |i: int| i as u32),
{
    assert forall|i: int| 0 <= i < listed.len() implies listed[i] == i by {
        lemma_listed_at(size, listed, i);
    }
    if listed.len() < size {
        let v = listed.len() as u32;
        assert(listed.contains(v));
        let x = choose|x: int| 0 <= x < listed.len() && listed[x] == v;
        assert(listed[x] == x);
    }
    if listed.len() > size {
        let x = listed.len() - 1;
        assert(listed.contains(listed[x]));
    }
    assert(listed =~= Seq::new(size, |i: int| i as u32));
}

/// In an ascending list of the values below `size`, each value stands at
/// its own place.
proof fn lemma_listed_at(size: nat, listed: Seq<u32>, i: int)
    requires
        size <= 0x1_0000_0000,
        forall|v: u32| listed.contains(v) == ((v as int) < size),
        forall|i: int, j: int| 0 <= i < j < listed.len() ==> listed[i] < listed[j],
        0 <= i < listed.len(),
    ensures
        listed[i] == i,
    decreases i,
{
    if i > 0 {
        lemma_listed_at(size, listed, i - 1);
    }
    assert(listed[i] >= i);
    if listed[i] > i {
        let v = i as u32;
        assert(listed.contains(listed[i]));
        assert(listed.contains(v));
        let x = choose|x: int| 0 <= x < listed.len() && listed[x] == v;
        if x < i {
            lemma_listed_at(size, listed, x);
        } else if x > i {
            assert(listed[i] < listed[x]);
        }
    }
}

/// Taking `a` out of the union of `a` and `b` leaves what taking `a` out of
/// `b` leaves.
pub proof fn law_union_difference(a: ValueSet, b: ValueSet)
    ensures
        a@.union(b@).difference(a@) == b@.difference(a@),
{
    assert(a@.union(b@).difference(a@) =~= b@.difference(a@));
}

/// The intersection of `a` and `b` is what is left of `a` once the values
/// that `b` lacks are taken out.
pub proof fn law_intersection_by_difference(a: ValueSet, b: ValueSet)
    ensures
        a@.intersect(b@) == a@.difference(a@.difference(b@)),
{
    assert(a@.intersect(b@) =~= a@.difference(a@.difference(b@)));
}

} // verus!
