//! What is common to all datasets.
use crate::cache::cache::Cache;
use crate::cache::head::{armed, head_mask, slot_mask};
use crate::joader::joader::BatchItem;
use vstd::prelude::*;

pub mod dummy;
pub mod record;

verus! {

broadcast use vstd::slice::group_slice_axioms;

/// A dataset, as its driver offers it.
pub trait Dataset {
    /// The number of samples.
    spec fn spec_len(&self) -> nat;

    /// The identifier of the dataset.
    spec fn spec_id(&self) -> u32;

    /// The identifier of the dataset.
    fn get_id(&self) -> (r: u32)
        ensures
            r == self.spec_id(),
    ;

    /// The indices of the samples: 0, 1, and so on.
    fn get_indices(&self) -> (r: Vec<u32>)
        requires
            self.spec_len() <= 0x1_0000_0000,
        ensures
            r@ == Seq::new(self.spec_len(), |i: int| i as u32),
    ;

    /// The number of samples.
    fn len(&self) -> (r: u64)
        requires
            self.spec_len() <= u64::MAX,
        ensures
            r == self.spec_len(),
    ;
}

/// A read that the cache cannot serve: the index, its key among all
/// datasets, the level at which its slot is to be registered, and the number
/// of readers.
#[derive(Debug, Clone, Copy, PartialEq, Eq, Structural)]
pub struct Miss {
    pub index: u32,
    pub data_id: u64,
    pub ref_cnt: usize,
    pub loader_cnt: usize,
}

/// The level at which a slot is registered for a sample that `ref_cnt` jobs
/// have yet to see: `ref_cnt`, and 63 for more.
pub open spec fn level_of(ref_cnt: usize) -> usize {
    if ref_cnt < 64 {
        ref_cnt
    } else {
        63
    }
}

/// What the cache says of a read.
#[derive(Debug, Clone, Copy, PartialEq, Eq, Structural)]
pub enum Lookup {
    /// The sample stands in a slot: the index, and the slot.
    Hit { index: u32, slot: usize },
    /// The sample is to be read.
    Miss(Miss),
}

/// What the cache says of a read of the dataset `dataset_id`.
pub open spec fn lookup_of(cached: Map<u64, usize>, dataset_id: u32, item: BatchItem) -> Lookup {
    let id = spec_data_id(dataset_id, item.index) as u64;
    if cached.contains_key(id) {
        Lookup::Hit { index: item.index, slot: cached[id] }
    } else {
        Lookup::Miss(
            Miss {
                index: item.index,
                data_id: id,
                ref_cnt: level_of(item.ref_cnt),
                loader_cnt: item.jobs@.len() as usize,
            },
        )
    }
}

/// Whether one of the look-ups is served by the slot `slot`.
pub open spec fn hits(found: Seq<Lookup>, slot: int) -> bool {
    exists|k: int|
        0 <= k < found.len() && (#[trigger] found[k] matches Lookup::Hit { slot: s, .. } && s
            == slot)
}

/// Looks each read of `batch` up in the cache, and returns what the cache
/// says of each, in their order. The reader mask of each slot that serves a
/// read is armed for the jobs of the read; nothing else is written. The
/// reads are of different indices, as those of a batch are.
pub fn read_batch(cache: &mut Cache, region: &mut [u8], dataset_id: u32, batch: &Vec<BatchItem>) -> (r:
    Vec<Lookup>)
    requires
        old(cache).wf(),
        old(region)@.len() == old(cache).spec_capacity(),
        forall|k: int| 0 <= k < batch@.len() ==> (#[trigger] batch@[k]).jobs@.len() <= 8,
        forall|a: int, b: int|
            0 <= a < b < batch@.len() ==> (#[trigger] batch@[a]).index != (#[trigger] batch@[b]).index,
    ensures
        *final(cache) == *old(cache),
        forall|k: int|
            0 <= k < batch@.len() ==> (#[trigger] r@[k] matches Lookup::Hit { slot, .. }
                ==> head_mask(final(region)@, 20 * slot) == armed(batch@[k].jobs@.len() as int)),
        forall|s: int|
            0 <= s < old(cache).slots() && !hits(r@, s) ==> #[trigger] slot_mask(final(region)@, s)
                == slot_mask(old(region)@, s),
        final(region)@.len() == old(region)@.len(),
        r@.len() == batch@.len(),
        forall|k: int|
            0 <= k < batch@.len() ==> #[trigger] r@[k] == lookup_of(
                old(cache).cached(),
                dataset_id,
                batch@[k],
            ),
        forall|k: int|
            0 <= k < batch@.len() ==> (#[trigger] r@[k] matches Lookup::Hit { slot, .. }
                ==> slot < old(cache).slots() && old(cache).in_use(slot as int)),
        forall|i: int|
            0 <= i < old(region)@.len() && !(i < 20 * old(cache).slots() && 12 <= i % 20)
                ==> #[trigger] final(region)@[i] == old(region)@[i],
{
    let mut out: Vec<Lookup> = Vec::new();
    let mut k: usize = 0;
    while k < batch.len()
        invariant
            0 <= k <= batch@.len(),
            *cache == *old(cache),
            cache.wf(),
            region@.len() == old(region)@.len(),
            region@.len() == cache.spec_capacity(),
            forall|x: int| 0 <= x < batch@.len() ==> (#[trigger] batch@[x]).jobs@.len() <= 8,
            forall|a: int, b: int|
                0 <= a < b < batch@.len() ==> (#[trigger] batch@[a]).index != (
                #[trigger] batch@[b]).index,
            forall|x: int|
                0 <= x < k ==> (#[trigger] out@[x] matches Lookup::Hit { slot, .. } ==> head_mask(
                    region@,
                    20 * slot,
                ) == armed(batch@[x].jobs@.len() as int)),
            forall|s: int|
                0 <= s < cache.slots() && !hits(out@, s) ==> #[trigger] slot_mask(region@, s)
                    == slot_mask(old(region)@, s),
            out@.len() == k,
            forall|x: int|
                0 <= x < k ==> #[trigger] out@[x] == lookup_of(cache.cached(), dataset_id, batch@[x]),
            forall|x: int|
                0 <= x < k ==> (#[trigger] out@[x] matches Lookup::Hit { slot, .. } ==> slot
                    < cache.slots() && cache.in_use(slot as int)),
            forall|i: int|
                0 <= i < old(region)@.len() && !(i < 20 * cache.slots() && 12 <= i % 20)
                    ==> #[trigger] region@[i] == old(region)@[i],
        decreases batch@.len() - k,
    {
        let index = batch[k].index;
        let loader_cnt = batch[k].jobs.len();
        let id = data_id(dataset_id, index);
        let ghost out0 = out@;
        match cache.contains_data(id) {
            Some(slot) => {
                proof {
                    cache.law_bytes(0);
                    assert(cache.in_use(slot as int));
                }
                let ghost before = region@;
                proof {
                    // No earlier read is served by this slot.
                    assert forall|x: int| 0 <= x < k implies !(#[trigger] out0[x] matches Lookup::Hit {
                        slot: s,
                        ..
                    } && s == slot) by {
                        if out0[x] matches Lookup::Hit { slot: s, .. } && s == slot {
                            let other = spec_data_id(dataset_id, batch@[x].index) as u64;
                            assert(out0[x] == lookup_of(cache.cached(), dataset_id, batch@[x]));
                            assert(cache.cached().contains_key(other));
                            cache.law_one_sample_a_slot(other, id);
                            law_data_id_injective(
                                dataset_id,
                                batch@[x].index,
                                dataset_id,
                                index,
                            );
                            assert(batch@[x].index != batch@[k as int].index);
                        }
                    }
                    assert(!hits(out0, slot as int));
                }
                cache.mark_unreaded(region, slot, loader_cnt);
                out.push(Lookup::Hit { index, slot });
                proof {
                    assert(out@[k as int] == (Lookup::Hit { index, slot }));
                    assert forall|s: int| 0 <= s < cache.slots() && s != slot implies #[trigger] slot_mask(
                        region@,
                        s,
                    ) == slot_mask(before, s) by {
                        let now = head_mask(region@, 20 * s);
                        let was = head_mask(before, 20 * s);
                        assert forall|i: int| 0 <= i < 8 implies #[trigger] now[i] == was[i] by {
                            assert(region@[20 * s + 12 + i] == before[20 * s + 12 + i]);
                        }
                        assert(now =~= was);
                    }
                    assert forall|x: int| 0 <= x < k + 1 implies (#[trigger] out@[x] matches Lookup::Hit {
                        slot: s,
                        ..
                    } ==> head_mask(region@, 20 * s) == armed(batch@[x].jobs@.len() as int)) by {
                        if x < k {
                            assert(out@[x] == out0[x]);
                            match out0[x] {
                                Lookup::Hit { slot: s, .. } => {
                                    assert(s != slot);
                                    assert(s < cache.slots());
                                    assert(slot_mask(region@, s as int) == slot_mask(
                                        before,
                                        s as int,
                                    ));
                                },
                                _ => {},
                            }
                        }
                    }
                    assert forall|s: int| 0 <= s < cache.slots() && !hits(out@, s) implies #[trigger] slot_mask(
                        region@,
                        s,
                    ) == slot_mask(old(region)@, s) by {
                        assert(s != slot);
                        if hits(out0, s) {
                            let x = choose|x: int|
                                0 <= x < out0.len() && (#[trigger] out0[x] matches Lookup::Hit {
                                    slot: t,
                                    ..
                                } && t == s);
                            assert(out@[x] == out0[x]);
                        }
                    }
                    assert forall|i: int|
                        0 <= i < old(region)@.len() && !(i < 20 * cache.slots() && 12 <= i
                            % 20) implies #[trigger] region@[i] == old(region)@[i] by {
                        assert(before[i] == old(region)@[i]);
                        if 20 * slot + 12 <= i < 20 * slot + 20 {
                            assert(i < 20 * cache.slots());
                            assert(12 <= i % 20);
                        }
                    }
                }
            },
            None => {
                let level = if batch[k].ref_cnt < 64 { batch[k].ref_cnt } else { 63 };
                out.push(Lookup::Miss(Miss { index, data_id: id, ref_cnt: level, loader_cnt }));
                proof {
                    assert forall|x: int| 0 <= x < k + 1 implies (#[trigger] out@[x] matches Lookup::Hit {
                        slot: s,
                        ..
                    } ==> head_mask(region@, 20 * s) == armed(batch@[x].jobs@.len() as int)) by {
                        if x < k {
                            assert(out@[x] == out0[x]);
                        }
                    }
                    assert forall|s: int| 0 <= s < cache.slots() && !hits(out@, s) implies #[trigger] slot_mask(
                        region@,
                        s,
                    ) == slot_mask(old(region)@, s) by {
                        if hits(out0, s) {
                            let x = choose|x: int|
                                0 <= x < out0.len() && (#[trigger] out0[x] matches Lookup::Hit {
                                    slot: t,
                                    ..
                                } && t == s);
                            assert(out@[x] == out0[x]);
                        }
                    }
                }
            },
        }
        proof {
            assert forall|x: int| 0 <= x < k + 1 implies #[trigger] out@[x] == lookup_of(
                cache.cached(),
                dataset_id,
                batch@[x],
            ) by {
                if x < k {
                    assert(out@[x] == out0[x]);
                }
            }
            assert forall|x: int| 0 <= x < k + 1 implies (#[trigger] out@[x] matches Lookup::Hit {
                slot,
                ..
            } ==> slot < cache.slots() && cache.in_use(slot as int)) by {
                if x < k {
                    assert(out@[x] == out0[x]);
                }
            }
        }
        k += 1;
    }
    out
}

/// The key of a sample among all datasets: the dataset in the high 32 bits,
/// the index in the low 32 bits.
pub open spec fn spec_data_id(dataset_id: u32, data_idx: u32) -> int {
    dataset_id * 0x1_0000_0000 + data_idx
}

/// The key of the sample `data_idx` of the dataset `dataset_id`.
pub fn data_id(dataset_id: u32, data_idx: u32) -> (r: u64)
    ensures
        r == spec_data_id(dataset_id, data_idx),
        r / 0x1_0000_0000 == dataset_id,
        r % 0x1_0000_0000 == data_idx,
{
    (dataset_id as u64) * 0x1_0000_0000 + (data_idx as u64)
}

/// Two samples have the same key only where they are the same sample of the
/// same dataset.
pub proof fn law_data_id_injective(d1: u32, i1: u32, d2: u32, i2: u32)
    requires
        spec_data_id(d1, i1) == spec_data_id(d2, i2),
    ensures
        d1 == d2,
        i1 == i2,
{
}

} // verus!
