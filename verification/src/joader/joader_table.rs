//! The schedulers of all datasets.
use crate::joader::joader::{BatchItem, Joader};
use vstd::prelude::*;

verus! {

/// The schedulers of all datasets, each under the identifier of its
/// dataset.
#[derive(Debug)]
pub struct JoaderTable {
    joader_table: Vec<Joader>,
    hash_key: u32,
    shm_path: String,
}

impl JoaderTable {
    /// The schedulers.
    pub closed spec fn joaders(&self) -> Seq<Joader> {
        self.joader_table@
    }

    /// The number of hosts that share the sampling.
    pub closed spec fn spec_hash_key(&self) -> u32 {
        self.hash_key
    }

    /// The name of the shared memory.
    pub closed spec fn spec_shm_path(&self) -> Seq<char> {
        self.shm_path@
    }

    /// Whether the dataset `id` has a scheduler.
    pub open spec fn has(&self, id: u32) -> bool {
        exists|k: int| 0 <= k < self.joaders().len() && (#[trigger] self.joaders()[k]).spec_id() == id
    }

    /// The place of the scheduler of the dataset `id`, where it has one.
    pub open spec fn place(&self, id: u32) -> int {
        choose|k: int| 0 <= k < self.joaders().len() && (#[trigger] self.joaders()[k]).spec_id() == id
    }

    /// The schedulers but that of the dataset `id`, in their order.
    pub open spec fn without(&self, id: u32) -> Seq<Joader> {
        if self.has(id) {
            self.joaders().remove(self.place(id))
        } else {
            self.joaders()
        }
    }

    /// A dataset has its scheduler in one place.
    pub proof fn lemma_place(&self, k: int)
        requires
            self.wf(),
            0 <= k < self.joaders().len(),
        ensures
            self.has(self.joaders()[k].spec_id()),
            self.place(self.joaders()[k].spec_id()) == k,
    {
        let id = self.joaders()[k].spec_id();
        let p = self.place(id);
        if p < k {
            assert(self.joaders()[p].spec_id() != self.joaders()[k].spec_id());
        } else if k < p {
            assert(self.joaders()[k].spec_id() != self.joaders()[p].spec_id());
        }
    }

    /// The invariant of the type: the schedulers are well formed, and no
    /// two are of the same dataset.
    pub open spec fn wf(&self) -> bool {
        &&& forall|k: int| 0 <= k < self.joaders().len() ==> (#[trigger] self.joaders()[k]).wf()
        &&& forall|a: int, b: int|
            0 <= a < b < self.joaders().len() ==> (#[trigger] self.joaders()[a]).spec_id() != (
            #[trigger] self.joaders()[b]).spec_id()
    }

    /// A table without schedulers.
    pub fn new(shm_path: String) -> (r: JoaderTable)
        ensures
            r.wf(),
            r.joaders().len() == 0,
            r.spec_hash_key() == 1,
            r.spec_shm_path() == shm_path@,
    {
        JoaderTable { joader_table: Vec::new(), hash_key: 1, shm_path }
    }

    /// The place of the scheduler of the dataset `id`.
    fn find(&self, id: u32) -> (r: Option<usize>)
        ensures
            match r {
                Some(k) => k < self.joaders().len() && self.joaders()[k as int].spec_id() == id,
                None => !self.has(id),
            },
    {
        let mut k: usize = 0;
        while k < self.joader_table.len()
            invariant
                0 <= k <= self.joader_table@.len(),
                forall|x: int| 0 <= x < k ==> (#[trigger] self.joader_table@[x]).spec_id() != id,
            decreases self.joader_table@.len() - k,
        {
            if self.joader_table[k].get_id() == id {
                return Some(k);
            }
            k += 1;
        }
        None
    }

    /// Puts in the scheduler of a dataset, behind those of the other
    /// datasets, which stay; the one that the dataset had, if it had one,
    /// is taken out.
    pub fn add_joader(&mut self, joader: Joader)
        requires
            old(self).wf(),
            joader.wf(),
        ensures
            final(self).wf(),
            final(self).spec_hash_key() == old(self).spec_hash_key(),
            final(self).spec_shm_path() == old(self).spec_shm_path(),
            final(self).has(joader.spec_id()),
            forall|id: u32| id != joader.spec_id() ==> #[trigger] final(self).has(id) == old(self).has(id),
            final(self).joaders().len() == old(self).joaders().len() + if old(self).has(
                joader.spec_id(),
            ) {
                0int
            } else {
                1int
            },
            final(self).joaders() == old(self).without(joader.spec_id()).push(joader),
    {
        let ghost id = joader.spec_id();
        self.del_joader(joader.get_id());
        let ghost mid = self.joader_table@;
        let ghost s1 = *self;
        self.joader_table.push(joader);
        proof {
            let now = self.joader_table@;
            let n = mid.len() as int;
            assert(now[n].spec_id() == id);
            assert(self.joaders()[n].spec_id() == id);
            assert forall|k: int| 0 <= k < now.len() implies (#[trigger] self.joaders()[k]).wf() by {
                if k < n {
                    assert(now[k] == mid[k]);
                    assert(s1.joaders()[k].wf());
                }
            }
            assert forall|a: int, b: int| 0 <= a < b < now.len() implies (
            #[trigger] self.joaders()[a]).spec_id() != (#[trigger] self.joaders()[b]).spec_id() by {
                assert(now[a] == mid[a]);
                if b < n {
                    assert(now[b] == mid[b]);
                    assert(s1.joaders()[a].spec_id() != s1.joaders()[b].spec_id());
                } else {
                    if mid[a].spec_id() == id {
                        assert(s1.joaders()[a].spec_id() == id);
                        assert(s1.has(id));
                    }
                }
            }
            assert forall|other: u32| other != id implies #[trigger] self.has(other) == old(self).has(other) by {
                assert(s1.has(other) == old(self).has(other));
                if self.has(other) {
                    let x = choose|x: int|
                        0 <= x < now.len() && (#[trigger] self.joaders()[x]).spec_id() == other;
                    assert(now[x] == mid[x]);
                    assert(s1.joaders()[x].spec_id() == other);
                }
                if s1.has(other) {
                    let x = choose|x: int|
                        0 <= x < mid.len() && (#[trigger] s1.joaders()[x]).spec_id() == other;
                    assert(now[x] == mid[x]);
                    assert(self.joaders()[x].spec_id() == other);
                }
            }
            assert(forall|k: int| 0 <= k < mid.len() ==> (#[trigger] s1.joaders()[k]).wf());
        }
    }

    /// Takes out the scheduler of the dataset `id`. The others stay, in
    /// their order.
    pub fn del_joader(&mut self, id: u32)
        requires
            old(self).wf(),
        ensures
            final(self).wf(),
            final(self).spec_hash_key() == old(self).spec_hash_key(),
            final(self).spec_shm_path() == old(self).spec_shm_path(),
            !final(self).has(id),
            forall|other: u32| other != id ==> #[trigger] final(self).has(other) == old(self).has(other),
            final(self).joaders().len() == old(self).joaders().len() - if old(self).has(id) {
                1int
            } else {
                0int
            },
            final(self).joaders() == old(self).without(id),
    {
        let ghost before = self.joader_table@;
        match self.find(id) {
            Some(at) => {
                self.joader_table.remove(at);
                proof {
                    old(self).lemma_place(at as int);
                    let now = self.joader_table@;
                    assert(before[at as int].spec_id() == id);
                    assert(old(self).joaders()[at as int].spec_id() == id);
                    assert forall|k: int| 0 <= k < now.len() implies (
                    #[trigger] self.joaders()[k]).wf() by {
                        let k2 = if k < at { k } else { k + 1 };
                        assert(now[k] == before[k2]);
                        assert(old(self).joaders()[k2].wf());
                    }
                    assert forall|a: int, b: int| 0 <= a < b < now.len() implies (
                    #[trigger] self.joaders()[a]).spec_id() != (
                    #[trigger] self.joaders()[b]).spec_id() by {
                        let a2 = if a < at { a } else { a + 1 };
                        let b2 = if b < at { b } else { b + 1 };
                        assert(now[a] == before[a2] && now[b] == before[b2]);
                        assert(old(self).joaders()[a2].spec_id() != old(self).joaders()[b2].spec_id());
                    }
                    assert forall|other: u32| #[trigger] self.has(other) == (old(self).has(other)
                        && other != id) by {
                        if self.has(other) {
                            let x = choose|x: int|
                                0 <= x < now.len() && (#[trigger] self.joaders()[x]).spec_id()
                                    == other;
                            let x2 = if x < at { x } else { x + 1 };
                            assert(now[x] == before[x2]);
                            assert(old(self).joaders()[x2].spec_id() == other);
                            if x2 < at {
                                assert(old(self).joaders()[x2].spec_id() != old(self).joaders()[at as int].spec_id());
                            } else {
                                assert(old(self).joaders()[at as int].spec_id() != old(self).joaders()[x2].spec_id());
                            }
                        }
                        if old(self).has(other) && other != id {
                            let x = choose|x: int|
                                0 <= x < before.len() && (#[trigger] old(self).joaders()[x]).spec_id()
                                    == other;
                            let x2 = if x < at { x } else { x - 1 };
                            assert(now[x2] == before[x]);
                            assert(self.joaders()[x2].spec_id() == other);
                        }
                    }
                }
            },
            None => {},
        }
    }

    /// Whether the dataset `id` has a scheduler.
    pub fn contains_dataset(&self, id: u32) -> (r: bool)
        ensures
            r == self.has(id),
    {
        self.find(id).is_some()
    }

    /// The name of the shared memory.
    pub fn get_shm_path(&self) -> (r: String)
        ensures
            r@ == self.spec_shm_path(),
    {
        self.shm_path.clone()
    }

    /// The number of hosts that share the sampling becomes one more than
    /// `num`.
    pub fn set_hash_key(&mut self, num: u32)
        requires
            num < u32::MAX,
        ensures
            final(self).joaders() == old(self).joaders(),
            final(self).spec_shm_path() == old(self).spec_shm_path(),
            final(self).spec_hash_key() == num + 1,
    {
        self.hash_key = num + 1;
    }

    /// Whether no scheduler has anything to schedule.
    pub fn is_empty(&self) -> (r: bool)
        ensures
            r == (forall|k: int|
                0 <= k < self.joaders().len() ==> (#[trigger] self.joaders()[k]).jobs().len() == 0
                    || self.joaders()[k].spec_empty()),
    {
        let mut k: usize = 0;
        while k < self.joader_table.len()
            invariant
                0 <= k <= self.joader_table@.len(),
                forall|x: int|
                    0 <= x < k ==> (#[trigger] self.joader_table@[x]).jobs().len() == 0
                        || self.joader_table@[x].spec_empty(),
            decreases self.joader_table@.len() - k,
        {
            if !self.joader_table[k].is_empty() {
                proof {
                    let j = self.joaders()[k as int];
                    assert(!(j.jobs().len() == 0 || j.spec_empty()));
                }
                return false;
            }
            k += 1;
        }
        true
    }

    /// Takes the scheduler of the dataset `id` out of the table, that it
    /// may be worked with and put in again, and returns it. The others
    /// stay, in their order.
    pub fn take(&mut self, id: u32) -> (r: Option<Joader>)
        requires
            old(self).wf(),
        ensures
            final(self).wf(),
            final(self).spec_hash_key() == old(self).spec_hash_key(),
            final(self).spec_shm_path() == old(self).spec_shm_path(),
            !final(self).has(id),
            forall|other: u32| other != id ==> #[trigger] final(self).has(other) == old(self).has(other),
            r is Some == old(self).has(id),
            r matches Some(j) ==> j.wf() && j.spec_id() == id && j == old(self).joaders()[old(
                self,
            ).place(id)],
            final(self).joaders() == old(self).without(id),
    {
        match self.find(id) {
            Some(at) => {
                let ghost id_at = self.joader_table@[at as int];
                assert(old(self).joaders()[at as int].wf());
                proof {
                    old(self).lemma_place(at as int);
                }
                let mut rest: Vec<Joader> = Vec::new();
                core::mem::swap(&mut rest, &mut self.joader_table);
                let j = rest.remove(at);
                core::mem::swap(&mut rest, &mut self.joader_table);
                proof {
                    let before = old(self).joaders();
                    let now = self.joader_table@;
                    assert forall|k: int| 0 <= k < now.len() implies (
                    #[trigger] self.joaders()[k]).wf() by {
                        let k2 = if k < at { k } else { k + 1 };
                        assert(now[k] == before[k2]);
                        assert(old(self).joaders()[k2].wf());
                    }
                    assert forall|a: int, b: int| 0 <= a < b < now.len() implies (
                    #[trigger] self.joaders()[a]).spec_id() != (
                    #[trigger] self.joaders()[b]).spec_id() by {
                        let a2 = if a < at { a } else { a + 1 };
                        let b2 = if b < at { b } else { b + 1 };
                        assert(now[a] == before[a2] && now[b] == before[b2]);
                        assert(old(self).joaders()[a2].spec_id() != old(self).joaders()[b2].spec_id());
                    }
                    assert forall|other: u32| #[trigger] self.has(other) == (old(self).has(other)
                        && other != id) by {
                        if self.has(other) {
                            let x = choose|x: int|
                                0 <= x < now.len() && (#[trigger] self.joaders()[x]).spec_id()
                                    == other;
                            let x2 = if x < at { x } else { x + 1 };
                            assert(now[x] == before[x2]);
                            assert(old(self).joaders()[x2].spec_id() == other);
                            if x2 < at {
                                assert(old(self).joaders()[x2].spec_id() != old(self).joaders()[at as int].spec_id());
                            } else {
                                assert(old(self).joaders()[at as int].spec_id() != old(self).joaders()[x2].spec_id());
                            }
                        }
                        if old(self).has(other) && other != id {
                            let x = choose|x: int|
                                0 <= x < before.len() && (#[trigger] old(self).joaders()[x]).spec_id()
                                    == other;
                            let x2 = if x < at { x } else { x - 1 };
                            assert(now[x2] == before[x]);
                            assert(self.joaders()[x2].spec_id() == other);
                        }
                    }
                }
                Some(j)
            },
            None => None,
        }
    }

    /// What a step of the table does to a scheduler. One that has nothing
    /// to schedule stays as it is, and has no batch in the result. One that
    /// has makes a batch, which is the one batch of its dataset in the
    /// result.
    pub open spec fn stepped(before: Joader, after: Joader, out: Seq<(u32, Vec<BatchItem>)>) -> bool {
        if before.jobs().len() == 0 || before.spec_empty() {
            &&& after == before
            &&& forall|i: int| 0 <= i < out.len() ==> (#[trigger] out[i]).0 != before.spec_id()
        } else {
            exists|i: int|
                0 <= i < out.len() && (#[trigger] out[i]).0 == before.spec_id() && Joader::batched(
                    before,
                    after,
                    out[i].1@,
                )
        }
    }

    /// One batch of each scheduler that has something to schedule, made as
    /// `Joader::next_batch` makes it: the identifier of each such dataset,
    /// with its reads.
    pub fn next(&mut self, batch_size: usize) -> (r: Vec<(u32, Vec<BatchItem>)>)
        requires
            old(self).wf(),
        ensures
            final(self).wf(),
            final(self).spec_hash_key() == old(self).spec_hash_key(),
            final(self).spec_shm_path() == old(self).spec_shm_path(),
            final(self).joaders().len() == old(self).joaders().len(),
            forall|k: int|
                0 <= k < old(self).joaders().len() ==> (#[trigger] final(self).joaders()[k]).spec_id()
                    == old(self).joaders()[k].spec_id(),
            forall|i: int|
                0 <= i < r@.len() ==> old(self).has((#[trigger] r@[i]).0)
                    && crate::joader::joader::batch_wf(r@[i].1@),
            forall|i: int, j: int| 0 <= i < j < r@.len() ==> (#[trigger] r@[i]).0 != (#[trigger] r@[j]).0,
            forall|k: int|
                0 <= k < old(self).joaders().len() ==> #[trigger] Self::stepped(
                    old(self).joaders()[k],
                    final(self).joaders()[k],
                    r@,
                ),
    {
        let ghost before = self.joader_table@;
        let total = self.joader_table.len();
        let mut out: Vec<(u32, Vec<BatchItem>)> = Vec::new();
        let mut rest: Vec<Joader> = Vec::new();
        core::mem::swap(&mut rest, &mut self.joader_table);
        let mut done: Vec<Joader> = Vec::new();
        let mut k: usize = 0;
        while k < total
            invariant
                0 <= k <= total,
                total == before.len(),
                before == old(self).joaders(),
                old(self).wf(),
                rest@.len() == total - k,
                done@.len() == k,
                self.hash_key == old(self).hash_key,
                self.shm_path == old(self).shm_path,
                forall|x: int| 0 <= x < rest@.len() ==> (#[trigger] rest@[x]) == before[k + x],
                forall|x: int|
                    0 <= x < k ==> (#[trigger] done@[x]).wf() && done@[x].spec_id()
                        == before[x].spec_id(),
                forall|x: int| 0 <= x < k ==> #[trigger] Self::stepped(before[x], done@[x], out@),
                forall|i: int, x: int|
                    0 <= i < out@.len() && k <= x < total ==> (#[trigger] out@[i]).0 != (
                    #[trigger] before[x]).spec_id(),
                forall|i: int|
                    0 <= i < out@.len() ==> crate::joader::joader::batch_wf((#[trigger] out@[i]).1@)
                        && exists|x: int| 0 <= x < k && before[x].spec_id() == out@[i].0,
                forall|i: int, j: int|
                    0 <= i < j < out@.len() ==> (#[trigger] out@[i]).0 != (#[trigger] out@[j]).0,
            decreases total - k,
        {
            let ghost out_before = out@;
            let mut joader = rest.remove(0);
            proof {
                assert(joader == before[k as int]);
                assert(old(self).joaders()[k as int].wf());
            }
            if !joader.is_empty() {
                let batch = joader.next_batch(batch_size);
                let ghost out0 = out@;
                let id = joader.get_id();
                out.push((id, batch));
                proof {
                    assert forall|i: int| 0 <= i < out@.len() implies crate::joader::joader::batch_wf(
                        (#[trigger] out@[i]).1@,
                    ) && exists|x: int| 0 <= x < k + 1 && before[x].spec_id() == out@[i].0 by {
                        if i < out0.len() {
                            assert(out@[i] == out0[i]);
                            let x = choose|x: int| 0 <= x < k && before[x].spec_id() == out0[i].0;
                            assert(0 <= x < k + 1);
                        } else {
                            assert(before[k as int].spec_id() == out@[i].0);
                        }
                    }
                    assert forall|i: int, j: int| 0 <= i < j < out@.len() implies (
                    #[trigger] out@[i]).0 != (#[trigger] out@[j]).0 by {
                        assert(out@[i] == out0[i]);
                        if j < out0.len() {
                            assert(out@[j] == out0[j]);
                        } else {
                            let x = choose|x: int| 0 <= x < k && before[x].spec_id() == out0[i].0;
                            assert(old(self).joaders()[x].spec_id() != old(self).joaders()[k as int].spec_id());
                        }
                    }
                }
            } else {
                proof {
                    assert forall|i: int| 0 <= i < out@.len() implies crate::joader::joader::batch_wf(
                        (#[trigger] out@[i]).1@,
                    ) && exists|x: int| 0 <= x < k + 1 && before[x].spec_id() == out@[i].0 by {
                        let x = choose|x: int| 0 <= x < k && before[x].spec_id() == out@[i].0;
                        assert(0 <= x < k + 1);
                    }
                }
            }
            let ghost done0 = done@;
            let ghost out1 = out@;
            done.push(joader);
            proof {
                assert forall|x: int| 0 <= x < k + 1 implies (#[trigger] done@[x]).wf()
                    && done@[x].spec_id() == before[x].spec_id() by {
                    if x < k {
                        assert(done@[x] == done0[x]);
                    }
                }
                assert forall|i: int, x: int|
                    0 <= i < out@.len() && k + 1 <= x < total implies (#[trigger] out@[i]).0 != (
                #[trigger] before[x]).spec_id() by {
                    if i < out_before.len() {
                        assert(out@[i] == out_before[i]);
                    } else {
                        assert(out@[i].0 == before[k as int].spec_id());
                        assert(old(self).joaders()[k as int].spec_id() != old(self).joaders()[x].spec_id());
                    }
                }
                assert forall|x: int| 0 <= x < k + 1 implies #[trigger] Self::stepped(
                    before[x],
                    done@[x],
                    out@,
                ) by {
                    if x < k {
                        assert(done@[x] == done0[x]);
                        assert(Self::stepped(before[x], done0[x], out_before));
                        if before[x].jobs().len() == 0 || before[x].spec_empty() {
                            assert forall|i: int| 0 <= i < out@.len() implies (
                            #[trigger] out@[i]).0 != before[x].spec_id() by {
                                if i < out_before.len() {
                                    assert(out@[i] == out_before[i]);
                                } else {
                                    assert(old(self).joaders()[x].spec_id() != old(self).joaders()[k as int].spec_id());
                                }
                            }
                        } else {
                            let i = choose|i: int|
                                0 <= i < out_before.len() && (#[trigger] out_before[i]).0
                                    == before[x].spec_id() && Joader::batched(
                                    before[x],
                                    done0[x],
                                    out_before[i].1@,
                                );
                            assert(out@[i] == out_before[i]);
                        }
                    } else {
                        if before[x].jobs().len() == 0 || before[x].spec_empty() {
                            assert(out@ == out_before);
                        } else {
                            let i = out_before.len() as int;
                            assert(out@[i].0 == before[x].spec_id());
                        }
                    }
                }
            }
            k += 1;
        }
        core::mem::swap(&mut done, &mut self.joader_table);
        proof {
            assert forall|a: int, b: int| 0 <= a < b < self.joaders().len() implies (
            #[trigger] self.joaders()[a]).spec_id() != (#[trigger] self.joaders()[b]).spec_id() by {
                assert(old(self).joaders()[a].spec_id() != old(self).joaders()[b].spec_id());
            }
            assert forall|i: int| 0 <= i < out@.len() implies old(self).has((#[trigger] out@[i]).0)
                && crate::joader::joader::batch_wf(out@[i].1@) by {
                let x = choose|x: int| 0 <= x < k && before[x].spec_id() == out@[i].0;
                assert(old(self).joaders()[x].spec_id() == out@[i].0);
            }
        }
        out
    }
}

} // verus!
