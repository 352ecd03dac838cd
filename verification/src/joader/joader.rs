//! The scheduler of one dataset: the sampler of its jobs, the jobs, and for
//! each index the number of jobs that have yet to see it.
use crate::job::job::Job;
use crate::proto::job::Condition;
use crate::sampler::sampler_node::{has_job, job_index, values_of, LevelView};
use crate::sampler::sampler_tree::{
    gets, list_gives, same_pairs, sampled, sampled_list, SamplerTree,
};
use crate::service::common::{expr_ok, numeric, text_bytes, CondError};
use std::collections::HashSet;
use vstd::prelude::*;

verus! {

/// The jobs of the tree that have yet to see the index `i`.
pub open spec fn holders(t: Seq<LevelView>, i: u32) -> Set<u64> {
    Set::new(|job: u64| has_job(t, job) && values_of(t, job).contains(i))
}

/// The jobs of the first `n` levels of a tree.
spec fn jobs_upto(t: Seq<LevelView>, n: int) -> Set<u64>
    decreases n,
{
    if n <= 0 {
        Set::empty()
    } else {
        jobs_upto(t, n - 1).insert(t[n - 1].job)
    }
}

/// The jobs of the first `n` levels are at most `n`, and each job of those
/// levels is one of them.
proof fn lemma_jobs_upto(t: Seq<LevelView>, n: int)
    requires
        0 <= n <= t.len(),
    ensures
        jobs_upto(t, n).finite(),
        jobs_upto(t, n).len() <= n,
        forall|d: int| 0 <= d < n ==> jobs_upto(t, n).contains(#[trigger] t[d].job),
    decreases n,
{
    if n > 0 {
        lemma_jobs_upto(t, n - 1);
    }
}

/// No more jobs have yet to see an index than the tree has jobs.
pub proof fn lemma_holders_bound(t: Seq<LevelView>, i: u32)
    ensures
        holders(t, i).finite(),
        holders(t, i).len() <= t.len(),
{
    lemma_jobs_upto(t, t.len() as int);
    let all = jobs_upto(t, t.len() as int);
    assert(holders(t, i).subset_of(all)) by {
        assert forall|job: u64| holders(t, i).contains(job) implies all.contains(job) by {
            let d = job_index(t, job);
            assert(t[d].job == job);
        }
    }
    vstd::set_lib::lemma_len_subset(holders(t, i), all);
}

/// Where only the job `id` has changed, no other job has come to, or
/// ceased to, hold an index.
pub proof fn lemma_holders_change(t: Seq<LevelView>, t2: Seq<LevelView>, id: u64, i: u32)
    requires
        forall|job: u64| job != id ==> #[trigger] has_job(t2, job) == has_job(t, job),
        forall|job: u64| job != id ==> #[trigger] values_of(t2, job) == values_of(t, job),
    ensures
        holders(t2, i) == if has_job(t2, id) && values_of(t2, id).contains(i) {
            holders(t, i).insert(id)
        } else {
            holders(t, i).remove(id)
        },
{
    let want = if has_job(t2, id) && values_of(t2, id).contains(i) {
        holders(t, i).insert(id)
    } else {
        holders(t, i).remove(id)
    };
    assert forall|job: u64| holders(t2, i).contains(job) == want.contains(job) by {
        if job != id {
            assert(has_job(t2, job) == has_job(t, job));
            assert(values_of(t2, job) == values_of(t, job));
        }
    }
    assert(holders(t2, i) =~= want);
}

/// The scheduler of one dataset.
#[derive(Debug)]
pub struct Joader {
    dataset_id: u32,
    keys: Vec<String>,
    sampler_tree: SamplerTree,
    job_table: Vec<Job>,
    ref_table: Vec<usize>,
    empty: bool,
}

impl Joader {
    /// The levels of the sampler tree.
    pub closed spec fn tree(&self) -> Seq<LevelView> {
        self.sampler_tree.tree()
    }

    /// The first key of each sample of the dataset.
    pub closed spec fn spec_keys(&self) -> Seq<String> {
        self.keys@
    }

    /// The number of samples of the dataset.
    pub open spec fn spec_len(&self) -> nat {
        self.spec_keys().len()
    }

    /// The jobs of the dataset.
    pub closed spec fn jobs(&self) -> Seq<Job> {
        self.job_table@
    }

    /// For each index, the number of jobs that have yet to see it.
    pub closed spec fn ref_counts(&self) -> Seq<usize> {
        self.ref_table@
    }

    /// Whether the last turn gave nothing.
    pub closed spec fn spec_empty(&self) -> bool {
        self.empty
    }

    /// The identifier of the dataset.
    pub closed spec fn spec_id(&self) -> u32 {
        self.dataset_id
    }

    /// Whether `id` is one of the jobs of the dataset.
    pub open spec fn knows(&self, id: u64) -> bool {
        exists|k: int| 0 <= k < self.jobs().len() && (#[trigger] self.jobs()[k]).spec_id() == id
    }

    /// The invariant of the type: the sampler is well formed; the values
    /// that jobs have yet to see are indices of the dataset; the count of
    /// each index is the number of jobs that have yet to see it; and no two
    /// jobs have the same identifier.
    pub closed spec fn wf(&self) -> bool {
        &&& self.sampler_tree.wf()
        &&& self.keys@.len() <= 0x1_0000_0000
        &&& self.ref_table@.len() == self.keys@.len()
        &&& forall|job: u64, v: u32| #[trigger]
            values_of(self.tree(), job).contains(v) ==> v < self.keys@.len()
        &&& forall|i: int|
            0 <= i < self.ref_table@.len() ==> (#[trigger] self.ref_table@[i]) == holders(
                self.tree(),
                i as u32,
            ).len()
        &&& forall|a: int, b: int|
            0 <= a < b < self.job_table@.len() ==> (#[trigger] self.job_table@[a]).spec_id() != (
            #[trigger] self.job_table@[b]).spec_id()
        &&& forall|job: u64| #[trigger] has_job(self.tree(), job) ==> self.knows(job)
    }

    /// What the invariant says of the counts and of the values.
    pub proof fn lemma_wf(&self)
        requires
            self.wf(),
        ensures
            self.ref_counts().len() == self.spec_len(),
            self.spec_len() <= 0x1_0000_0000,
            forall|i: int|
                0 <= i < self.spec_len() ==> (#[trigger] self.ref_counts()[i]) == holders(
                    self.tree(),
                    i as u32,
                ).len(),
            forall|job: u64, v: u32| #[trigger]
                values_of(self.tree(), job).contains(v) ==> v < self.spec_len(),
            forall|job: u64| #[trigger] has_job(self.tree(), job) ==> self.knows(job),
            forall|a: int, b: int|
                0 <= a < b < self.jobs().len() ==> (#[trigger] self.jobs()[a]).spec_id() != (
                #[trigger] self.jobs()[b]).spec_id(),
    {
    }

    /// Whether the key of a sample passes the filter: none, or a condition
    /// all of whose comparisons hold of the key.
    pub open spec fn passes(cond: Option<&Condition>, key: Seq<char>) -> bool {
        match cond {
            None => true,
            Some(c) => crate::service::common::all_hold(
                c.exprs@,
                c.exprs@.len() as int,
                numeric(text_bytes(key)).unwrap(),
            ),
        }
    }

    /// Whether the filter can be evaluated on the key of a sample.
    pub open spec fn evaluable(cond: Option<&Condition>, key: Seq<char>) -> bool {
        match cond {
            None => true,
            Some(c) => numeric(text_bytes(key)) is Some && forall|i: int|
                0 <= i < c.exprs@.len() ==> expr_ok(#[trigger] c.exprs@[i]),
        }
    }

    /// The indices of the samples whose keys pass the filter.
    pub open spec fn filtered(&self, cond: Option<&Condition>) -> Set<u32> {
        Set::new(|v: u32| v < self.spec_len() && Self::passes(cond, self.spec_keys()[v as int]@))
    }

    /// Subscribes `job` to the samples whose first keys pass the filter
    /// `cond`, and returns their number. Each of their indices counts one
    /// job more. A job of the same identifier that was subscribed before
    /// is taken out first. Where the filter cannot be evaluated on the key
    /// of some sample, the error is returned and nothing changes.
    pub fn add_job(&mut self, job: Job, cond: Option<&Condition>) -> (r: Result<usize, CondError>)
        requires
            old(self).wf(),
        ensures
            final(self).wf(),
            final(self).spec_id() == old(self).spec_id(),
            final(self).spec_keys() == old(self).spec_keys(),
            match r {
                Ok(n) => {
                    &&& forall|i: int|
                        0 <= i < old(self).spec_len() ==> Self::evaluable(
                            cond,
                            (#[trigger] old(self).spec_keys()[i])@,
                        )
                    &&& n == old(self).filtered(cond).len()
                    &&& old(self).filtered(cond).finite()
                    &&& values_of(final(self).tree(), job.spec_id()) == old(self).filtered(cond)
                    &&& has_job(final(self).tree(), job.spec_id()) == (n > 0)
                    &&& final(self).knows(job.spec_id())
                    &&& !final(self).spec_empty()
                    &&& forall|other: u64|
                        other != job.spec_id() ==> #[trigger] final(self).knows(other) == old(self).knows(other)
                    &&& forall|other: u64|
                        other != job.spec_id() ==> #[trigger] has_job(final(self).tree(), other)
                            == has_job(old(self).tree(), other)
                    &&& forall|other: u64|
                        other != job.spec_id() ==> #[trigger] values_of(final(self).tree(), other)
                            == values_of(old(self).tree(), other)
                },
                Err(_) => {
                    &&& *final(self) == *old(self)
                    &&& exists|i: int|
                        0 <= i < old(self).spec_len() && !Self::evaluable(
                            cond,
                            (#[trigger] old(self).spec_keys()[i])@,
                        )
                },
            },
    {
        let ghost want = self.filtered(cond);
        let mut indices: Vec<u32> = Vec::new();
        let mut i: usize = 0;
        while i < self.keys.len()
            invariant
                *self == *old(self),
                self.wf(),
                want == self.filtered(cond),
                0 <= i <= self.keys@.len(),
                forall|k: int| 0 <= k < i ==> Self::evaluable(cond, (#[trigger] self.keys@[k])@),
                forall|a: int, b: int| 0 <= a < b < indices@.len() ==> indices@[a] < indices@[b],
                forall|a: int| 0 <= a < indices@.len() ==> indices@[a] < i,
                forall|v: u32| indices@.contains(v) == (want.contains(v) && v < i),
            decreases self.keys@.len() - i,
        {
            let keep = match cond {
                None => true,
                Some(c) => match c.eval(self.keys[i].as_str()) {
                    Ok(b) => b,
                    Err(e) => {
                        return Err(e);
                    },
                },
            };
            let ghost before = indices@;
            if keep {
                indices.push(i as u32);
            }
            proof {
                assert(keep == Self::passes(cond, self.keys@[i as int]@));
                assert forall|v: u32| indices@.contains(v) == (want.contains(v) && v < i + 1) by {
                    if indices@.contains(v) {
                        let x = choose|x: int| 0 <= x < indices@.len() && indices@[x] == v;
                        if x < before.len() {
                            assert(before[x] == v);
                            assert(before.contains(v));
                        }
                    }
                    if before.contains(v) {
                        let x = choose|x: int| 0 <= x < before.len() && before[x] == v;
                        assert(indices@[x] == v);
                    }
                    if want.contains(v) && v == i {
                        assert(indices@[before.len() as int] == v);
                    }
                }
            }
            i += 1;
        }
        proof {
            assert(indices@.to_set() =~= want);
            assert(indices@.no_duplicates());
            indices@.unique_seq_to_set();
        }
        let id = job.get_id();
        self.del_job(id);
        let ghost t1 = self.tree();
        let ghost refs1 = self.ref_table@;
        let ghost s1 = *self;
        let size = indices.len();
        let listed = indices.clone();
        self.sampler_tree.insert(indices, id);
        let ghost t2 = self.tree();
        proof {
            self.sampler_tree.lemma_tree_len();
        }
        let mut k: usize = 0;
        while k < listed.len()
            invariant
                0 <= k <= listed@.len(),
                self.sampler_tree.wf(),
                t2 == self.tree(),
                t2.len() <= usize::MAX,
                self.keys@ == old(self).keys@,
                self.dataset_id == old(self).dataset_id,
                self.job_table == s1.job_table,
                s1.wf(),
                !s1.knows(id),
                forall|other: u64|
                    other != id ==> #[trigger] s1.knows(other) == old(self).knows(other),
                forall|other: u64| #[trigger] has_job(t1, other) ==> s1.knows(other),
                self.keys@.len() <= 0x1_0000_0000,
                self.ref_table@.len() == self.keys@.len(),
                refs1.len() == self.keys@.len(),
                !has_job(t1, id),
                forall|other: u64| other != id ==> #[trigger] has_job(t2, other) == has_job(t1, other),
                forall|other: u64|
                    other != id ==> #[trigger] values_of(t2, other) == values_of(t1, other),
                values_of(t2, id) == want,
                has_job(t2, id) == (listed@.len() > 0),
                forall|v: u32| listed@.contains(v) == want.contains(v),
                forall|a: int, b: int| 0 <= a < b < listed@.len() ==> listed@[a] < listed@[b],
                forall|v: u32| want.contains(v) ==> v < self.keys@.len(),
                forall|x: int|
                    0 <= x < refs1.len() ==> (#[trigger] refs1[x]) == holders(t1, x as u32).len(),
                forall|x: int|
                    0 <= x < refs1.len() ==> (#[trigger] self.ref_table@[x]) == (if listed@.take(
                        k as int,
                    ).contains(x as u32) {
                        refs1[x] + 1
                    } else {
                        refs1[x] as int
                    }),
            decreases listed@.len() - k,
        {
            let v = listed[k];
            proof {
                assert(listed@.contains(v));
                assert(want.contains(v));
                lemma_holders_change(t1, t2, id, v);
                lemma_holders_bound(t2, v);
                lemma_holders_bound(t1, v);
                assert(!holders(t1, v).contains(id));
                assert(!listed@.take(k as int).contains(v)) by {
                    if listed@.take(k as int).contains(v) {
                        let x = choose|x: int|
                            0 <= x < listed@.take(k as int).len() && listed@.take(k as int)[x] == v;
                        assert(listed@[x] < listed@[k as int]);
                    }
                }
            }
            let cur = self.ref_table[v as usize];
            self.ref_table.set(v as usize, cur + 1);
            proof {
                let a = listed@.take(k as int);
                let b = listed@.take(k + 1);
                assert(b =~= a.push(v));
                assert forall|w: u32| b.contains(w) == (a.contains(w) || w == v) by {
                    if b.contains(w) {
                        let x = choose|x: int| 0 <= x < b.len() && b[x] == w;
                        if x < a.len() {
                            assert(a[x] == w);
                        }
                    }
                    if a.contains(w) {
                        let x = choose|x: int| 0 <= x < a.len() && a[x] == w;
                        assert(b[x] == w);
                    }
                    if w == v {
                        assert(b[k as int] == w);
                    }
                }
            }
            k += 1;
        }
        let ghost table1 = self.job_table@;
        self.job_table.push(job);
        self.empty = false;
        proof {
            assert(listed@.take(k as int) =~= listed@);
            assert forall|x: int| 0 <= x < self.ref_table@.len() implies (
            #[trigger] self.ref_table@[x]) == holders(t2, x as u32).len() by {
                lemma_holders_change(t1, t2, id, x as u32);
                lemma_holders_bound(t1, x as u32);
                assert(refs1[x] == holders(t1, x as u32).len());
                assert(!holders(t1, x as u32).contains(id));
                if listed@.contains(x as u32) {
                    assert(want.contains(x as u32));
                } else {
                    assert(!want.contains(x as u32));
                    assert(holders(t1, x as u32).remove(id) =~= holders(t1, x as u32));
                }
            }
            assert forall|other: u64, v: u32| #[trigger]
                values_of(t2, other).contains(v) implies v < self.keys@.len() by {
                if other != id {
                    assert(values_of(t2, other) == values_of(t1, other));
                    assert(values_of(t1, other).contains(v));
                }
            }
            let table2 = self.job_table@;
            assert forall|a: int, b: int| 0 <= a < b < table2.len() implies (
            #[trigger] table2[a]).spec_id() != (#[trigger] table2[b]).spec_id() by {
                assert(table2[a] == table1[a]);
                if b < table1.len() {
                    assert(table2[b] == table1[b]);
                    assert(table1[a].spec_id() != table1[b].spec_id());
                } else {
                    assert(table1[a].spec_id() != id) by {
                        if table1[a].spec_id() == id {
                            assert(s1.jobs()[a].spec_id() == id);
                        }
                    }
                }
            }
            assert(table1 == s1.jobs());
            assert(table2 == self.jobs());
            assert(table2[table1.len() as int].spec_id() == id);
            assert(self.jobs()[table1.len() as int].spec_id() == id);
            assert(self.knows(id));
            assert forall|other: u64| other != id implies #[trigger] self.knows(other) == old(self).knows(other) by {
                if self.knows(other) {
                    let x = choose|x: int|
                        0 <= x < table2.len() && (#[trigger] table2[x]).spec_id() == other;
                    assert(table1[x].spec_id() == other);
                    assert(s1.jobs()[x].spec_id() == other);
                    assert(s1.knows(other));
                }
                if old(self).knows(other) {
                    assert(s1.knows(other));
                    let x = choose|x: int|
                        0 <= x < table1.len() && (#[trigger] table1[x]).spec_id() == other;
                    assert(table2[x] == table1[x]);
                    assert(self.jobs()[x].spec_id() == other);
                }
            }
            assert forall|other: u64| #[trigger] has_job(t2, other) implies self.knows(other) by {
                if other != id {
                    assert(has_job(t1, other));
                    assert(s1.knows(other));
                    assert(self.knows(other) == old(self).knows(other));
                }
            }
        }
        Ok(size)
    }

    /// The scheduler of the dataset `dataset_id`, whose samples have the
    /// first keys `keys`. No job is subscribed.
    pub fn new(dataset_id: u32, keys: Vec<String>) -> (r: Joader)
        requires
            keys@.len() <= 0x1_0000_0000,
        ensures
            r.wf(),
            r.spec_id() == dataset_id,
            r.spec_keys() == keys@,
            r.jobs().len() == 0,
            r.tree().len() == 0,
    {
        let mut ref_table: Vec<usize> = Vec::new();
        let mut i: usize = 0;
        let sampler_tree = SamplerTree::new();
        while i < keys.len()
            invariant
                0 <= i <= keys@.len(),
                ref_table@.len() == i,
                sampler_tree.tree().len() == 0,
                forall|k: int| 0 <= k < i ==> (#[trigger] ref_table@[k]) == 0,
            decreases keys@.len() - i,
        {
            ref_table.push(0);
            i += 1;
        }
        let r = Joader {
            dataset_id,
            keys,
            sampler_tree,
            job_table: Vec::new(),
            ref_table,
            empty: false,
        };
        proof {
            assert forall|job: u64| !has_job(r.tree(), job) by {}
            assert forall|k: int| 0 <= k < r.ref_table@.len() implies (#[trigger] r.ref_table@[k])
                == holders(r.tree(), k as u32).len() by {
                assert(holders(r.tree(), k as u32) =~= Set::<u64>::empty());
            }
        }
        r
    }

    /// The identifier of the dataset.
    pub fn get_id(&self) -> (r: u32)
        ensures
            r == self.spec_id(),
    {
        self.dataset_id
    }

    /// The number of samples of the dataset.
    pub fn len(&self) -> (r: usize)
        ensures
            r == self.spec_len(),
    {
        self.keys.len()
    }

    /// Whether there is nothing to schedule: no job, or nothing given by
    /// the last turn.
    pub fn is_empty(&self) -> (r: bool)
        ensures
            r == (self.jobs().len() == 0 || self.spec_empty()),
    {
        self.job_table.len() == 0 || self.empty
    }

    /// Whether `id` is one of the jobs of the dataset.
    pub fn contains(&self, id: u64) -> (r: bool)
        ensures
            r == self.knows(id),
    {
        self.find(id).is_some()
    }

    /// The place of the job `id` in the table.
    fn find(&self, id: u64) -> (r: Option<usize>)
        ensures
            match r {
                Some(k) => k < self.jobs().len() && self.jobs()[k as int].spec_id() == id,
                None => !self.knows(id),
            },
    {
        let mut k: usize = 0;
        while k < self.job_table.len()
            invariant
                0 <= k <= self.job_table@.len(),
                forall|x: int| 0 <= x < k ==> (#[trigger] self.job_table@[x]).spec_id() != id,
            decreases self.job_table@.len() - k,
        {
            if self.job_table[k].get_id() == id {
                return Some(k);
            }
            k += 1;
        }
        None
    }

    /// Takes the job `id` out: out of the sampler and out of the table. The
    /// indices that it had yet to see count one job less.
    pub fn del_job(&mut self, id: u64)
        requires
            old(self).wf(),
        ensures
            final(self).wf(),
            final(self).spec_id() == old(self).spec_id(),
            final(self).spec_keys() == old(self).spec_keys(),
            final(self).spec_empty() == old(self).spec_empty(),
            !final(self).knows(id),
            !has_job(final(self).tree(), id),
            forall|job: u64| job != id ==> #[trigger] final(self).knows(job) == old(self).knows(job),
            forall|job: u64|
                job != id ==> #[trigger] has_job(final(self).tree(), job) == has_job(
                    old(self).tree(),
                    job,
                ),
            forall|job: u64|
                job != id ==> #[trigger] values_of(final(self).tree(), job) == values_of(
                    old(self).tree(),
                    job,
                ),
    {
        let ghost t0 = self.tree();
        let ghost refs0 = self.ref_table@;
        let values = self.sampler_tree.get_job_values(id);
        self.sampler_tree.delete(id);
        let ghost t1 = self.tree();
        let mut k: usize = 0;
        while k < values.len()
            invariant
                0 <= k <= values@.len(),
                t1 == self.tree(),
                self.sampler_tree.wf(),
                self.keys == old(self).keys,
                self.job_table == old(self).job_table,
                self.dataset_id == old(self).dataset_id,
                self.empty == old(self).empty,
                old(self).wf(),
                t0 == old(self).tree(),
                refs0 == old(self).ref_table@,
                self.ref_table@.len() == refs0.len(),
                values@.no_duplicates(),
                forall|v: u32| values@.contains(v) == values_of(t0, id).contains(v),
                forall|i: int|
                    0 <= i < refs0.len() ==> (#[trigger] self.ref_table@[i]) == (if values@.take(
                        k as int,
                    ).contains(i as u32) {
                        refs0[i] - 1
                    } else {
                        refs0[i] as int
                    }),
            decreases values@.len() - k,
        {
            let v = values[k];
            proof {
                assert(values@.contains(v));
                assert(values_of(t0, id).contains(v));
                assert(has_job(t0, id));
                assert(holders(t0, v).contains(id));
                lemma_holders_bound(t0, v);
                assert(refs0[v as int] == holders(t0, v).len());
                assert(!values@.take(k as int).contains(v)) by {
                    if values@.take(k as int).contains(v) {
                        let x = choose|x: int|
                            0 <= x < values@.take(k as int).len() && values@.take(k as int)[x] == v;
                        assert(values@[x] == values@[k as int]);
                    }
                }
                if holders(t0, v).len() == 0 {
                    holders(t0, v).lemma_len0_is_empty();
                }
            }
            let cur = self.ref_table[v as usize];
            self.ref_table.set(v as usize, cur - 1);
            proof {
                let a = values@.take(k as int);
                let b = values@.take(k + 1);
                assert(b =~= a.push(v));
                assert forall|w: u32| b.contains(w) == (a.contains(w) || w == v) by {
                    if b.contains(w) {
                        let x = choose|x: int| 0 <= x < b.len() && b[x] == w;
                        if x < a.len() {
                            assert(a[x] == w);
                        }
                    }
                    if a.contains(w) {
                        let x = choose|x: int| 0 <= x < a.len() && a[x] == w;
                        assert(b[x] == w);
                    }
                    if w == v {
                        assert(b[k as int] == w);
                    }
                }
            }
            k += 1;
        }
        proof {
            assert(values@.take(k as int) =~= values@);
            assert forall|i: int| 0 <= i < self.ref_table@.len() implies (
            #[trigger] self.ref_table@[i]) == holders(t1, i as u32).len() by {
                lemma_holders_change(t0, t1, id, i as u32);
                lemma_holders_bound(t0, i as u32);
                assert(refs0[i] == holders(t0, i as u32).len());
                assert(holders(t0, i as u32).contains(id) == values@.contains(i as u32));
            }
            assert forall|job: u64, v: u32| #[trigger]
                values_of(t1, job).contains(v) implies v < self.keys@.len() by {
                if job != id {
                    assert(values_of(t1, job) == values_of(t0, job));
                    assert(values_of(t0, job).contains(v));
                }
            }
        }
        match self.find(id) {
            Some(at) => {
                let ghost before = self.job_table@;
                self.job_table.remove(at);
                proof {
                    let after = self.job_table@;
                    assert forall|a: int, b: int| 0 <= a < b < after.len() implies (
                    #[trigger] after[a]).spec_id() != (#[trigger] after[b]).spec_id() by {
                        let a2 = if a < at { a } else { a + 1 };
                        let b2 = if b < at { b } else { b + 1 };
                        assert(after[a] == before[a2] && after[b] == before[b2]);
                        assert(before[a2].spec_id() != before[b2].spec_id());
                    }
                    assert forall|job: u64| job != id implies #[trigger] self.knows(job) == old(self).knows(job) by {
                        if self.knows(job) {
                            assert(after == self.jobs());
                            let x = choose|x: int|
                                0 <= x < after.len() && (#[trigger] after[x]).spec_id() == job;
                            let x2 = if x < at { x } else { x + 1 };
                            assert(after[x] == before[x2]);
                            assert(before[x2].spec_id() == job);
                            assert(old(self).jobs()[x2].spec_id() == job);
                        }
                        if old(self).knows(job) {
                            assert(before == old(self).jobs());
                            let x = choose|x: int|
                                0 <= x < before.len() && (#[trigger] before[x]).spec_id() == job;
                            assert(x != at);
                            let x2 = if x < at { x } else { x - 1 };
                            assert(after[x2] == before[x]);
                            assert(after[x2].spec_id() == job);
                            assert(self.jobs()[x2].spec_id() == job);
                        }
                    }
                    if self.knows(id) {
                        let x = choose|x: int|
                            0 <= x < after.len() && (#[trigger] after[x]).spec_id() == id;
                        let x2 = if x < at { x } else { x + 1 };
                        assert(before[x2].spec_id() == id);
                        if x2 < at {
                            assert(before[x2].spec_id() != before[at as int].spec_id());
                        } else {
                            assert(before[at as int].spec_id() != before[x2].spec_id());
                        }
                    }
                }
            },
            None => {
                proof {
                    assert(self.jobs() == old(self).jobs());
                    assert forall|job: u64| job != id implies #[trigger] self.knows(job) == old(self).knows(job) by {}
                }
            },
        }
    }

    /// The jobs that cannot be promised a payload now: their queues have no
    /// place left that is not taken by a payload under way.
    pub open spec fn masked(&self) -> Set<u64> {
        Set::new(
            |id: u64|
                exists|k: int|
                    0 <= k < self.jobs().len() && (#[trigger] self.jobs()[k]).spec_id() == id
                        && self.jobs()[k].room() == 0,
        )
    }

    /// The jobs that cannot be promised a payload now.
    fn build_mask(&self) -> (mask: HashSet<u64>)
        ensures
            mask@ == self.masked(),
    {
        broadcast use vstd::std_specs::hash::group_hash_axioms;

        let mut mask: HashSet<u64> = HashSet::new();
        let mut k: usize = 0;
        while k < self.job_table.len()
            invariant
                0 <= k <= self.job_table@.len(),
                forall|id: u64|
                    mask@.contains(id) == (exists|x: int|
                        0 <= x < k && (#[trigger] self.job_table@[x]).spec_id() == id
                            && self.job_table@[x].room() == 0),
            decreases self.job_table@.len() - k,
        {
            let ghost before = mask@;
            if !self.job_table[k].can_push() {
                mask.insert(self.job_table[k].get_id());
            }
            proof {
                assert forall|id: u64|
                    mask@.contains(id) == (exists|x: int|
                        0 <= x < k + 1 && (#[trigger] self.job_table@[x]).spec_id() == id
                            && self.job_table@[x].room() == 0) by {
                    if before.contains(id) {
                        let x = choose|x: int|
                            0 <= x < k && (#[trigger] self.job_table@[x]).spec_id() == id
                                && self.job_table@[x].room() == 0;
                        assert(0 <= x < k + 1);
                    }
                    if exists|x: int|
                        0 <= x < k + 1 && (#[trigger] self.job_table@[x]).spec_id() == id
                            && self.job_table@[x].room() == 0 {
                        let x = choose|x: int|
                            0 <= x < k + 1 && (#[trigger] self.job_table@[x]).spec_id() == id
                                && self.job_table@[x].room() == 0;
                        if x < k {
                            assert(before.contains(id));
                        }
                    }
                }
            }
            k += 1;
        }
        proof {
            assert(mask@ =~= self.masked());
        }
        mask
    }

    /// What a turn does to a job: it stays as it is, but that it has one
    /// more payload under way where the turn gives it a value, which is only
    /// where it could be promised one.
    pub open spec fn job_after_turn(now: Job, before: Job, list: Seq<(u32, Vec<u64>)>) -> bool {
        &&& now.spec_id() == before.spec_id()
        &&& now.spec_capacity() == before.spec_capacity()
        &&& Self::given_any(list, before.spec_id()) ==> now.spec_pending() == before.spec_pending()
            + 1 && before.room() > 0
        &&& !Self::given_any(list, before.spec_id()) ==> now.spec_pending()
            == before.spec_pending()
    }

    /// Whether a list of values, each with the jobs that are given it,
    /// gives something to `job`.
    pub open spec fn given_any(list: Seq<(u32, Vec<u64>)>, job: u64) -> bool {
        exists|x: int| 0 <= x < list.len() && (#[trigger] list[x]).1@.contains(job)
    }

    /// One turn of the sampler, in which the jobs that cannot be promised a
    /// payload are skipped. Returns the values drawn, each with the jobs
    /// that are given it. Each value counts as many jobs less as are given
    /// it, and each job that is given a value has one more payload under
    /// way.
    pub fn next(&mut self) -> (list: Vec<(u32, Vec<u64>)>)
        requires
            old(self).wf(),
        ensures
            final(self).wf(),
            final(self).spec_id() == old(self).spec_id(),
            final(self).spec_keys() == old(self).spec_keys(),
            sampled_list(old(self).tree(), old(self).masked(), final(self).tree(), list@),
            final(self).spec_empty() == (list@.len() == 0),
            final(self).jobs().len() == old(self).jobs().len(),
            forall|k: int|
                0 <= k < old(self).jobs().len() ==> Self::job_after_turn(
                    #[trigger] final(self).jobs()[k],
                    old(self).jobs()[k],
                    list@,
                ),
    {
        let ghost t0 = self.tree();
        let ghost refs0 = self.ref_table@;
        let ghost jobs0 = self.job_table@;
        let mask = self.build_mask();
        let (res, list) = self.sampler_tree.turn(&mask);
        let ghost t1 = self.tree();
        self.empty = list.len() == 0;
        proof {
            assert(sampled_list(t0, mask@, t1, list@));
            assert(given_upto(list@, 0, 0) =~= Set::<u64>::empty());
            assert forall|i: int| 0 <= i < refs0.len() implies (#[trigger] given_upto(
                list@,
                0,
                i as u32,
            )).len() == 0 && given_upto(list@, 0, i as u32).finite() by {
                assert(given_upto(list@, 0, i as u32) =~= Set::<u64>::empty());
            }
        }
        // Each value counts as many jobs less as are given it.
        let mut k: usize = 0;
        while k < list.len()
            invariant
                0 <= k <= list@.len(),
                old(self).wf(),
                t0 == old(self).tree(),
                refs0 == old(self).ref_table@,
                jobs0 == old(self).job_table@,
                self.sampler_tree.wf(),
                t1 == self.tree(),
                self.keys@ == old(self).keys@,
                self.dataset_id == old(self).dataset_id,
                self.job_table == old(self).job_table,
                self.empty == (list@.len() == 0),
                self.ref_table@.len() == refs0.len(),
                sampled(t0, mask@, t1, res@),
                same_pairs(list@, res@),
                forall|i: int|
                    0 <= i < list@.len() ==> (#[trigger] list@[i]).1@.len() > 0
                        && list@[i].1@.no_duplicates(),
                forall|a: int, b: int, job: u64|
                    0 <= a < b < list@.len() ==> !(#[trigger] list@[a].1@.contains(job)
                        && #[trigger] list@[b].1@.contains(job)),
                forall|i: int|
                    0 <= i < refs0.len() ==> (#[trigger] given_upto(list@, k as int, i as u32)).finite()
                        && self.ref_table@[i] == refs0[i] - given_upto(
                        list@,
                        k as int,
                        i as u32,
                    ).len(),
            decreases list@.len() - k,
        {
            let item = list[k].0;
            let n = list[k].1.len();
            proof {
                let job = list@[k as int].1@[0];
                assert(list@[k as int].1@.contains(job));
                assert(list_gives(list@, job, item));
                assert(gets(res@, job, item));
                assert(values_of(t0, job).contains(item));
                assert(item < refs0.len());
                lemma_holders_after_turn(t0, mask@, t1, res@, list@, item);
                lemma_holders_bound(t0, item);
                assert(given_upto(list@, k as int, item as int as u32).finite());
                lemma_given_step(list@, k as int, item);
                assert(given_upto(list@, k + 1, item).subset_of(holders(t0, item)));
                vstd::set_lib::lemma_len_subset(given_upto(list@, k + 1, item), holders(t0, item));
                assert(refs0[item as int] == holders(t0, item).len());
            }
            let cur = self.ref_table[item as usize];
            self.ref_table.set(item as usize, cur - n);
            proof {
                assert forall|i: int| 0 <= i < refs0.len() implies (#[trigger] given_upto(
                    list@,
                    k + 1,
                    i as u32,
                )).finite() && self.ref_table@[i] == refs0[i] - given_upto(
                    list@,
                    k + 1,
                    i as u32,
                ).len() by {
                    assert(given_upto(list@, k as int, i as u32).finite());
                    lemma_given_step(list@, k as int, i as u32);
                }
            }
            k += 1;
        }
        proof {
            assert forall|i: int| 0 <= i < self.ref_table@.len() implies (
            #[trigger] self.ref_table@[i]) == holders(t1, i as u32).len() by {
                lemma_holders_after_turn(t0, mask@, t1, res@, list@, i as u32);
                lemma_holders_bound(t0, i as u32);
                let g = given_upto(list@, list@.len() as int, i as u32);
                assert(g.finite());
                assert(refs0[i] == holders(t0, i as u32).len());
                vstd::set_lib::lemma_set_difference_len(holders(t0, i as u32), g);
                assert(holders(t0, i as u32).intersect(g) =~= g);
            }
            assert forall|job: u64, v: u32| #[trigger]
                values_of(t1, job).contains(v) implies v < self.keys@.len() by {
                if crate::sampler::sampler_tree::gets_any(res@, job) {
                    let it = choose|it: u32| gets(res@, job, it);
                    assert(values_of(t1, job) == values_of(t0, job).remove(it));
                } else {
                    assert(values_of(t1, job) == values_of(t0, job));
                }
                assert(values_of(t0, job).contains(v));
            }
            assert forall|job: u64| #[trigger] has_job(t1, job) implies self.knows(job) by {
                assert(has_job(t0, job));
                assert(old(self).knows(job));
                assert(self.jobs() == old(self).jobs());
            }
            assert(self.wf());
        }
        // Each job that is given a value has one more payload under way.
        let mut k: usize = 0;
        while k < self.job_table.len()
            invariant
                0 <= k <= jobs0.len(),
                self.wf(),
                t1 == self.tree(),
                jobs0 == old(self).job_table@,
                self.keys@ == old(self).keys@,
                self.dataset_id == old(self).dataset_id,
                self.empty == (list@.len() == 0),
                self.job_table@.len() == jobs0.len(),
                mask@ == old(self).masked(),
                sampled(t0, mask@, t1, res@),
                same_pairs(list@, res@),
                old(self).wf(),
                forall|x: int| k <= x < jobs0.len() ==> (#[trigger] self.job_table@[x]) == jobs0[x],
                forall|x: int|
                    0 <= x < jobs0.len() ==> (#[trigger] self.job_table@[x]).spec_id()
                        == jobs0[x].spec_id() && self.job_table@[x].spec_capacity()
                        == jobs0[x].spec_capacity(),
                forall|x: int|
                    0 <= x < k ==> Self::job_after_turn(
                        #[trigger] self.job_table@[x],
                        jobs0[x],
                        list@,
                    ),
            decreases jobs0.len() - k,
        {
            let id = self.job_table[k].get_id();
            let given = Self::is_given(&list, id);
            let ghost table0 = self.job_table@;
            assert(table0[k as int] == jobs0[k as int]);
            if given {
                proof {
                    let x = choose|x: int|
                        0 <= x < list@.len() && (#[trigger] list@[x]).1@.contains(id);
                    assert(list_gives(list@, id, list@[x].0));
                    assert(gets(res@, id, list@[x].0));
                    assert(!mask@.contains(id));
                    assert(jobs0[k as int].spec_id() == id);
                    assert(old(self).jobs()[k as int].spec_id() == id);
                    if jobs0[k as int].room() == 0 {
                        assert(old(self).masked().contains(id));
                    }
                }
                let ghost table = self.job_table@;
                let mut job = self.job_table.remove(k);
                job.add_pending();
                self.job_table.insert(k, job);
                proof {
                    let now = self.job_table@;
                    assert forall|x: int| 0 <= x < jobs0.len() && x != k implies now[x]
                        == table[x] by {}
                    assert forall|a: int, b: int| 0 <= a < b < now.len() implies (
                    #[trigger] now[a]).spec_id() != (#[trigger] now[b]).spec_id() by {
                        assert(now[a].spec_id() == jobs0[a].spec_id());
                        assert(now[b].spec_id() == jobs0[b].spec_id());
                        assert(old(self).job_table@[a].spec_id() != old(self).job_table@[b].spec_id());
                    }
                    assert forall|other: u64| #[trigger] has_job(t1, other) implies self.knows(
                        other,
                    ) by {
                        let x = choose|x: int|
                            0 <= x < table.len() && (#[trigger] table[x]).spec_id() == other;
                        assert(now[x].spec_id() == other);
                        assert(self.jobs()[x].spec_id() == other);
                    }
                }
            }
            proof {
                let now = self.job_table@;
                assert forall|x: int| 0 <= x < k + 1 implies Self::job_after_turn(
                    #[trigger] now[x],
                    jobs0[x],
                    list@,
                ) by {
                    if x < k {
                        assert(now[x] == table0[x]);
                    } else {
                        assert(jobs0[x].spec_id() == id);
                        if given {
                            assert(now[x].spec_pending() == table0[x].spec_pending() + 1);
                        } else {
                            assert(now[x] == table0[x]);
                        }
                    }
                }
                assert forall|x: int| k + 1 <= x < jobs0.len() implies (#[trigger] now[x])
                    == jobs0[x] by {
                    assert(now[x] == table0[x]);
                }
            }
            k += 1;
        }
        list
    }

    /// Turns of the sampler until the batch has `batch_size` reads, a turn
    /// gives nothing, or `batch_size` turns are made. Returns the reads:
    /// each index that was drawn, once, with the jobs that are given it and
    /// with the number of jobs that have yet to see it afterwards.
    ///
    /// What a job is given are values that it had yet to see, and no longer
    /// has. A job has as many more payloads under way as reads are given to
    /// it, and never more than its queue has places left. Each turn gives
    /// one read to every job that can be promised a payload and has
    /// something yet to see; so a job is given as many reads as there were
    /// turns, or as its queue had places, or as it had values.
    pub fn next_batch(&mut self, batch_size: usize) -> (batch: Vec<BatchItem>)
        requires
            old(self).wf(),
        ensures
            final(self).wf(),
            Self::batched(*old(self), *final(self), batch@),
            Self::batch_ends(*old(self), *final(self), batch@, batch_size),
    {
        let ghost t0 = self.tree();
        let ghost jobs0 = self.job_table@;
        let mut batch: Vec<BatchItem> = Vec::new();
        let mut turns: usize = 0;
        let ghost mut idle = false;
        proof {
            assert forall|x: int| 0 <= x < jobs0.len() implies values_of(
                t0,
                (#[trigger] jobs0[x]).spec_id(),
            ).finite() by {
                self.sampler_tree.lemma_values_finite(jobs0[x].spec_id());
            }
            assert forall|job: u64, v: u32| !batch_gives(batch@, job, v) by {}
            assert forall|k: int| 0 <= k < jobs0.len() implies Self::job_after_batch(
                #[trigger] self.job_table@[k],
                jobs0[k],
                batch@,
            ) by {}
        }
        while batch.len() < batch_size && turns < batch_size
            invariant
                self.wf(),
                old(self).wf(),
                t0 == old(self).tree(),
                jobs0 == old(self).job_table@,
                self.dataset_id == old(self).dataset_id,
                self.keys@ == old(self).keys@,
                0 <= turns <= batch_size,
                batch_wf(batch@),
                forall|job: u64, v: u32|
                    #[trigger] values_of(self.tree(), job).contains(v) == (values_of(
                        t0,
                        job,
                    ).contains(v) && !batch_gives(batch@, job, v)),
                forall|job: u64, v: u32| #[trigger]
                    batch_gives(batch@, job, v) ==> values_of(t0, job).contains(v),
                self.job_table@.len() == jobs0.len(),
                forall|k: int|
                    0 <= k < jobs0.len() ==> Self::job_after_batch(
                        #[trigger] self.job_table@[k],
                        jobs0[k],
                        batch@,
                    ),
                forall|x: int|
                    0 <= x < jobs0.len() ==> values_of(t0, (#[trigger] jobs0[x]).spec_id()).finite(),
                forall|x: int|
                    0 <= x < jobs0.len() ==> times_given(
                        batch@,
                        batch@.len() as int,
                        (#[trigger] jobs0[x]).spec_id(),
                    ) == Self::least(
                        turns as int,
                        jobs0[x].room(),
                        values_of(t0, jobs0[x].spec_id()).len() as int,
                    ),
                idle ==> self.stalled(),
            ensures
                idle || turns >= batch_size || batch@.len() >= batch_size,
            decreases batch_size - turns,
        {
            let ghost t1 = self.tree();
            let ghost jobs1 = self.job_table@;
            let ghost batch1 = batch@;
            let ghost masked1 = self.masked();
            proof {
                self.lemma_wf();
                assert forall|x: int| 0 <= x < jobs1.len() implies masked1.contains(
                    (#[trigger] jobs1[x]).spec_id(),
                ) == (jobs1[x].room() == 0) by {
                    if masked1.contains(jobs1[x].spec_id()) {
                        let y = choose|y: int|
                            0 <= y < self.jobs().len() && (#[trigger] self.jobs()[y]).spec_id()
                                == jobs1[x].spec_id() && self.jobs()[y].room() == 0;
                        assert(y == x);
                    } else {
                        assert(self.jobs()[x] == jobs1[x]);
                    }
                }
            }
            let list = self.next();
            let ghost t2 = self.tree();
            if list.len() == 0 {
                proof {
                    lemma_turn_idle(t1, masked1, t2, list@);
                    assert forall|job: u64| masked1.contains(job) implies self.masked().contains(
                        job,
                    ) by {
                        let y = choose|y: int|
                            0 <= y < jobs1.len() && (#[trigger] jobs1[y]).spec_id() == job
                                && jobs1[y].room() == 0;
                        assert(Self::job_after_turn(self.jobs()[y], jobs1[y], list@));
                        assert(self.jobs()[y].room() == 0);
                    }
                    idle = true;
                    lemma_turn_values(t1, masked1, t2, list@);
                    assert forall|k: int| 0 <= k < jobs0.len() implies Self::job_after_batch(
                        #[trigger] self.job_table@[k],
                        jobs0[k],
                        batch@,
                    ) by {
                        assert(Self::job_after_turn(self.jobs()[k], jobs1[k], list@));
                        assert(Self::job_after_batch(jobs1[k], jobs0[k], batch1));
                    }
                }
                break ;
            }
            proof {
                lemma_turn_values(t1, masked1, t2, list@);
            }
            let mut k: usize = 0;
            while k < list.len()
                invariant
                    0 <= k <= list@.len(),
                    batch_wf(batch@),
                    sampled_list(t1, masked1, t2, list@),
                    forall|job: u64, v: u32| #[trigger]
                        list_gives(list@, job, v) ==> values_of(t1, job).contains(v),
                    forall|job: u64, v: u32|
                        #[trigger] values_of(t1, job).contains(v) == (values_of(t0, job).contains(v)
                            && !batch_gives(batch1, job, v)),
                    forall|job: u64, it: u32|
                        #[trigger] batch_gives(batch@, job, it) == (batch_gives(batch1, job, it)
                            || given_upto(list@, k as int, it).contains(job)),
                    forall|job: u64|
                        #[trigger] times_given(batch@, batch@.len() as int, job) == times_given(
                            batch1,
                            batch1.len() as int,
                            job,
                        ) + if Self::given_any(list@.take(k as int), job) {
                            1nat
                        } else {
                            0nat
                        },
                decreases list@.len() - k,
            {
                let ghost bk = batch@;
                proof {
                    assert forall|job: u64| list@[k as int].1@.contains(job) implies !batch_gives(
                        batch@,
                        job,
                        list@[k as int].0,
                    ) by {
                        let item = list@[k as int].0;
                        assert(list_gives(list@, job, item));
                        assert(values_of(t1, job).contains(item));
                        assert(!batch_gives(batch1, job, item));
                        if given_upto(list@, k as int, item).contains(job) {
                            let x = choose|x: int|
                                0 <= x < k && x < list@.len() && (#[trigger] list@[x]).0 == item
                                    && list@[x].1@.contains(job);
                            assert(!(list@[x].1@.contains(job) && list@[k as int].1@.contains(job)));
                        }
                    }
                }
                merge(&mut batch, list[k].0, &list[k].1);
                proof {
                    let item = list@[k as int].0;
                    assert forall|job: u64, it: u32|
                        #[trigger] batch_gives(batch@, job, it) == (batch_gives(batch1, job, it)
                            || given_upto(list@, k + 1, it).contains(job)) by {
                        if given_upto(list@, k + 1, it).contains(job) {
                            let x = choose|x: int|
                                0 <= x < k + 1 && x < list@.len() && (#[trigger] list@[x]).0 == it
                                    && list@[x].1@.contains(job);
                            if x < k {
                                assert(given_upto(list@, k as int, it).contains(job));
                            }
                        }
                        if given_upto(list@, k as int, it).contains(job) {
                            let x = choose|x: int|
                                0 <= x < k && x < list@.len() && (#[trigger] list@[x]).0 == it
                                    && list@[x].1@.contains(job);
                            assert(0 <= x < k + 1);
                        }
                        if it == item && list@[k as int].1@.contains(job) {
                            assert(given_upto(list@, k + 1, it).contains(job));
                        }
                    }
                    assert forall|job: u64|
                        #[trigger] times_given(batch@, batch@.len() as int, job) == times_given(
                            batch1,
                            batch1.len() as int,
                            job,
                        ) + if Self::given_any(list@.take(k + 1), job) {
                            1nat
                        } else {
                            0nat
                        } by {
                        let a = list@.take(k as int);
                        let b = list@.take(k + 1);
                        if Self::given_any(a, job) {
                            let x = choose|x: int|
                                0 <= x < a.len() && (#[trigger] a[x]).1@.contains(job);
                            assert(b[x] == a[x]);
                            assert(Self::given_any(b, job));
                            assert(list@[x] == a[x]);
                            assert(!(list@[x].1@.contains(job) && list@[k as int].1@.contains(job)));
                        }
                        if list@[k as int].1@.contains(job) {
                            assert(b[k as int] == list@[k as int]);
                            assert(Self::given_any(b, job));
                        }
                        if Self::given_any(b, job) {
                            let x = choose|x: int|
                                0 <= x < b.len() && (#[trigger] b[x]).1@.contains(job);
                            if x < k {
                                assert(a[x] == b[x]);
                                assert(Self::given_any(a, job));
                            } else {
                                assert(b[x] == list@[k as int]);
                            }
                        }
                    }
                }
                k += 1;
            }
            proof {
                assert(list@.take(k as int) =~= list@);
                assert forall|job: u64, v: u32|
                    #[trigger] values_of(t2, job).contains(v) == (values_of(t0, job).contains(v)
                        && !batch_gives(batch@, job, v)) by {
                    assert(values_of(t2, job).contains(v) == (values_of(t1, job).contains(v)
                        && !list_gives(list@, job, v)));
                    assert(values_of(t1, job).contains(v) == (values_of(t0, job).contains(v)
                        && !batch_gives(batch1, job, v)));
                    lemma_given_all(list@, job, v);
                }
                assert forall|job: u64, v: u32| #[trigger]
                    batch_gives(batch@, job, v) implies values_of(t0, job).contains(v) by {
                    lemma_given_all(list@, job, v);
                    if !batch_gives(batch1, job, v) {
                        assert(list_gives(list@, job, v));
                        assert(values_of(t1, job).contains(v));
                    }
                }
                assert forall|x: int| 0 <= x < jobs0.len() implies Self::job_after_batch(
                    #[trigger] self.job_table@[x],
                    jobs0[x],
                    batch@,
                ) by {
                    assert(Self::job_after_turn(self.jobs()[x], jobs1[x], list@));
                    assert(Self::job_after_batch(jobs1[x], jobs0[x], batch1));
                }
                assert forall|x: int| 0 <= x < jobs0.len() implies times_given(
                    batch@,
                    batch@.len() as int,
                    (#[trigger] jobs0[x]).spec_id(),
                ) == Self::least(
                    turns + 1,
                    jobs0[x].room(),
                    values_of(t0, jobs0[x].spec_id()).len() as int,
                ) by {
                    let id = jobs0[x].spec_id();
                    let given = times_given(batch1, batch1.len() as int, id);
                    assert(Self::job_after_turn(self.jobs()[x], jobs1[x], list@));
                    assert(Self::job_after_batch(jobs1[x], jobs0[x], batch1));
                    assert(jobs1[x].spec_id() == id);
                    assert(jobs1[x].room() == jobs0[x].room() - given);
                    lemma_left_to_see(values_of(t0, id), values_of(t1, id), batch1, id);
                    lemma_turn_gives(t1, masked1, t2, list@, id);
                    assert(masked1.contains(id) == (jobs1[x].room() == 0));
                    assert(Self::given_any(list@, id) == (jobs1[x].room() > 0 && values_of(
                        t1,
                        id,
                    ).len() > 0));
                }
            }
            turns += 1;
        }
        // Each read is told the number of jobs that have yet to see it.
        let mut out: Vec<BatchItem> = Vec::new();
        let ghost full = batch@;
        let mut k: usize = 0;
        while k < batch.len()
            invariant
                0 <= k <= full.len(),
                self.wf(),
                self.keys@ == old(self).keys@,
                batch@ == full,
                out@.len() == k,
                forall|job: u64, v: u32| #[trigger]
                    batch_gives(full, job, v) ==> values_of(t0, job).contains(v),
                old(self).wf(),
                t0 == old(self).tree(),
                batch_wf(full),
                forall|x: int|
                    0 <= x < k ==> (#[trigger] out@[x]).index == full[x].index && out@[x].jobs@
                        == full[x].jobs@ && out@[x].ref_cnt == holders(
                        self.tree(),
                        full[x].index,
                    ).len(),
            decreases full.len() - k,
        {
            let index = batch[k].index;
            proof {
                let job = full[k as int].jobs@[0];
                assert(full[k as int].jobs@.contains(job));
                assert(batch_gives(full, job, index));
                assert(values_of(t0, job).contains(index));
                old(self).lemma_wf();
            }
            let ref_cnt = self.ref_count(index);
            let jobs = batch[k].jobs.clone();
            let ghost out0 = out@;
            assert(index < self.spec_len());
            assert(jobs@ == full[k as int].jobs@);
            out.push(BatchItem { index, ref_cnt, jobs });
            proof {
                assert forall|x: int| 0 <= x < k + 1 implies (#[trigger] out@[x]).index
                    == full[x].index && out@[x].jobs@ == full[x].jobs@ && out@[x].ref_cnt
                    == holders(self.tree(), full[x].index).len() by {
                    if x < k {
                        assert(out@[x] == out0[x]);
                    }
                }
            }
            k += 1;
        }
        proof {
            let o = out@;
            assert forall|x: int| 0 <= x < o.len() implies (#[trigger] o[x]).jobs@.len() > 0
                && o[x].jobs@.no_duplicates() by {
                assert(full[x].jobs@.len() > 0);
            }
            assert forall|a: int, b: int| 0 <= a < b < o.len() implies (#[trigger] o[a]).index != (
            #[trigger] o[b]).index by {
                assert(full[a].index != full[b].index);
            }
            assert forall|job: u64, v: u32| batch_gives(o, job, v) == batch_gives(full, job, v) by {
                if batch_gives(o, job, v) {
                    let x = choose|x: int|
                        0 <= x < o.len() && (#[trigger] o[x]).index == v && o[x].jobs@.contains(job);
                    assert(full[x].index == v && full[x].jobs@.contains(job));
                }
                if batch_gives(full, job, v) {
                    let x = choose|x: int|
                        0 <= x < full.len() && (#[trigger] full[x]).index == v
                            && full[x].jobs@.contains(job);
                    assert(o[x].index == v && o[x].jobs@.contains(job));
                }
            }
            assert forall|x: int| 0 <= x < jobs0.len() implies Self::job_after_batch(
                #[trigger] self.job_table@[x],
                jobs0[x],
                o,
            ) by {
                assert(Self::job_after_batch(self.job_table@[x], jobs0[x], full));
                assert forall|y: int| 0 <= y < full.len() implies (
                #[trigger] full[y]).jobs@.contains(jobs0[x].spec_id()) == o[y].jobs@.contains(
                    jobs0[x].spec_id(),
                ) by {}
                lemma_times_same(full, o, full.len() as int, jobs0[x].spec_id());
            }
            assert(Self::paced(*old(self), o, turns as int)) by {
                assert forall|x: int| 0 <= x < jobs0.len() implies times_given(
                    o,
                    o.len() as int,
                    (#[trigger] jobs0[x]).spec_id(),
                ) == Self::least(
                    turns as int,
                    jobs0[x].room(),
                    values_of(t0, jobs0[x].spec_id()).len() as int,
                ) by {
                    assert forall|y: int| 0 <= y < full.len() implies (
                    #[trigger] full[y]).jobs@.contains(jobs0[x].spec_id()) == o[y].jobs@.contains(
                        jobs0[x].spec_id(),
                    ) by {}
                    lemma_times_same(full, o, full.len() as int, jobs0[x].spec_id());
                }
            }
        }
        out
    }

    /// What a batch does. The scheduler stays that of its dataset. The reads
    /// have each an index of its own and at least one job. What a job is
    /// given are values that it had yet to see, and it has the others yet to
    /// see. Each read tells the number of jobs that have yet to see its
    /// index afterwards. Each job has as many more payloads under way as
    /// reads are given to it, and no more than its queue had places left.
    pub open spec fn batched(before: Joader, after: Joader, batch: Seq<BatchItem>) -> bool {
        &&& after.spec_id() == before.spec_id()
        &&& after.spec_keys() == before.spec_keys()
        &&& batch_wf(batch)
        &&& forall|job: u64, v: u32|
            #[trigger] values_of(after.tree(), job).contains(v) == (values_of(
                before.tree(),
                job,
            ).contains(v) && !batch_gives(batch, job, v))
        &&& forall|job: u64, v: u32| #[trigger]
            batch_gives(batch, job, v) ==> values_of(before.tree(), job).contains(v)
        &&& forall|k: int|
            0 <= k < batch.len() ==> (#[trigger] batch[k]).ref_cnt == holders(
                after.tree(),
                batch[k].index,
            ).len()
        &&& after.jobs().len() == before.jobs().len()
        &&& forall|k: int|
            0 <= k < before.jobs().len() ==> Self::job_after_batch(
                #[trigger] after.jobs()[k],
                before.jobs()[k],
                batch,
            )
    }

    /// Whether a turn would give nothing: every job that has something yet
    /// to see cannot be promised a payload.
    pub open spec fn stalled(&self) -> bool {
        forall|job: u64|
            has_job(self.tree(), job) && values_of(self.tree(), job) != Set::<u32>::empty()
                ==> #[trigger] self.masked().contains(job)
    }

    /// The least of three numbers.
    pub open spec fn least(a: int, b: int, c: int) -> int {
        if a <= b && a <= c {
            a
        } else if b <= c {
            b
        } else {
            c
        }
    }

    /// What `turns` turns give to the jobs: to each job one read a turn,
    /// until its queue has no place left that could be promised, or it has
    /// seen all that it had to see.
    pub open spec fn paced(before: Joader, batch: Seq<BatchItem>, turns: int) -> bool {
        forall|k: int|
            0 <= k < before.jobs().len() ==> times_given(
                batch,
                batch.len() as int,
                (#[trigger] before.jobs()[k]).spec_id(),
            ) == Self::least(
                turns,
                before.jobs()[k].room(),
                values_of(before.tree(), before.jobs()[k].spec_id()).len() as int,
            )
    }

    /// When a batch ends. It is made in turns, `batch_size` at most, each
    /// of which gives one read to every job that can be promised a payload
    /// and has something yet to see. The turns end when there have been
    /// `batch_size` of them, when the batch has `batch_size` reads, or when
    /// a turn would give nothing.
    pub open spec fn batch_ends(
        before: Joader,
        after: Joader,
        batch: Seq<BatchItem>,
        batch_size: usize,
    ) -> bool {
        exists|turns: int|
            0 <= turns <= batch_size && #[trigger] Self::paced(before, batch, turns) && (turns
                == batch_size || batch.len() >= batch_size || after.stalled())
    }

    /// What a batch does to a job: it stays as it is, but that it has as
    /// many more payloads under way as the batch gives it reads; and those
    /// are no more than its queue had places left.
    pub open spec fn job_after_batch(now: Job, before: Job, batch: Seq<BatchItem>) -> bool {
        &&& now.spec_id() == before.spec_id()
        &&& now.spec_capacity() == before.spec_capacity()
        &&& now.spec_pending() == before.spec_pending() + times_given(
            batch,
            batch.len() as int,
            before.spec_id(),
        )
        &&& times_given(batch, batch.len() as int, before.spec_id()) <= before.room()
    }

    /// Whether the list gives something to `job`.
    fn is_given(list: &Vec<(u32, Vec<u64>)>, job: u64) -> (r: bool)
        ensures
            r == Self::given_any(list@, job),
    {
        let mut k: usize = 0;
        while k < list.len()
            invariant
                0 <= k <= list@.len(),
                forall|x: int| 0 <= x < k ==> !(#[trigger] list@[x]).1@.contains(job),
            decreases list@.len() - k,
        {
            if crate::sampler::sampler_node::contains_id(&list[k].1, job) {
                return true;
            }
            k += 1;
        }
        false
    }

    /// A payload that was under way to the job `id` has come into its
    /// queue. Nothing changes where the job is not known, or has nothing
    /// under way.
    pub fn push(&mut self, id: u64)
        requires
            old(self).wf(),
        ensures
            final(self).wf(),
            final(self).spec_id() == old(self).spec_id(),
            final(self).spec_keys() == old(self).spec_keys(),
            final(self).tree() == old(self).tree(),
            final(self).spec_empty() == old(self).spec_empty(),
            final(self).jobs().len() == old(self).jobs().len(),
            forall|k: int|
                0 <= k < old(self).jobs().len() ==> {
                    let before = old(self).jobs()[k];
                    let now = #[trigger] final(self).jobs()[k];
                    &&& now.spec_id() == before.spec_id()
                    &&& if before.spec_id() == id && before.spec_pending() > 0
                        && before.spec_capacity() > 0 {
                        now.spec_pending() == before.spec_pending() - 1 && now.spec_capacity()
                            == before.spec_capacity() - 1
                    } else {
                        now.spec_pending() == before.spec_pending() && now.spec_capacity()
                            == before.spec_capacity()
                    }
                },
    {
        match self.find(id) {
            Some(at) => {
                if self.job_table[at].pending() > 0 && self.job_table[at].capacity() > 0 {
                    let ghost table = self.job_table@;
                    let mut job = self.job_table.remove(at);
                    job.push();
                    self.job_table.insert(at, job);
                    proof {
                        self.lemma_table_kept(*old(self), at as int);
                    }
                }
            },
            None => {},
        }
    }

    /// The queue of the job `id` reports the places that it has left.
    /// Nothing changes where the job is not known.
    pub fn set_capacity(&mut self, id: u64, capacity: usize)
        requires
            old(self).wf(),
        ensures
            final(self).wf(),
            final(self).spec_id() == old(self).spec_id(),
            final(self).spec_keys() == old(self).spec_keys(),
            final(self).tree() == old(self).tree(),
            final(self).spec_empty() == old(self).spec_empty(),
            final(self).jobs().len() == old(self).jobs().len(),
            forall|k: int|
                0 <= k < old(self).jobs().len() ==> {
                    let before = old(self).jobs()[k];
                    let now = #[trigger] final(self).jobs()[k];
                    &&& now.spec_id() == before.spec_id()
                    &&& now.spec_pending() == before.spec_pending()
                    &&& now.spec_capacity() == if before.spec_id() == id {
                        capacity as int
                    } else {
                        before.spec_capacity()
                    }
                },
    {
        match self.find(id) {
            Some(at) => {
                let mut job = self.job_table.remove(at);
                job.set_capacity(capacity);
                self.job_table.insert(at, job);
                proof {
                    self.lemma_table_kept(*old(self), at as int);
                }
            },
            None => {},
        }
    }

    /// A scheduler in which one job has changed, but not its identifier, is
    /// well formed as it was.
    proof fn lemma_table_kept(&self, before: Joader, at: int)
        requires
            before.wf(),
            self.sampler_tree == before.sampler_tree,
            self.keys == before.keys,
            self.ref_table == before.ref_table,
            0 <= at < before.job_table@.len(),
            self.job_table@.len() == before.job_table@.len(),
            self.job_table@[at].spec_id() == before.job_table@[at].spec_id(),
            forall|k: int|
                0 <= k < before.job_table@.len() && k != at ==> self.job_table@[k]
                    == before.job_table@[k],
        ensures
            self.wf(),
            forall|k: int|
                0 <= k < before.job_table@.len() ==> (#[trigger] self.job_table@[k]).spec_id()
                    == before.job_table@[k].spec_id(),
            forall|k: int|
                0 <= k < before.job_table@.len() && k != at ==> #[trigger] self.jobs()[k]
                    == before.jobs()[k],
    {
        let now = self.job_table@;
        let was = before.job_table@;
        assert forall|k: int| 0 <= k < was.len() implies (#[trigger] now[k]).spec_id()
            == was[k].spec_id() by {
            if k != at {
                assert(now[k] == was[k]);
            }
        }
        assert forall|a: int, b: int| 0 <= a < b < now.len() implies (#[trigger] now[a]).spec_id()
            != (#[trigger] now[b]).spec_id() by {
            assert(was[a].spec_id() != was[b].spec_id());
        }
        assert(self.tree() == before.tree());
        assert(was == before.jobs());
        assert forall|job: u64| #[trigger] has_job(self.tree(), job) implies self.knows(job) by {
            assert(has_job(before.tree(), job));
            assert(before.knows(job));
            let x = choose|x: int| 0 <= x < was.len() && (#[trigger] was[x]).spec_id() == job;
            assert(now[x].spec_id() == job);
            assert(self.jobs()[x].spec_id() == job);
        }
    }

    /// The number of jobs that have yet to see the index `idx`; none for an
    /// index that the dataset has not.
    pub fn ref_count(&self, idx: u32) -> (r: usize)
        requires
            self.wf(),
        ensures
            idx < self.spec_len() ==> r == holders(self.tree(), idx).len(),
            idx >= self.spec_len() ==> r == 0,
    {
        if (idx as usize) < self.ref_table.len() {
            self.ref_table[idx as usize]
        } else {
            0
        }
    }
}

/// The jobs to which the first `k` entries of a list give the index `i`.
pub open spec fn given_upto(list: Seq<(u32, Vec<u64>)>, k: int, i: u32) -> Set<u64> {
    Set::new(
        |job: u64|
            exists|x: int|
                0 <= x < k && x < list.len() && (#[trigger] list[x]).0 == i && list[x].1@.contains(
                    job,
                ),
    )
}

/// What one more entry of the list adds to the jobs that are given an
/// index.
proof fn lemma_given_step(list: Seq<(u32, Vec<u64>)>, k: int, i: u32)
    requires
        0 <= k < list.len(),
        list[k].1@.no_duplicates(),
        forall|a: int, b: int, job: u64|
            0 <= a < b < list.len() ==> !(#[trigger] list[a].1@.contains(job)
                && #[trigger] list[b].1@.contains(job)),
        given_upto(list, k, i).finite(),
    ensures
        given_upto(list, k + 1, i).finite(),
        given_upto(list, k + 1, i).len() == given_upto(list, k, i).len() + if list[k].0 == i {
            list[k].1@.len()
        } else {
            0
        },
{
    let g0 = given_upto(list, k, i);
    let g1 = given_upto(list, k + 1, i);
    let js = list[k].1@.to_set();
    if list[k].0 == i {
        list[k].1@.unique_seq_to_set();
        assert(g1 =~= g0.union(js)) by {
            assert forall|job: u64| g1.contains(job) == (g0.contains(job) || js.contains(job)) by {
                if g1.contains(job) {
                    let x = choose|x: int|
                        0 <= x < k + 1 && x < list.len() && (#[trigger] list[x]).0 == i
                            && list[x].1@.contains(job);
                    if x < k {
                        assert(g0.contains(job));
                    }
                }
                if g0.contains(job) {
                    let x = choose|x: int|
                        0 <= x < k && x < list.len() && (#[trigger] list[x]).0 == i
                            && list[x].1@.contains(job);
                    assert(0 <= x < k + 1);
                }
                if js.contains(job) {
                    assert(list[k].0 == i && list[k].1@.contains(job));
                }
            }
        }
        assert(g0.disjoint(js)) by {
            assert forall|job: u64| !(g0.contains(job) && js.contains(job)) by {
                if g0.contains(job) && js.contains(job) {
                    let x = choose|x: int|
                        0 <= x < k && x < list.len() && (#[trigger] list[x]).0 == i
                            && list[x].1@.contains(job);
                    assert(!(list[x].1@.contains(job) && list[k].1@.contains(job)));
                }
            }
        }
        vstd::set_lib::lemma_set_disjoint_lens(g0, js);
        vstd::set_lib::lemma_set_union_finite_iff(g0, js);
    } else {
        assert(g1 =~= g0) by {
            assert forall|job: u64| g1.contains(job) == g0.contains(job) by {
                if g1.contains(job) {
                    let x = choose|x: int|
                        0 <= x < k + 1 && x < list.len() && (#[trigger] list[x]).0 == i
                            && list[x].1@.contains(job);
                    assert(x < k);
                }
                if g0.contains(job) {
                    let x = choose|x: int|
                        0 <= x < k && x < list.len() && (#[trigger] list[x]).0 == i
                            && list[x].1@.contains(job);
                    assert(0 <= x < k + 1);
                }
            }
        }
    }
}

/// After a turn, the jobs that have yet to see an index are those that had
/// but for those that the turn gave it; and those were among them.
proof fn lemma_holders_after_turn(
    before: Seq<LevelView>,
    mask: Set<u64>,
    after: Seq<LevelView>,
    res: Map<u32, HashSet<u64>>,
    list: Seq<(u32, Vec<u64>)>,
    i: u32,
)
    requires
        sampled(before, mask, after, res),
        same_pairs(list, res),
    ensures
        given_upto(list, list.len() as int, i).subset_of(holders(before, i)),
        holders(after, i) == holders(before, i).difference(given_upto(list, list.len() as int, i)),
        forall|k: int| 0 <= k <= list.len() ==> #[trigger] given_upto(list, k, i).subset_of(holders(before, i)),
{
    let g = given_upto(list, list.len() as int, i);
    assert forall|job: u64| g.contains(job) == gets(res, job, i) by {
        assert(gets(res, job, i) == list_gives(list, job, i));
        if g.contains(job) {
            let x = choose|x: int|
                0 <= x < list.len() && x < list.len() && (#[trigger] list[x]).0 == i
                    && list[x].1@.contains(job);
            assert(list_gives(list, job, i));
        }
        if list_gives(list, job, i) {
            let x = choose|x: int|
                0 <= x < list.len() && (#[trigger] list[x]).0 == i && list[x].1@.contains(job);
            assert(0 <= x < list.len() && x < list.len());
        }
    }
    assert forall|k: int| 0 <= k <= list.len() implies #[trigger] given_upto(list, k, i).subset_of(
        holders(before, i),
    ) by {
        assert forall|job: u64| given_upto(list, k, i).contains(job) implies holders(
            before,
            i,
        ).contains(job) by {
            let x = choose|x: int|
                0 <= x < k && x < list.len() && (#[trigger] list[x]).0 == i && list[x].1@.contains(
                    job,
                );
            assert(g.contains(job));
            assert(gets(res, job, i));
        }
    }
    assert forall|job: u64|
        holders(after, i).contains(job) == holders(before, i).difference(g).contains(job) by {
        if gets(res, job, i) {
            assert(values_of(after, job) == values_of(before, job).remove(i));
        } else {
            if crate::sampler::sampler_tree::gets_any(res, job) {
                let it = choose|it: u32| gets(res, job, it);
                assert(values_of(after, job) == values_of(before, job).remove(it));
                assert(it != i);
            } else {
                assert(values_of(after, job) == values_of(before, job));
            }
        }
        assert(has_job(after, job) == (has_job(before, job) && values_of(after, job) != Set::<
            u32,
        >::empty()));
        if has_job(before, job) && values_of(after, job).contains(i) {
            assert(values_of(after, job) != Set::<u32>::empty());
        }
    }
    assert(holders(after, i) =~= holders(before, i).difference(g));
}

/// One read of a batch: an index, the number of jobs that have yet to see
/// it after the batch, and the jobs that are given it.
#[derive(Debug)]
pub struct BatchItem {
    pub index: u32,
    pub ref_cnt: usize,
    pub jobs: Vec<u64>,
}

/// Whether a batch gives `item` to `job`.
pub open spec fn batch_gives(batch: Seq<BatchItem>, job: u64, item: u32) -> bool {
    exists|k: int|
        0 <= k < batch.len() && (#[trigger] batch[k]).index == item && batch[k].jobs@.contains(job)
}

/// The number of the first `n` reads of a batch that are given to `job`.
pub open spec fn times_given(batch: Seq<BatchItem>, n: int, job: u64) -> nat
    decreases n,
{
    if n <= 0 {
        0
    } else {
        times_given(batch, n - 1, job) + if batch[n - 1].jobs@.contains(job) {
            1nat
        } else {
            0nat
        }
    }
}

/// The reads of a batch have each an index of its own, and each at least
/// one job, none named twice.
pub open spec fn batch_wf(batch: Seq<BatchItem>) -> bool {
    &&& forall|a: int, b: int|
        0 <= a < b < batch.len() ==> (#[trigger] batch[a]).index != (#[trigger] batch[b]).index
    &&& forall|k: int|
        0 <= k < batch.len() ==> (#[trigger] batch[k]).jobs@.len() > 0
            && batch[k].jobs@.no_duplicates()
}

/// The values that the first `n` reads of a batch give to `job`.
pub open spec fn given_values(batch: Seq<BatchItem>, n: int, job: u64) -> Set<u32> {
    Set::new(
        |v: u32|
            exists|k: int|
                0 <= k < n && k < batch.len() && (#[trigger] batch[k]).index == v
                    && batch[k].jobs@.contains(job),
    )
}

/// A job is given as many values as reads.
proof fn lemma_given_count(batch: Seq<BatchItem>, n: int, job: u64)
    requires
        batch_wf(batch),
        0 <= n <= batch.len(),
    ensures
        given_values(batch, n, job).finite(),
        given_values(batch, n, job).len() == times_given(batch, n, job),
    decreases n,
{
    let now = given_values(batch, n, job);
    if n <= 0 {
        assert(now =~= Set::<u32>::empty());
    } else {
        lemma_given_count(batch, n - 1, job);
        let before = given_values(batch, n - 1, job);
        let v = batch[n - 1].index;
        if batch[n - 1].jobs@.contains(job) {
            if before.contains(v) {
                let k = choose|k: int|
                    0 <= k < n - 1 && k < batch.len() && (#[trigger] batch[k]).index == v
                        && batch[k].jobs@.contains(job);
                assert(batch[k].index != batch[n - 1].index);
            }
            assert forall|w: u32| now.contains(w) == before.insert(v).contains(w) by {
                if now.contains(w) {
                    let k = choose|k: int|
                        0 <= k < n && k < batch.len() && (#[trigger] batch[k]).index == w
                            && batch[k].jobs@.contains(job);
                    if k < n - 1 {
                        assert(before.contains(w));
                    }
                }
                if before.contains(w) {
                    let k = choose|k: int|
                        0 <= k < n - 1 && k < batch.len() && (#[trigger] batch[k]).index == w
                            && batch[k].jobs@.contains(job);
                    assert(0 <= k < n);
                }
                if w == v {
                    assert(batch[n - 1].index == w && batch[n - 1].jobs@.contains(job));
                }
            }
            assert(now =~= before.insert(v));
        } else {
            assert forall|w: u32| now.contains(w) == before.contains(w) by {
                if now.contains(w) {
                    let k = choose|k: int|
                        0 <= k < n && k < batch.len() && (#[trigger] batch[k]).index == w
                            && batch[k].jobs@.contains(job);
                    assert(k < n - 1);
                }
                if before.contains(w) {
                    let k = choose|k: int|
                        0 <= k < n - 1 && k < batch.len() && (#[trigger] batch[k]).index == w
                            && batch[k].jobs@.contains(job);
                    assert(0 <= k < n);
                }
            }
            assert(now =~= before);
        }
    }
}

/// What a job has yet to see after a batch are as many values fewer as the
/// batch gives it reads.
proof fn lemma_left_to_see(had: Set<u32>, has: Set<u32>, batch: Seq<BatchItem>, job: u64)
    requires
        had.finite(),
        batch_wf(batch),
        forall|v: u32| #[trigger] has.contains(v) == (had.contains(v) && !batch_gives(batch, job, v)),
        forall|v: u32| #[trigger] batch_gives(batch, job, v) ==> had.contains(v),
    ensures
        has.finite(),
        has.len() + times_given(batch, batch.len() as int, job) == had.len(),
{
    let given = given_values(batch, batch.len() as int, job);
    lemma_given_count(batch, batch.len() as int, job);
    assert forall|v: u32| given.contains(v) == batch_gives(batch, job, v) by {
        if given.contains(v) {
            let k = choose|k: int|
                0 <= k < batch.len() && k < batch.len() && (#[trigger] batch[k]).index == v
                    && batch[k].jobs@.contains(job);
            assert(batch_gives(batch, job, v));
        }
        if batch_gives(batch, job, v) {
            let k = choose|k: int|
                0 <= k < batch.len() && (#[trigger] batch[k]).index == v && batch[k].jobs@.contains(
                    job,
                );
            assert(given.contains(v));
        }
    }
    assert(has =~= had.difference(given));
    assert(had.intersect(given) =~= given);
    vstd::set_lib::lemma_set_difference_len(had, given);
}

/// A turn gives a job a value where the job is not masked and has
/// something yet to see, and only there.
proof fn lemma_turn_gives(
    before: Seq<LevelView>,
    mask: Set<u64>,
    after: Seq<LevelView>,
    list: Seq<(u32, Vec<u64>)>,
    job: u64,
)
    requires
        sampled_list(before, mask, after, list),
        values_of(before, job).finite(),
    ensures
        Joader::given_any(list, job) == (!mask.contains(job) && values_of(before, job).len() > 0),
{
    let res = choose|res: Map<u32, HashSet<u64>>|
        sampled(before, mask, after, res) && #[trigger] same_pairs(list, res);
    if Joader::given_any(list, job) {
        let x = choose|x: int| 0 <= x < list.len() && (#[trigger] list[x]).1@.contains(job);
        assert(list_gives(list, job, list[x].0));
        assert(gets(res, job, list[x].0));
        assert(values_of(before, job).contains(list[x].0));
    }
    if !mask.contains(job) && values_of(before, job).len() > 0 {
        assert(values_of(before, job) != Set::<u32>::empty());
        assert(has_job(before, job));
        assert(crate::sampler::sampler_tree::gets_any(res, job));
        let item = choose|item: u32| gets(res, job, item);
        assert(list_gives(list, job, item));
        let x = choose|x: int|
            0 <= x < list.len() && (#[trigger] list[x]).0 == item && list[x].1@.contains(job);
        assert(list[x].1@.contains(job));
    }
}

/// Where a turn gives nothing, every job that has something yet to see is
/// masked, before the turn and after it.
proof fn lemma_turn_idle(
    before: Seq<LevelView>,
    mask: Set<u64>,
    after: Seq<LevelView>,
    list: Seq<(u32, Vec<u64>)>,
)
    requires
        sampled_list(before, mask, after, list),
        list.len() == 0,
    ensures
        forall|job: u64|
            has_job(after, job) && values_of(after, job) != Set::<u32>::empty()
                ==> #[trigger] mask.contains(job),
{
    let res = choose|res: Map<u32, HashSet<u64>>|
        sampled(before, mask, after, res) && #[trigger] same_pairs(list, res);
    assert forall|job: u64|
        has_job(after, job) && values_of(after, job) != Set::<u32>::empty() implies #[trigger] mask.contains(
        job,
    ) by {
        if crate::sampler::sampler_tree::gets_any(res, job) {
            let item = choose|item: u32| gets(res, job, item);
            assert(list_gives(list, job, item));
        }
        assert(values_of(after, job) == values_of(before, job));
        assert(has_job(before, job));
    }
}

/// Where two batches agree on the jobs of their first `n` reads, the jobs
/// are given as many of them.
proof fn lemma_times_same(a: Seq<BatchItem>, b: Seq<BatchItem>, n: int, job: u64)
    requires
        0 <= n <= a.len(),
        n <= b.len(),
        forall|k: int| 0 <= k < n ==> (#[trigger] a[k]).jobs@.contains(job) == b[k].jobs@.contains(job),
    ensures
        times_given(a, n, job) == times_given(b, n, job),
    decreases n,
{
    if n > 0 {
        lemma_times_same(a, b, n - 1, job);
        assert(a[n - 1].jobs@.contains(job) == b[n - 1].jobs@.contains(job));
    }
}

/// Where two batches agree on the jobs of their reads but that the read
/// `at` of the second has `job` and that of the first has not, `job` is
/// given one read more by the second.
proof fn lemma_times_one_more(a: Seq<BatchItem>, b: Seq<BatchItem>, at: int, n: int, job: u64)
    requires
        0 <= at < a.len(),
        a.len() == b.len(),
        at < n <= a.len(),
        !a[at].jobs@.contains(job),
        b[at].jobs@.contains(job),
        forall|k: int|
            0 <= k < a.len() && k != at ==> (#[trigger] a[k]).jobs@.contains(job)
                == b[k].jobs@.contains(job),
    ensures
        times_given(b, n, job) == times_given(a, n, job) + 1,
    decreases n,
{
    if n - 1 == at {
        lemma_times_same(a, b, at, job);
    } else {
        lemma_times_one_more(a, b, at, n - 1, job);
        assert(a[n - 1].jobs@.contains(job) == b[n - 1].jobs@.contains(job));
    }
}

/// Lets a batch give `item` to the jobs `jobs` as well, none of which it
/// gives `item` yet.
fn merge(batch: &mut Vec<BatchItem>, item: u32, jobs: &Vec<u64>)
    requires
        batch_wf(old(batch)@),
        jobs@.len() > 0,
        jobs@.no_duplicates(),
        forall|job: u64| jobs@.contains(job) ==> !batch_gives(old(batch)@, job, item),
    ensures
        batch_wf(final(batch)@),
        final(batch)@.len() >= old(batch)@.len(),
        forall|job: u64, it: u32|
            #[trigger] batch_gives(final(batch)@, job, it) == (batch_gives(old(batch)@, job, it) || (
            it == item && jobs@.contains(job))),
        forall|job: u64|
            #[trigger] times_given(final(batch)@, final(batch)@.len() as int, job) == times_given(
                old(batch)@,
                old(batch)@.len() as int,
                job,
            ) + if jobs@.contains(job) {
                1nat
            } else {
                0nat
            },
{
    let ghost b0 = batch@;
    let mut at: usize = 0;
    while at < batch.len() && batch[at].index != item
        invariant
            0 <= at <= batch@.len(),
            batch@ == b0,
            forall|x: int| 0 <= x < at ==> (#[trigger] batch@[x]).index != item,
        decreases batch@.len() - at,
    {
        at += 1;
    }
    if at < batch.len() {
        let mut entry = batch.remove(at);
        let ghost had = entry.jobs@;
        assert(entry == b0[at as int]);
        let mut k: usize = 0;
        while k < jobs.len()
            invariant
                0 <= k <= jobs@.len(),
                entry.index == item,
                jobs@.no_duplicates(),
                had.no_duplicates(),
                forall|job: u64| jobs@.contains(job) ==> !had.contains(job),
                entry.jobs@ == had + jobs@.take(k as int),
            decreases jobs@.len() - k,
        {
            entry.jobs.push(jobs[k]);
            proof {
                assert(jobs@.take(k + 1) =~= jobs@.take(k as int).push(jobs@[k as int]));
                assert(entry.jobs@ =~= had + jobs@.take(k + 1));
            }
            k += 1;
        }
        proof {
            assert(jobs@.take(k as int) =~= jobs@);
            assert forall|job: u64| jobs@.contains(job) implies !had.contains(job) by {
                if had.contains(job) {
                    assert(b0[at as int].jobs@.contains(job));
                    assert(batch_gives(b0, job, item));
                }
            }
            crate::sampler::sampler_node::lemma_append_distinct_ids(had, jobs@);
        }
        let ghost merged = entry.jobs@;
        batch.insert(at, entry);
        proof {
            let b1 = batch@;
            assert forall|x: int| 0 <= x < b0.len() && x != at implies b1[x] == b0[x] by {}
            assert(b1[at as int].index == item && b1[at as int].jobs@ == merged);
            assert forall|job: u64| merged.contains(job) == (had.contains(job) || jobs@.contains(
                job,
            )) by {}
            assert(batch_wf(b1)) by {
                assert forall|a: int, b: int| 0 <= a < b < b1.len() implies (#[trigger] b1[a]).index
                    != (#[trigger] b1[b]).index by {
                    assert(b1[a].index == b0[a].index && b1[b].index == b0[b].index);
                    assert(b0[a].index != b0[b].index);
                }
                assert forall|x: int| 0 <= x < b1.len() implies (#[trigger] b1[x]).jobs@.len() > 0
                    && b1[x].jobs@.no_duplicates() by {
                    if x != at {
                        assert(b1[x] == b0[x]);
                        assert(b0[x].jobs@.len() > 0);
                    }
                }
            }
            assert forall|job: u64, it: u32|
                #[trigger] batch_gives(b1, job, it) == (batch_gives(b0, job, it) || (it == item
                    && jobs@.contains(job))) by {
                if batch_gives(b1, job, it) {
                    let x = choose|x: int|
                        0 <= x < b1.len() && (#[trigger] b1[x]).index == it && b1[x].jobs@.contains(
                            job,
                        );
                    if x != at {
                        assert(b0[x] == b1[x]);
                        assert(b0[x].index == it && b0[x].jobs@.contains(job));
                    } else if had.contains(job) {
                        assert(b0[at as int].index == it && b0[at as int].jobs@.contains(job));
                    }
                }
                if batch_gives(b0, job, it) {
                    let x = choose|x: int|
                        0 <= x < b0.len() && (#[trigger] b0[x]).index == it && b0[x].jobs@.contains(
                            job,
                        );
                    if x != at {
                        assert(b1[x] == b0[x]);
                    }
                    assert(b1[x].index == it && b1[x].jobs@.contains(job));
                }
                if it == item && jobs@.contains(job) {
                    assert(b1[at as int].index == it && b1[at as int].jobs@.contains(job));
                }
            }
            assert forall|job: u64|
                #[trigger] times_given(b1, b1.len() as int, job) == times_given(
                    b0,
                    b0.len() as int,
                    job,
                ) + if jobs@.contains(job) {
                    1nat
                } else {
                    0nat
                } by {
                if jobs@.contains(job) {
                    assert(!had.contains(job));
                    assert forall|x: int| 0 <= x < b0.len() && x != at implies (
                    #[trigger] b0[x]).jobs@.contains(job) == b1[x].jobs@.contains(job) by {
                        assert(b1[x] == b0[x]);
                    }
                    lemma_times_one_more(b0, b1, at as int, b0.len() as int, job);
                } else {
                    assert forall|x: int| 0 <= x < b0.len() implies (
                    #[trigger] b0[x]).jobs@.contains(job) == b1[x].jobs@.contains(job) by {
                        if x != at {
                            assert(b1[x] == b0[x]);
                        }
                    }
                    lemma_times_same(b0, b1, b0.len() as int, job);
                }
            }
        }
    } else {
        let entry = BatchItem { index: item, ref_cnt: 0, jobs: jobs.clone() };
        batch.push(entry);
        proof {
            let b1 = batch@;
            let n = b0.len() as int;
            assert(b1[n].index == item && b1[n].jobs@ == jobs@);
            assert forall|x: int| 0 <= x < n implies b1[x] == b0[x] by {}
            assert(batch_wf(b1)) by {
                assert forall|a: int, b: int| 0 <= a < b < b1.len() implies (#[trigger] b1[a]).index
                    != (#[trigger] b1[b]).index by {
                    assert(b1[a] == b0[a]);
                    if b < n {
                        assert(b1[b] == b0[b]);
                        assert(b0[a].index != b0[b].index);
                    }
                }
                assert forall|x: int| 0 <= x < b1.len() implies (#[trigger] b1[x]).jobs@.len() > 0
                    && b1[x].jobs@.no_duplicates() by {
                    if x < n {
                        assert(b1[x] == b0[x]);
                        assert(b0[x].jobs@.len() > 0);
                    }
                }
            }
            assert forall|job: u64, it: u32|
                #[trigger] batch_gives(b1, job, it) == (batch_gives(b0, job, it) || (it == item
                    && jobs@.contains(job))) by {
                if batch_gives(b1, job, it) {
                    let x = choose|x: int|
                        0 <= x < b1.len() && (#[trigger] b1[x]).index == it && b1[x].jobs@.contains(
                            job,
                        );
                    if x < n {
                        assert(b0[x] == b1[x]);
                        assert(b0[x].index == it && b0[x].jobs@.contains(job));
                    }
                }
                if batch_gives(b0, job, it) {
                    let x = choose|x: int|
                        0 <= x < b0.len() && (#[trigger] b0[x]).index == it && b0[x].jobs@.contains(
                            job,
                        );
                    assert(b1[x] == b0[x]);
                    assert(b1[x].index == it && b1[x].jobs@.contains(job));
                }
                if it == item && jobs@.contains(job) {
                    assert(b1[n].index == it && b1[n].jobs@.contains(job));
                }
            }
            assert forall|job: u64|
                #[trigger] times_given(b1, b1.len() as int, job) == times_given(
                    b0,
                    b0.len() as int,
                    job,
                ) + if jobs@.contains(job) {
                    1nat
                } else {
                    0nat
                } by {
                assert forall|x: int| 0 <= x < n implies (#[trigger] b0[x]).jobs@.contains(job)
                    == b1[x].jobs@.contains(job) by {
                    assert(b1[x] == b0[x]);
                }
                lemma_times_same(b0, b1, n, job);
            }
        }
    }
}

/// What a turn gives a job is a value that the job had yet to see, and no
/// longer has; what else it had to see, it still has.
proof fn lemma_turn_values(
    before: Seq<LevelView>,
    mask: Set<u64>,
    after: Seq<LevelView>,
    list: Seq<(u32, Vec<u64>)>,
)
    requires
        sampled_list(before, mask, after, list),
    ensures
        forall|job: u64, v: u32| #[trigger]
            list_gives(list, job, v) ==> values_of(before, job).contains(v),
        forall|job: u64, v: u32|
            #[trigger] values_of(after, job).contains(v) == (values_of(before, job).contains(v)
                && !list_gives(list, job, v)),
{
    let res = choose|res: Map<u32, HashSet<u64>>|
        sampled(before, mask, after, res) && #[trigger] same_pairs(list, res);
    assert forall|job: u64, v: u32| #[trigger] list_gives(list, job, v) implies values_of(
        before,
        job,
    ).contains(v) by {
        assert(gets(res, job, v));
    }
    assert forall|job: u64, v: u32|
        #[trigger] values_of(after, job).contains(v) == (values_of(before, job).contains(v)
            && !list_gives(list, job, v)) by {
        assert(gets(res, job, v) == list_gives(list, job, v));
        if crate::sampler::sampler_tree::gets_any(res, job) {
            let it = choose|it: u32| gets(res, job, it);
            assert(values_of(after, job) == values_of(before, job).remove(it));
            if gets(res, job, v) {
                assert(values_of(after, job) == values_of(before, job).remove(v));
            }
        } else {
            assert(values_of(after, job) == values_of(before, job));
            assert(!gets(res, job, v));
        }
    }
}

/// The jobs that a whole list gives an index are those that it gives it.
proof fn lemma_given_all(list: Seq<(u32, Vec<u64>)>, job: u64, v: u32)
    ensures
        given_upto(list, list.len() as int, v).contains(job) == list_gives(list, job, v),
{
    if given_upto(list, list.len() as int, v).contains(job) {
        let x = choose|x: int|
            0 <= x < list.len() && x < list.len() && (#[trigger] list[x]).0 == v
                && list[x].1@.contains(job);
        assert(list_gives(list, job, v));
    }
    if list_gives(list, job, v) {
        let x = choose|x: int|
            0 <= x < list.len() && (#[trigger] list[x]).0 == v && list[x].1@.contains(job);
        assert(0 <= x < list.len() && x < list.len());
    }
}

} // verus!
