//! The sampler of one dataset: the tree of its jobs, and the turns of
//! sampling.
use crate::sampler::decision::{
    decision_fits, decisions_fit, is_masked, job_decided, serves, source, Decision,
};
use crate::sampler::sampler_node::{
    has_job, job_index, lemma_job_index, lemma_path_step, lemma_values_len, no_job_drained,
    tree_wf, values_at, values_of, LevelView, Node,
};
use crate::sampler::random::new_rng;
use std::collections::{HashMap, HashSet, VecDeque};
use vstd::prelude::*;

verus! {

/// Whether a turn gave `item` to `job`.
pub open spec fn gets(res: Map<u32, HashSet<u64>>, job: u64, item: u32) -> bool {
    res.contains_key(item) && res[item]@.contains(job)
}

/// Whether a turn gave a value to `job`.
pub open spec fn gets_any(res: Map<u32, HashSet<u64>>, job: u64) -> bool {
    exists|item: u32| gets(res, job, item)
}

/// Whether a list of values, each with the jobs that are given it, gives
/// `item` to `job`.
pub open spec fn list_gives(list: Seq<(u32, Vec<u64>)>, job: u64, item: u32) -> bool {
    exists|k: int| 0 <= k < list.len() && (#[trigger] list[k]).0 == item && list[k].1@.contains(job)
}

/// The list and the map give the same values to the same jobs.
pub open spec fn same_pairs(list: Seq<(u32, Vec<u64>)>, res: Map<u32, HashSet<u64>>) -> bool {
    forall|job: u64, item: u32| gets(res, job, item) == #[trigger] list_gives(list, job, item)
}

/// What one turn of sampling does. Each job that is given a value is a job
/// of the tree and not masked; the value is one that it had yet to see, and
/// the only one that it no longer has to see. A job that is given nothing
/// has to see what it had. Every job that is not masked and has something
/// to see is given a value. No value is given to nobody. The jobs of the
/// tree are then those that were, and still have something to see.
pub open spec fn sampled(
    before: Seq<LevelView>,
    mask: Set<u64>,
    after: Seq<LevelView>,
    res: Map<u32, HashSet<u64>>,
) -> bool {
    &&& forall|job: u64, item: u32| #[trigger]
        gets(res, job, item) ==> has_job(before, job) && !mask.contains(job) && values_of(
            before,
            job,
        ).contains(item) && values_of(after, job) == values_of(before, job).remove(item)
    &&& forall|job: u64|
        !gets_any(res, job) ==> #[trigger] values_of(after, job) == values_of(before, job)
    &&& forall|job: u64|
        has_job(before, job) && !mask.contains(job) && values_of(before, job) != Set::<u32>::empty()
            ==> #[trigger] gets_any(res, job)
    &&& forall|item: u32| #[trigger]
        res.contains_key(item) ==> exists|job: u64| res[item]@.contains(job)
    &&& forall|job: u64| #[trigger]
        has_job(after, job) == (has_job(before, job) && values_of(after, job) != Set::<u32>::empty())
}

/// The values that wait for `job` in a list of buffers; none where it has
/// no buffer.
pub open spec fn buffer_in(buffers: Seq<(u64, VecDeque<u32>)>, job: u64) -> Seq<u32> {
    if exists|i: int| 0 <= i < buffers.len() && (#[trigger] buffers[i]).0 == job {
        buffers[choose|i: int| 0 <= i < buffers.len() && (#[trigger] buffers[i]).0 == job].1@
    } else {
        Seq::empty()
    }
}

/// Where no job has two buffers, the values that wait for a job are those
/// of the buffer that stands with it.
pub proof fn lemma_buffer_at(buffers: Seq<(u64, VecDeque<u32>)>, i: int)
    requires
        0 <= i < buffers.len(),
        forall|a: int, b: int|
            0 <= a < b < buffers.len() ==> (#[trigger] buffers[a]).0 != (#[trigger] buffers[b]).0,
    ensures
        buffer_in(buffers, buffers[i].0) == buffers[i].1@,
{
    let job = buffers[i].0;
    let j = choose|j: int| 0 <= j < buffers.len() && (#[trigger] buffers[j]).0 == job;
    if j < i {
        assert(buffers[j].0 != buffers[i].0);
    } else if j > i {
        assert(buffers[i].0 != buffers[j].0);
    }
}

/// The value that a turn took from what a job had to see, if it took one.
pub open spec fn drawn(before: Seq<LevelView>, after: Seq<LevelView>, job: u64) -> Seq<u32> {
    let gone = values_of(before, job).difference(values_of(after, job));
    if gone == Set::<u32>::empty() {
        Seq::empty()
    } else {
        seq![gone.choose()]
    }
}

/// What a turn through the buffers does to a job for which the values
/// `waiting` wait, the value drawn in the turn last. A job that is not
/// masked is given the first of them, and nothing else, and the others wait
/// on; a job that is masked, or for which nothing waits, is given nothing.
pub open spec fn buffered_turn(
    waiting: Seq<u32>,
    masked: bool,
    left: Seq<u32>,
    res: Map<u32, HashSet<u64>>,
    job: u64,
) -> bool {
    if !masked && waiting.len() > 0 {
        &&& gets(res, job, waiting[0])
        &&& forall|it: u32| gets(res, job, it) ==> it == waiting[0]
        &&& left == waiting.skip(1)
    } else {
        &&& !gets_any(res, job)
        &&& left == waiting
    }
}

/// The value that stands with `job` in the first `n` pairs; none where none
/// does.
pub open spec fn pair_items(pairs: Seq<(u64, u32)>, n: int, job: u64) -> Seq<u32> {
    if exists|p: int| 0 <= p < n && p < pairs.len() && (#[trigger] pairs[p]).0 == job {
        seq![pairs[choose|p: int| 0 <= p < n && p < pairs.len() && (#[trigger] pairs[p]).0 == job].1]
    } else {
        Seq::empty()
    }
}

/// What one more pair adds to the values that stand with a job, where no
/// job stands in two pairs.
proof fn lemma_pair_items_step(pairs: Seq<(u64, u32)>, p: int, job: u64)
    requires
        0 <= p < pairs.len(),
        forall|a: int, b: int|
            0 <= a < b < pairs.len() ==> (#[trigger] pairs[a]).0 != (#[trigger] pairs[b]).0,
    ensures
        pairs[p].0 == job ==> pair_items(pairs, p, job) == Seq::<u32>::empty() && pair_items(
            pairs,
            p + 1,
            job,
        ) == seq![pairs[p].1],
        pairs[p].0 != job ==> pair_items(pairs, p + 1, job) == pair_items(pairs, p, job),
{
    if pairs[p].0 == job {
        if exists|x: int| 0 <= x < p && x < pairs.len() && (#[trigger] pairs[x]).0 == job {
            let x = choose|x: int| 0 <= x < p && x < pairs.len() && (#[trigger] pairs[x]).0 == job;
            assert(pairs[x].0 != pairs[p].0);
        }
        let y = choose|y: int| 0 <= y < p + 1 && y < pairs.len() && (#[trigger] pairs[y]).0 == job;
        if y < p {
            assert(pairs[y].0 != pairs[p].0);
        }
    } else {
        if exists|x: int| 0 <= x < p + 1 && x < pairs.len() && (#[trigger] pairs[x]).0 == job {
            let x = choose|x: int|
                0 <= x < p + 1 && x < pairs.len() && (#[trigger] pairs[x]).0 == job;
            assert(x < p);
            let y = choose|y: int| 0 <= y < p && y < pairs.len() && (#[trigger] pairs[y]).0 == job;
            if x < y {
                assert(pairs[x].0 != pairs[y].0);
            } else if y < x {
                assert(pairs[y].0 != pairs[x].0);
            }
        } else {
            if exists|x: int| 0 <= x < p && x < pairs.len() && (#[trigger] pairs[x]).0 == job {
                let x = choose|x: int|
                    0 <= x < p && x < pairs.len() && (#[trigger] pairs[x]).0 == job;
                assert(0 <= x < p + 1);
            }
        }
    }
}

/// The pairs of a job and a value that a list gives it, the jobs in the
/// order of the list. No job stands in two pairs.
pub fn flatten(list: &Vec<(u32, Vec<u64>)>) -> (pairs: Vec<(u64, u32)>)
    requires
        forall|i: int| 0 <= i < list@.len() ==> (#[trigger] list@[i]).1@.no_duplicates(),
        forall|i: int, j: int, job: u64|
            0 <= i < j < list@.len() ==> !(#[trigger] list@[i].1@.contains(job)
                && #[trigger] list@[j].1@.contains(job)),
    ensures
        forall|a: int, b: int|
            0 <= a < b < pairs@.len() ==> (#[trigger] pairs@[a]).0 != (#[trigger] pairs@[b]).0,
        forall|job: u64, item: u32|
            pairs@.contains((job, item)) == #[trigger] list_gives(list@, job, item),
{
    let mut pairs: Vec<(u64, u32)> = Vec::new();
    let ghost mut from: Seq<(int, int)> = Seq::empty();
    let mut k: usize = 0;
    while k < list.len()
        invariant
            0 <= k <= list@.len(),
            forall|i: int| 0 <= i < list@.len() ==> (#[trigger] list@[i]).1@.no_duplicates(),
            forall|i: int, j: int, job: u64|
                0 <= i < j < list@.len() ==> !(#[trigger] list@[i].1@.contains(job)
                    && #[trigger] list@[j].1@.contains(job)),
            from.len() == pairs@.len(),
            forall|a: int|
                0 <= a < pairs@.len() ==> 0 <= (#[trigger] from[a]).0 < k && 0 <= from[a].1
                    < list@[from[a].0].1@.len() && pairs@[a] == (
                    list@[from[a].0].1@[from[a].1],
                    list@[from[a].0].0,
                ),
            forall|a: int, b: int|
                0 <= a < b < from.len() ==> (#[trigger] from[a]).0 < (#[trigger] from[b]).0 || (
                from[a].0 == from[b].0 && from[a].1 < from[b].1),
            forall|x: int, y: int|
                0 <= x < k && 0 <= y < list@[x].1@.len() ==> pairs@.contains(
                    (#[trigger] list@[x].1@[y], list@[x].0),
                ),
        decreases list@.len() - k,
    {
        let item = list[k].0;
        let mut j: usize = 0;
        while j < list[k].1.len()
            invariant
                0 <= k < list@.len(),
                item == list@[k as int].0,
                0 <= j <= list@[k as int].1@.len(),
                from.len() == pairs@.len(),
                forall|a: int|
                    0 <= a < pairs@.len() ==> 0 <= (#[trigger] from[a]).0 <= k && 0 <= from[a].1
                        < list@[from[a].0].1@.len() && (from[a].0 == k ==> from[a].1 < j)
                        && pairs@[a] == (list@[from[a].0].1@[from[a].1], list@[from[a].0].0),
                forall|a: int, b: int|
                    0 <= a < b < from.len() ==> (#[trigger] from[a]).0 < (#[trigger] from[b]).0 || (
                    from[a].0 == from[b].0 && from[a].1 < from[b].1),
                forall|x: int, y: int|
                    0 <= x < k && 0 <= y < list@[x].1@.len() ==> pairs@.contains(
                        (#[trigger] list@[x].1@[y], list@[x].0),
                    ),
                forall|y: int|
                    0 <= y < j ==> pairs@.contains((#[trigger] list@[k as int].1@[y], item)),
            decreases list@[k as int].1@.len() - j,
        {
            let job = list[k].1[j];
            let ghost before = pairs@;
            pairs.push((job, item));
            proof {
                from = from.push((k as int, j as int));
                assert(pairs@[before.len() as int] == (job, item));
                assert forall|x: int, y: int|
                    0 <= x < k && 0 <= y < list@[x].1@.len() implies pairs@.contains(
                    (#[trigger] list@[x].1@[y], list@[x].0),
                ) by {
                    let want = (list@[x].1@[y], list@[x].0);
                    assert(before.contains(want));
                    let a = choose|a: int| 0 <= a < before.len() && before[a] == want;
                    assert(pairs@[a] == want);
                }
                assert forall|y: int| 0 <= y < j + 1 implies pairs@.contains(
                    (#[trigger] list@[k as int].1@[y], item),
                ) by {
                    let want = (list@[k as int].1@[y], item);
                    if y < j {
                        assert(before.contains(want));
                        let a = choose|a: int| 0 <= a < before.len() && before[a] == want;
                        assert(pairs@[a] == want);
                    } else {
                        assert(pairs@[before.len() as int] == want);
                    }
                }
            }
            j += 1;
        }
        k += 1;
    }
    proof {
        assert forall|a: int, b: int| 0 <= a < b < pairs@.len() implies (#[trigger] pairs@[a]).0
            != (#[trigger] pairs@[b]).0 by {
            let (ka, ja) = from[a];
            let (kb, jb) = from[b];
            let job = pairs@[a].0;
            if pairs@[b].0 == job {
                assert(list@[ka].1@.contains(job));
                assert(list@[kb].1@.contains(job));
                if ka < kb {
                    assert(!(list@[ka].1@.contains(job) && list@[kb].1@.contains(job)));
                } else {
                    assert(ka == kb && ja < jb);
                    assert(list@[ka].1@[ja] != list@[ka].1@[jb]);
                }
            }
        }
        assert forall|job: u64, item: u32|
            pairs@.contains((job, item)) == #[trigger] list_gives(list@, job, item) by {
            if pairs@.contains((job, item)) {
                let a = choose|a: int| 0 <= a < pairs@.len() && pairs@[a] == (job, item);
                let (ka, ja) = from[a];
                assert(list@[ka].0 == item && list@[ka].1@.contains(job));
            }
            if list_gives(list@, job, item) {
                let x = choose|x: int|
                    0 <= x < list@.len() && (#[trigger] list@[x]).0 == item && list@[x].1@.contains(
                        job,
                    );
                let y = choose|y: int| 0 <= y < list@[x].1@.len() && list@[x].1@[y] == job;
                assert(pairs@.contains((list@[x].1@[y], list@[x].0)));
            }
        }
    }
    pairs
}

/// The value that a turn took from what a job had to see is the value that
/// stands with the job in the pairs of the turn.
proof fn lemma_drawn(
    before: Seq<LevelView>,
    after: Seq<LevelView>,
    inner: Map<u32, HashSet<u64>>,
    list: Seq<(u32, Vec<u64>)>,
    pairs: Seq<(u64, u32)>,
    job: u64,
)
    requires
        sampled(before, Set::<u64>::empty(), after, inner),
        same_pairs(list, inner),
        forall|a: int, b: int|
            0 <= a < b < pairs.len() ==> (#[trigger] pairs[a]).0 != (#[trigger] pairs[b]).0,
        forall|j: u64, item: u32| pairs.contains((j, item)) == #[trigger] list_gives(list, j, item),
    ensures
        drawn(before, after, job) == pair_items(pairs, pairs.len() as int, job),
{
    let gone = values_of(before, job).difference(values_of(after, job));
    if exists|p: int| 0 <= p < pairs.len() && p < pairs.len() && (#[trigger] pairs[p]).0 == job {
        let p = choose|p: int|
            0 <= p < pairs.len() && p < pairs.len() && (#[trigger] pairs[p]).0 == job;
        let item = pairs[p].1;
        assert(pairs.contains((job, item)));
        assert(list_gives(list, job, item));
        assert(gets(inner, job, item));
        assert(values_of(after, job) == values_of(before, job).remove(item));
        assert(gone =~= set![item]);
        assert(gone.contains(item));
        assert(gone.choose() == item);
    } else {
        if gets_any(inner, job) {
            let item = choose|item: u32| gets(inner, job, item);
            assert(list_gives(list, job, item));
            assert(pairs.contains((job, item)));
            let p = choose|p: int| 0 <= p < pairs.len() && pairs[p] == (job, item);
            assert(pairs[p].0 == job);
        }
        assert(values_of(after, job) == values_of(before, job));
        assert(gone =~= Set::<u32>::empty());
    }
}

/// What one turn of sampling does, told of the list of what it gives.
pub open spec fn sampled_list(
    before: Seq<LevelView>,
    mask: Set<u64>,
    after: Seq<LevelView>,
    list: Seq<(u32, Vec<u64>)>,
) -> bool {
    &&& exists|res: Map<u32, HashSet<u64>>|
        sampled(before, mask, after, res) && #[trigger] same_pairs(list, res)
    &&& forall|i: int|
        0 <= i < list.len() ==> (#[trigger] list[i]).1@.len() > 0 && list[i].1@.no_duplicates()
    &&& forall|i: int, j: int, job: u64|
        0 <= i < j < list.len() ==> !(#[trigger] list[i].1@.contains(job)
            && #[trigger] list[j].1@.contains(job))
}

/// The tree of the jobs of one dataset, and for each job, from the root
/// down, how many values it has yet to see.
#[derive(Debug)]
pub struct SamplerTree {
    root: Option<Node>,
    job_set: Vec<(u64, u64)>,
    job_buffer: Vec<(u64, VecDeque<u32>)>,
}

impl SamplerTree {
    /// The levels of the tree; none where there is no job.
    pub closed spec fn tree(&self) -> Seq<LevelView> {
        match self.root {
            Some(node) => node@,
            None => Seq::empty(),
        }
    }

    /// The values that are drawn for the job and wait to be given to it, in
    /// the order in which they were drawn.
    pub closed spec fn buffer_of(&self, job: u64) -> Seq<u32> {
        buffer_in(self.job_buffer@, job)
    }

    /// The invariant of the type: the tree is a tree, the list of the jobs
    /// says of each what the tree says, and no job has two buffers.
    pub closed spec fn wf(&self) -> bool {
        &&& forall|a: int, b: int|
            0 <= a < b < self.job_buffer@.len() ==> (#[trigger] self.job_buffer@[a]).0 != (
            #[trigger] self.job_buffer@[b]).0
        &&& match self.root {
            Some(node) => node.wf(),
            None => true,
        }
        &&& self.job_set@.len() == self.tree().len()
        &&& forall|d: int|
            0 <= d < self.tree().len() ==> #[trigger] self.job_set@[d] == (
                self.tree()[d].job,
                values_at(self.tree(), d).len() as u64,
            )
    }

    /// The levels of a tree that has jobs are those of a tree: no job has
    /// two levels, and no value stands twice on the way of a job.
    pub proof fn lemma_tree_wf(&self)
        requires
            self.wf(),
        ensures
            self.tree().len() > 0 ==> tree_wf(self.tree()),
    {
    }

    /// What a job has yet to see are finitely many values.
    pub proof fn lemma_values_finite(&self, job: u64)
        requires
            self.wf(),
        ensures
            values_of(self.tree(), job).finite(),
    {
        let t = self.tree();
        if has_job(t, job) {
            assert(self.root is Some);
            lemma_values_len(t, job_index(t, job));
        }
    }

    /// The tree has no more levels than a list can hold.
    pub proof fn lemma_tree_len(&self)
        requires
            self.wf(),
        ensures
            self.tree().len() <= usize::MAX,
    {
        assert(self.job_set@.len() == self.job_set.len());
    }

    /// A sampler without jobs.
    pub fn new() -> (r: Self)
        ensures
            r.wf(),
            r.tree().len() == 0,
            forall|job: u64| r.buffer_of(job) == Seq::<u32>::empty(),
    {
        SamplerTree { root: None, job_set: Vec::new(), job_buffer: Vec::new() }
    }

    /// Reads the list of the jobs off the tree.
    fn reload(&mut self)
        requires
            match old(self).root {
                Some(node) => node.wf(),
                None => true,
            },
            forall|a: int, b: int|
                0 <= a < b < old(self).job_buffer@.len() ==> (#[trigger] old(self).job_buffer@[a]).0
                    != (#[trigger] old(self).job_buffer@[b]).0,
        ensures
            final(self).root == old(self).root,
            final(self).job_buffer == old(self).job_buffer,
            final(self).wf(),
    {
        let mut job_set: Vec<(u64, u64)> = Vec::new();
        match &self.root {
            Some(node) => {
                node.get_job_set(&mut job_set, 0);
                proof {
                    assert forall|d: int| 0 <= d < node@.len() implies #[trigger] job_set@[d] == (
                        node@[d].job,
                        values_at(node@, d).len() as u64,
                    ) by {
                        assert(job_set@[0 + d] == (
                            node@[d].job,
                            (0 + values_at(node@, d).len()) as u64,
                        ));
                    }
                }
            },
            None => {},
        }
        self.job_set = job_set;
    }

    /// Takes out of the tree the jobs that have seen all their values, and
    /// returns them.
    pub fn clear_loader(&mut self) -> (del_loader: Vec<u64>)
        requires
            old(self).wf(),
        ensures
            final(self).wf(),
            no_job_drained(final(self).tree()),
            forall|job: u64| final(self).buffer_of(job) == old(self).buffer_of(job),
            forall|job: u64| #[trigger]
                values_of(final(self).tree(), job) == values_of(old(self).tree(), job),
            forall|job: u64| #[trigger]
                has_job(final(self).tree(), job) == (has_job(old(self).tree(), job) && values_of(
                    old(self).tree(),
                    job,
                ) != Set::<u32>::empty()),
            forall|job: u64|
                del_loader@.contains(job) == (has_job(old(self).tree(), job) && values_of(
                    old(self).tree(),
                    job,
                ) == Set::<u32>::empty()),
    {
        let ghost t0 = self.tree();
        let mut del_loader: Vec<u64> = Vec::new();
        let mut d: usize = 0;
        while d < self.job_set.len()
            invariant
                self.wf(),
                *self == *old(self),
                t0 == self.tree(),
                0 <= d <= self.job_set@.len(),
                forall|job: u64|
                    del_loader@.contains(job) == (exists|x: int|
                        0 <= x < d && (#[trigger] t0[x]).job == job && values_at(t0, x) == Set::<
                            u32,
                        >::empty()),
            decreases self.job_set@.len() - d,
        {
            let ghost before = del_loader@;
            let entry = self.job_set[d];
            proof {
                assert(tree_wf(t0)) by {
                    assert(self.root is Some);
                }
                lemma_values_len(t0, d as int);
                assert(entry == (t0[d as int].job, values_at(t0, d as int).len() as u64));
                if values_at(t0, d as int).len() == 0 {
                    values_at(t0, d as int).lemma_len0_is_empty();
                    assert(values_at(t0, d as int) =~= Set::<u32>::empty());
                }
            }
            if entry.1 == 0 {
                del_loader.push(entry.0);
            }
            proof {
                let now = del_loader@;
                assert forall|job: u64|
                    now.contains(job) == (exists|x: int|
                        0 <= x < d + 1 && (#[trigger] t0[x]).job == job && values_at(t0, x)
                            == Set::<u32>::empty()) by {
                    let drained_here = values_at(t0, d as int) == Set::<u32>::empty();
                    if now.contains(job) {
                        let k = choose|k: int| 0 <= k < now.len() && now[k] == job;
                        if k < before.len() {
                            assert(before[k] == job);
                            assert(before.contains(job));
                            let x = choose|x: int|
                                0 <= x < d && (#[trigger] t0[x]).job == job && values_at(t0, x)
                                    == Set::<u32>::empty();
                            assert(0 <= x < d + 1);
                        } else {
                            assert(t0[d as int].job == job);
                        }
                    }
                    if exists|x: int|
                        0 <= x < d + 1 && (#[trigger] t0[x]).job == job && values_at(t0, x)
                            == Set::<u32>::empty() {
                        let x = choose|x: int|
                            0 <= x < d + 1 && (#[trigger] t0[x]).job == job && values_at(t0, x)
                                == Set::<u32>::empty();
                        if x < d {
                            assert(before.contains(job));
                            let k = choose|k: int| 0 <= k < before.len() && before[k] == job;
                            assert(now[k] == job);
                        } else {
                            assert(now[before.len() as int] == job);
                        }
                    }
                }
            }
            d += 1;
        }
        proof {
            assert forall|job: u64|
                del_loader@.contains(job) == (has_job(t0, job) && values_of(t0, job) == Set::<
                    u32,
                >::empty()) by {
                if del_loader@.contains(job) {
                    let x = choose|x: int|
                        0 <= x < t0.len() && (#[trigger] t0[x]).job == job && values_at(t0, x)
                            == Set::<u32>::empty();
                    lemma_job_index(t0, x);
                }
                if has_job(t0, job) && values_of(t0, job) == Set::<u32>::empty() {
                    let x = job_index(t0, job);
                    assert(t0[x].job == job);
                }
            }
        }
        if del_loader.len() == 0 {
            proof {
                assert(no_job_drained(t0)) by {
                    assert forall|x: int| 0 <= x < t0.len() implies #[trigger] values_at(t0, x)
                        != Set::<u32>::empty() by {
                        if values_at(t0, x) == Set::<u32>::empty() {
                            lemma_job_index(t0, x);
                            assert(has_job(t0, t0[x].job));
                            assert(del_loader@.contains(t0[x].job));
                        }
                    }
                }
                assert forall|job: u64| #[trigger]
                    has_job(t0, job) == (has_job(t0, job) && values_of(t0, job) != Set::<
                        u32,
                    >::empty()) by {
                    if has_job(t0, job) && values_of(t0, job) == Set::<u32>::empty() {
                        assert(del_loader@.contains(job));
                    }
                }
            }
            return del_loader;
        }
        let mut i: usize = 0;
        while i < del_loader.len()
            invariant
                0 <= i <= del_loader@.len(),
                self.job_buffer == old(self).job_buffer,
                old(self).wf(),
                match self.root {
                    Some(node) => node.wf(),
                    None => true,
                },
                forall|job: u64|
                    del_loader@.contains(job) == (has_job(t0, job) && values_of(t0, job) == Set::<
                        u32,
                    >::empty()),
                forall|job: u64| #[trigger]
                    has_job(self.tree(), job) == (has_job(t0, job) && !del_loader@.take(
                        i as int,
                    ).contains(job)),
                forall|job: u64|
                    has_job(self.tree(), job) ==> #[trigger] values_of(self.tree(), job)
                        == values_of(t0, job),
            decreases del_loader@.len() - i,
        {
            let id = del_loader[i];
            let ghost cur = self.tree();
            let root = self.root.take();
            match root {
                Some(node) => {
                    self.root = node.delete(id);
                },
                None => {},
            }
            proof {
                let now = self.tree();
                let a = del_loader@.take(i as int);
                let b = del_loader@.take(i + 1);
                assert(b =~= a.push(id));
                assert forall|job: u64| b.contains(job) == (a.contains(job) || job == id) by {
                    if b.contains(job) {
                        let k = choose|k: int| 0 <= k < b.len() && b[k] == job;
                        if k < a.len() {
                            assert(a[k] == job);
                        }
                    }
                    if a.contains(job) {
                        let k = choose|k: int| 0 <= k < a.len() && a[k] == job;
                        assert(b[k] == job);
                    }
                    if job == id {
                        assert(b[i as int] == job);
                    }
                }
                assert forall|job: u64| #[trigger]
                    has_job(now, job) == (has_job(t0, job) && !b.contains(job)) by {
                    assert(has_job(cur, job) == (has_job(t0, job) && !a.contains(job)));
                }
                assert forall|job: u64| has_job(now, job) implies #[trigger] values_of(now, job)
                    == values_of(t0, job) by {
                    assert(has_job(cur, job));
                    assert(values_of(cur, job) == values_of(t0, job));
                }
            }
            i += 1;
        }
        proof {
            assert(del_loader@.take(i as int) =~= del_loader@);
            let now = self.tree();
            assert forall|job: u64| #[trigger] values_of(now, job) == values_of(t0, job) by {
                if !has_job(now, job) {
                    if has_job(t0, job) {
                        assert(del_loader@.contains(job));
                    }
                }
            }
            assert(no_job_drained(now)) by {
                assert forall|x: int| 0 <= x < now.len() implies #[trigger] values_at(now, x)
                    != Set::<u32>::empty() by {
                    lemma_job_index(now, x);
                    let job = now[x].job;
                    assert(has_job(now, job));
                    assert(!del_loader@.contains(job));
                }
            }
        }
        self.reload();
        del_loader
    }

    /// Gives the job `id` the values `indices` to see, whatever it had to
    /// see before. A job without values is not in the tree: where a job
    /// that is not in the tree is given no values, the tree stays as it is.
    pub fn insert(&mut self, indices: Vec<u32>, id: u64)
        requires
            old(self).wf(),
        ensures
            final(self).wf(),
            final(self).buffer_of(id) == Seq::<u32>::empty(),
            forall|job: u64| job != id ==> final(self).buffer_of(job) == old(self).buffer_of(job),
            values_of(final(self).tree(), id) == indices@.to_set(),
            has_job(final(self).tree(), id) == (indices@.len() > 0),
            forall|job: u64|
                job != id ==> #[trigger] values_of(final(self).tree(), job) == values_of(
                    old(self).tree(),
                    job,
                ),
            forall|job: u64|
                job != id ==> #[trigger] has_job(final(self).tree(), job) == has_job(
                    old(self).tree(),
                    job,
                ),
            indices@.len() == 0 && !has_job(old(self).tree(), id) ==> final(self).tree() == old(
                self,
            ).tree(),
    {
        self.delete(id);
        self.reset_buffer(id);
        if indices.len() == 0 {
            proof {
                assert(indices@.to_set() =~= Set::<u32>::empty());
            }
            return ;
        }
        let ghost cur = self.tree();
        let node = Node::new(indices, id);
        proof {
            lemma_path_step(node@, 0);
            lemma_job_index(node@, 0);
            assert(values_at(node@, 0) =~= node@[0].node);
        }
        let root = self.root.take();
        match root {
            Some(r) => {
                assert(r@ == cur);
                self.root = Some(r.insert(node));
            },
            None => {
                proof {
                    assert(cur.len() == 0);
                    assert forall|job: u64| job != id implies !has_job(node@, job) by {}
                }
                self.root = Some(node);
            },
        }
        proof {
            let now = self.tree();
            assert(values_of(now, id) == indices@.to_set());
            assert forall|job: u64| job != id implies values_of(now, job) == values_of(cur, job)
                && has_job(now, job) == has_job(cur, job) by {}
        }
        self.reload();
    }

    /// The place of the buffer of `job`.
    fn find_buffer(&self, job: u64) -> (r: Option<usize>)
        ensures
            match r {
                Some(i) => i < self.job_buffer@.len() && self.job_buffer@[i as int].0 == job,
                None => forall|x: int|
                    0 <= x < self.job_buffer@.len() ==> (#[trigger] self.job_buffer@[x]).0 != job,
            },
    {
        let mut i: usize = 0;
        while i < self.job_buffer.len()
            invariant
                0 <= i <= self.job_buffer@.len(),
                forall|x: int| 0 <= x < i ==> (#[trigger] self.job_buffer@[x]).0 != job,
            decreases self.job_buffer@.len() - i,
        {
            if self.job_buffer[i].0 == job {
                return Some(i);
            }
            i += 1;
        }
        None
    }

    /// Puts `buffer` in the place of what waits for `job`.
    fn set_buffer(&mut self, job: u64, buffer: VecDeque<u32>)
        requires
            old(self).wf(),
        ensures
            final(self).wf(),
            final(self).root == old(self).root,
            final(self).job_set == old(self).job_set,
            final(self).buffer_of(job) == buffer@,
            forall|other: u64|
                other != job ==> final(self).buffer_of(other) == old(self).buffer_of(other),
    {
        let ghost before = self.job_buffer@;
        let found = self.find_buffer(job);
        let at = match found {
            Some(i) => {
                self.job_buffer.set(i, (job, buffer));
                i
            },
            None => {
                self.job_buffer.push((job, buffer));
                self.job_buffer.len() - 1
            },
        };
        proof {
            let now = self.job_buffer@;
            assert(now[at as int] == (job, buffer));
            assert forall|a: int, b: int| 0 <= a < b < now.len() implies (#[trigger] now[a]).0 != (
            #[trigger] now[b]).0 by {
                if a != at && b != at {
                    assert(now[a] == before[a] && now[b] == before[b]);
                    assert(before[a].0 != before[b].0);
                } else if a == at {
                    assert(now[b] == before[b]);
                    if at < before.len() {
                        assert(before[a].0 != before[b].0);
                    }
                } else {
                    assert(now[a] == before[a]);
                    if at < before.len() {
                        assert(before[a].0 != before[b].0);
                    }
                }
            }
            lemma_buffer_at(now, at as int);
            assert forall|other: u64| other != job implies self.buffer_of(other) == old(self).buffer_of(other) by {
                if exists|x: int| 0 <= x < before.len() && (#[trigger] before[x]).0 == other {
                    let x = choose|x: int| 0 <= x < before.len() && (#[trigger] before[x]).0 == other;
                    assert(now[x] == before[x]);
                    lemma_buffer_at(now, x);
                    lemma_buffer_at(before, x);
                } else {
                    if exists|x: int| 0 <= x < now.len() && (#[trigger] now[x]).0 == other {
                        let x = choose|x: int| 0 <= x < now.len() && (#[trigger] now[x]).0 == other;
                        assert(x != at);
                        assert(before[x].0 == other);
                    }
                }
            }
        }
    }

    /// Nothing waits for `job` any more.
    fn reset_buffer(&mut self, job: u64)
        requires
            old(self).wf(),
        ensures
            final(self).wf(),
            final(self).root == old(self).root,
            final(self).job_set == old(self).job_set,
            final(self).buffer_of(job) == Seq::<u32>::empty(),
            forall|other: u64|
                other != job ==> final(self).buffer_of(other) == old(self).buffer_of(other),
    {
        self.set_buffer(job, VecDeque::new());
    }

    /// Takes the job `id` out of the tree.
    pub fn delete(&mut self, id: u64)
        requires
            old(self).wf(),
        ensures
            final(self).wf(),
            forall|job: u64| final(self).buffer_of(job) == old(self).buffer_of(job),
            !has_job(final(self).tree(), id),
            values_of(final(self).tree(), id) == Set::<u32>::empty(),
            forall|job: u64|
                job != id ==> #[trigger] values_of(final(self).tree(), job) == values_of(
                    old(self).tree(),
                    job,
                ),
            forall|job: u64|
                job != id ==> #[trigger] has_job(final(self).tree(), job) == has_job(
                    old(self).tree(),
                    job,
                ),
            !has_job(old(self).tree(), id) ==> final(self).tree() == old(self).tree(),
    {
        let ghost t0 = self.tree();
        let root = self.root.take();
        match root {
            Some(node) => {
                if node.find_job(id).is_none() {
                    // The job is not in the tree: the tree stays as it is.
                    self.root = Some(node);
                    return ;
                }
                self.root = node.delete(id);
                proof {
                    if self.root is None {
                        assert forall|job: u64| job != id implies !has_job(t0, job) by {
                            if has_job(t0, job) {
                                let x = job_index(t0, job);
                                assert(t0[x].job == job);
                            }
                        }
                    }
                }
            },
            None => {
                return ;
            },
        }
        self.reload();
    }

    /// The values that `job_id` has yet to see, each once.
    pub fn get_task_values(&self, job_id: u64) -> (res: Vec<u32>)
        requires
            self.wf(),
        ensures
            res@.no_duplicates(),
            forall|v: u32| res@.contains(v) == values_of(self.tree(), job_id).contains(v),
    {
        match &self.root {
            Some(node) => node.get_job_values(job_id),
            None => Vec::new(),
        }
    }

    /// The values that `job_id` has yet to see, each once.
    pub fn get_job_values(&self, job_id: u64) -> (res: Vec<u32>)
        requires
            self.wf(),
        ensures
            res@.no_duplicates(),
            forall|v: u32| res@.contains(v) == values_of(self.tree(), job_id).contains(v),
    {
        self.get_task_values(job_id)
    }

    /// Whether nothing is left to give: no job of the tree has a value left
    /// to see, or a value that waits for it.
    pub fn is_empty(&self) -> (r: bool)
        requires
            self.wf(),
        ensures
            r == (forall|job: u64| #[trigger]
                has_job(self.tree(), job) ==> (values_of(self.tree(), job) == Set::<u32>::empty()
                    && self.buffer_of(job).len() == 0)),
    {
        let ghost t = self.tree();
        let mut d: usize = 0;
        while d < self.job_set.len()
            invariant
                self.wf(),
                t == self.tree(),
                0 <= d <= self.job_set@.len(),
                forall|x: int| 0 <= x < d ==> #[trigger] values_at(t, x) == Set::<u32>::empty(),
                forall|x: int| 0 <= x < d ==> self.buffer_of((#[trigger] t[x]).job).len() == 0,
            decreases self.job_set@.len() - d,
        {
            proof {
                assert(self.root is Some);
                lemma_values_len(t, d as int);
                lemma_job_index(t, d as int);
                assert(self.job_set@[d as int] == (
                    t[d as int].job,
                    values_at(t, d as int).len() as u64,
                ));
                if values_at(t, d as int).len() == 0 {
                    values_at(t, d as int).lemma_len0_is_empty();
                    assert(values_at(t, d as int) =~= Set::<u32>::empty());
                }
            }
            if self.job_set[d].1 != 0 {
                assert(has_job(t, t[d as int].job));
                assert(values_of(t, t[d as int].job) != Set::<u32>::empty());
                return false;
            }
            let ghost job = t[d as int].job;
            let waits = match self.find_buffer(self.job_set[d].0) {
                Some(i) => {
                    proof {
                        lemma_buffer_at(self.job_buffer@, i as int);
                        assert(self.buffer_of(job) == self.job_buffer@[i as int].1@);
                    }
                    self.job_buffer[i].1.len()
                },
                None => {
                    proof {
                        assert(self.buffer_of(job) == Seq::<u32>::empty());
                    }
                    0
                },
            };
            assert(waits == self.buffer_of(job).len());
            if waits != 0 {
                assert(has_job(t, job));
                return false;
            }
            assert(self.buffer_of(t[d as int].job).len() == 0);
            d += 1;
        }
        proof {
            assert forall|job: u64| #[trigger] has_job(t, job) implies values_of(t, job) == Set::<
                u32,
            >::empty() && self.buffer_of(job).len() == 0 by {
                let x = job_index(t, job);
                assert(t[x].job == job);
                assert(values_at(t, x) == Set::<u32>::empty());
            }
        }
        true
    }

    /// One turn of sampling: each job that is not in `mask` and has a value
    /// left to see is given one of them. The values of the result are keyed
    /// by the value, each with the jobs that are given it.
    ///
    /// The jobs that have seen everything leave the tree, the turn is
    /// decided, and each decision is carried out: its value is drawn, given
    /// to its jobs but for the masked ones, and put back for the jobs of
    /// its node that were not given it. Then the tree is balanced again, and
    /// the jobs that have now seen everything leave.
    pub fn sample(&mut self, mask: &HashSet<u64>) -> (res: HashMap<u32, HashSet<u64>>)
        requires
            old(self).wf(),
        ensures
            final(self).wf(),
            no_job_drained(final(self).tree()),
            forall|job: u64| final(self).buffer_of(job) == old(self).buffer_of(job),
            sampled(old(self).tree(), mask@, final(self).tree(), res@),
    {
        let (res, _) = self.turn(mask);
        res
    }

    /// One turn of sampling, as `sample` makes it. What the turn gives is
    /// returned twice: keyed by the value, and as the list of the values
    /// drawn, each with the jobs that are given it.
    pub fn turn(&mut self, mask: &HashSet<u64>) -> (r: (
        HashMap<u32, HashSet<u64>>,
        Vec<(u32, Vec<u64>)>,
    ))
        requires
            old(self).wf(),
        ensures
            final(self).wf(),
            no_job_drained(final(self).tree()),
            forall|job: u64| final(self).buffer_of(job) == old(self).buffer_of(job),
            sampled(old(self).tree(), mask@, final(self).tree(), r.0@),
            same_pairs(r.1@, r.0@),
            sampled_list(old(self).tree(), mask@, final(self).tree(), r.1@),
            forall|i: int|
                0 <= i < r.1@.len() ==> (#[trigger] r.1@[i]).1@.len() > 0 && r.1@[i].1@.no_duplicates(),
            forall|i: int, j: int, job: u64|
                0 <= i < j < r.1@.len() ==> !(#[trigger] r.1@[i].1@.contains(job)
                    && #[trigger] r.1@[j].1@.contains(job)),
    {
        let ghost t_init = self.tree();
        self.clear_loader();
        let ghost t0 = self.tree();
        let mut res: HashMap<u32, HashSet<u64>> = HashMap::new();
        let mut list: Vec<(u32, Vec<u64>)> = Vec::new();
        let root = self.root.take();
        let mut node = match root {
            Some(node) => node,
            None => {
                proof {
                    assert forall|job: u64| !has_job(t0, job) by {}
                    assert forall|job: u64| values_of(t_init, job) == Set::<u32>::empty() by {
                        assert(values_of(t0, job) == values_of(t_init, job));
                    }
                    assert forall|job: u64, item: u32| !gets(res@, job, item) by {}
                }
                return (res, list);
            },
        };
        let mut rng = new_rng();
        let mut decisions: Vec<Decision> = Vec::new();
        node.decide(&mut decisions, &mut rng);
        let ghost decs0 = decisions@;
        let ghost mut i: int = 0;
        let ghost mut src: Seq<int> = Seq::empty();
        proof {
            assert(decisions@ =~= decs0.skip(0));
            assert forall|job: u64, item: u32| !gets(res@, job, item) by {}
            assert(turn_inv(t0, node@, res@, mask@, decs0, 0));
        }
        while decisions.len() > 0
            invariant
                node.wf(),
                tree_wf(t0),
                0 <= i <= decs0.len(),
                decisions@ == decs0.skip(i),
                decisions_fit(t0, decs0),
                turn_inv(t0, node@, res@, mask@, decs0, i),
                forall|j: int|
                    i <= j < decs0.len() ==> source(node@, (#[trigger] decs0[j])@) != Set::<
                        u32,
                    >::empty(),
                same_pairs(list@, res@),
                forall|k: int|
                    0 <= k < list@.len() ==> (#[trigger] list@[k]).1@.len() > 0
                        && list@[k].1@.no_duplicates(),
                src.len() == list@.len(),
                forall|k: int| 0 <= k < src.len() ==> 0 <= #[trigger] src[k] < i,
                forall|a: int, b: int| 0 <= a < b < src.len() ==> #[trigger] src[a] < #[trigger] src[b],
                forall|k: int, job: u64|
                    0 <= k < list@.len() && #[trigger] list@[k].1@.contains(job)
                        ==> decs0[src[k]]@.jobs.contains(job),
            decreases decisions@.len(),
        {
            let ghost cur = node@;
            let ghost res0 = res@;
            let mut dec = decisions.remove(0);
            proof {
                assert(dec == decs0[i]);
                assert(decisions@ =~= decs0.skip(i + 1));
                assert(decision_fits(t0, dec@));
                assert(decision_fits(cur, dec@)) by {
                    assert forall|k: int| 0 <= k < dec@.jobs.len() implies exists|y: int|
                        0 <= y < cur.len() && serves(dec@, y) && (#[trigger] cur[y]).job
                            == #[trigger] dec@.jobs[k] by {
                        let y = choose|y: int|
                            0 <= y < t0.len() && serves(dec@, y) && (#[trigger] t0[y]).job
                                == dec@.jobs[k];
                        assert(cur[y].job == t0[y].job);
                    }
                }
            }
            let item = dec.execute(&mut node, mask, &mut rng);
            let ghost mid = node@;
            proof {
                assert forall|y: int|
                    0 <= y < mid.len() && dec@.compensation.contains(mid[y].job) implies !(
                #[trigger] values_at(mid, y)).contains(dec@.item) by {
                    if y != decs0[i]@.depth {
                        assert(mid[y] == cur[y]);
                    }
                    assert(dec@.compensation.contains(cur[y].job));
                }
            }
            dec.complent(&mut node);
            let loaders = dec.get_loaders();
            record(&mut res, item, &loaders);
            let ghost list0 = list@;
            let ghost src0 = src;
            if loaders.len() > 0 {
                list.push((item, loaders));
                proof {
                    src = src.push(i);
                }
            }
            proof {
                assert forall|k: int, job: u64|
                    0 <= k < list@.len() && #[trigger] list@[k].1@.contains(
                        job,
                    ) implies decs0[src[k]]@.jobs.contains(job) by {
                    if k < list0.len() {
                        assert(list@[k] == list0[k]);
                        assert(src[k] == src0[k]);
                    }
                }
                assert forall|a: int, b: int| 0 <= a < b < src.len() implies #[trigger] src[a]
                    < #[trigger] src[b] by {
                    if b < src0.len() {
                        assert(src0[a] < src0[b]);
                    } else {
                        assert(src0[a] < i);
                    }
                }
            }
            proof {
                assert forall|job: u64, it: u32|
                    gets(res@, job, it) == #[trigger] list_gives(list@, job, it) by {
                    assert(gets(res0, job, it) == list_gives(list0, job, it));
                    if list_gives(list0, job, it) {
                        let k = choose|k: int|
                            0 <= k < list0.len() && (#[trigger] list0[k]).0 == it
                                && list0[k].1@.contains(job);
                        assert(list@[k] == list0[k]);
                    }
                    if list_gives(list@, job, it) {
                        let k = choose|k: int|
                            0 <= k < list@.len() && (#[trigger] list@[k]).0 == it
                                && list@[k].1@.contains(job);
                        if k < list0.len() {
                            assert(list0[k] == list@[k]);
                        }
                    }
                    if it == item && dec@.jobs.contains(job) {
                        assert(list@.len() == list0.len() + 1);
                        assert(list@[list0.len() as int].0 == it);
                    }
                }
            }
            proof {
                lemma_turn_step(
                    t0,
                    cur,
                    mid,
                    node@,
                    res0,
                    res@,
                    mask@,
                    decs0,
                    i,
                    dec@,
                    item,
                );
                assert forall|j: int| i + 1 <= j < decs0.len() implies source(
                    node@,
                    (#[trigger] decs0[j])@,
                ) != Set::<u32>::empty() by {
                    let other = decs0[j]@;
                    let this = decs0[i]@;
                    assert(decision_fits(t0, other));
                    assert(!(this.depth == other.depth && this.leaf == other.leaf));
                    assert(source(cur, other) != Set::<u32>::empty());
                    assert(source(cur, other).subset_of(source(node@, other))) by {
                        if other.depth != this.depth {
                            assert(mid[other.depth] == cur[other.depth]);
                        }
                        assert(mid[other.depth].node.subset_of(node@[other.depth].node));
                        assert(mid[other.depth].leaf.subset_of(node@[other.depth].leaf));
                    }
                    if source(node@, other) == Set::<u32>::empty() {
                        assert(source(cur, other) =~= Set::<u32>::empty());
                    }
                }
                i = i + 1;
            }
        }
        let ghost t1 = node@;
        node.rebalance();
        let ghost t2 = node@;
        self.root = Some(node);
        self.reload();
        self.clear_loader();
        proof {
            lemma_turn_done(t_init, t0, t1, t2, self.tree(), res@, mask@, decs0);
            assert forall|a: int, b: int, job: u64| 0 <= a < b < list@.len() implies !(
            #[trigger] list@[a].1@.contains(job) && #[trigger] list@[b].1@.contains(job)) by {
                if list@[a].1@.contains(job) && list@[b].1@.contains(job) {
                    assert(src[a] < src[b]);
                    assert(decs0[src[a]]@.jobs.contains(job));
                    assert(decs0[src[b]]@.jobs.contains(job));
                }
            }
        }
        (res, list)
    }

    /// One turn of sampling through the buffers. Every job that has a value
    /// left to see draws one, masked or not, and the value joins the values
    /// that wait for the job. Each job that is not in `mask` and for which
    /// a value waits is then given the one that has waited longest.
    pub fn sample_with_buffer(&mut self, mask: &HashSet<u64>) -> (res: HashMap<u32, HashSet<u64>>)
        requires
            old(self).wf(),
        ensures
            final(self).wf(),
            no_job_drained(final(self).tree()),
            exists|inner: Map<u32, HashSet<u64>>| #[trigger]
                sampled(old(self).tree(), Set::<u64>::empty(), final(self).tree(), inner),
            forall|job: u64| #[trigger]
                buffered_turn(
                    old(self).buffer_of(job) + drawn(old(self).tree(), final(self).tree(), job),
                    mask@.contains(job),
                    final(self).buffer_of(job),
                    res@,
                    job,
                ),
    {
        broadcast use vstd::std_specs::hash::group_hash_axioms;

        let ghost t0 = self.tree();
        let ghost buffers0 = self.job_buffer@;
        let ghost s0 = *self;
        let nobody: HashSet<u64> = HashSet::new();
        let (inner, list) = self.turn(&nobody);
        let ghost t1 = self.tree();
        let pairs = flatten(&list);
        proof {
            assert(nobody@ =~= Set::<u64>::empty());
            assert forall|job: u64|
                #[trigger] drawn(t0, t1, job) == pair_items(pairs@, pairs@.len() as int, job) by {
                lemma_drawn(t0, t1, inner@, list@, pairs@, job);
            }
        }
        // The values drawn join the values that wait.
        let mut p: usize = 0;
        while p < pairs.len()
            invariant
                0 <= p <= pairs@.len(),
                self.wf(),
                t1 == self.tree(),
                no_job_drained(t1),
                forall|a: int, b: int|
                    0 <= a < b < pairs@.len() ==> (#[trigger] pairs@[a]).0 != (#[trigger] pairs@[b]).0,
                forall|job: u64|
                    #[trigger] self.buffer_of(job) == s0.buffer_of(job) + pair_items(
                        pairs@,
                        p as int,
                        job,
                    ),
            decreases pairs@.len() - p,
        {
            let (job, item) = pairs[p];
            let ghost before = *self;
            let mut buffer = self.take_buffer(job);
            buffer.push_back(item);
            self.set_buffer(job, buffer);
            proof {
                assert forall|other: u64|
                    #[trigger] self.buffer_of(other) == s0.buffer_of(other) + pair_items(
                        pairs@,
                        p + 1,
                        other,
                    ) by {
                    lemma_pair_items_step(pairs@, p as int, other);
                    if other == job {
                        assert(pair_items(pairs@, p as int, job) =~= Seq::<u32>::empty());
                        assert(self.buffer_of(job) =~= before.buffer_of(job).push(item));
                        assert(before.buffer_of(job) =~= s0.buffer_of(job));
                        assert(s0.buffer_of(job).push(item) =~= s0.buffer_of(job) + seq![item]);
                    } else {
                        assert(self.buffer_of(other) == before.buffer_of(other));
                    }
                }
            }
            p += 1;
        }
        let ghost s1 = *self;
        let ghost buffers1 = self.job_buffer@;
        // Each job that is not masked is given the value that has waited
        // longest for it.
        let mut res: HashMap<u32, HashSet<u64>> = HashMap::new();
        let total = self.job_buffer.len();
        let mut i: usize = 0;
        while i < total
            invariant
                0 <= i <= total,
                total == buffers1.len(),
                buffers1 == s1.job_buffer@,
                self.root == s1.root,
                self.job_set == s1.job_set,
                s1.wf(),
                self.job_buffer@.len() == total,
                forall|x: int| 0 <= x < total ==> (#[trigger] self.job_buffer@[x]).0 == buffers1[x].0,
                forall|x: int| i <= x < total ==> (#[trigger] self.job_buffer@[x]) == buffers1[x],
                forall|x: int|
                    0 <= x < i ==> #[trigger] buffered_turn(
                        buffers1[x].1@,
                        mask@.contains(buffers1[x].0),
                        self.job_buffer@[x].1@,
                        res@,
                        buffers1[x].0,
                    ),
                forall|job: u64, it: u32| #[trigger]
                    gets(res@, job, it) ==> exists|x: int|
                        0 <= x < i && (#[trigger] buffers1[x]).0 == job,
            decreases total - i,
        {
            let job = self.job_buffer[i].0;
            let ghost res0 = res@;
            let ghost table0 = self.job_buffer@;
            proof {
                assert(table0[i as int] == buffers1[i as int]);
                assert forall|it: u32| !gets(res0, job, it) by {
                    if gets(res0, job, it) {
                        let x = choose|x: int| 0 <= x < i && (#[trigger] buffers1[x]).0 == job;
                        assert(buffers1[x].0 != buffers1[i as int].0);
                    }
                }
            }
            if !is_masked(mask, job) && self.job_buffer[i].1.len() > 0 {
                let mut entry = self.job_buffer.remove(i);
                let ghost waiting = entry.1@;
                let value = entry.1.pop_front();
                let ghost left = entry.1@;
                self.job_buffer.insert(i, entry);
                match value {
                    Some(v) => {
                        let mut single: Vec<u64> = Vec::new();
                        single.push(job);
                        record(&mut res, v, &single);
                        proof {
                            assert(single@ =~= seq![job]);
                            assert(v == waiting[0] && left =~= waiting.skip(1));
                            assert forall|other: u64| single@.contains(other) == (other == job) by {
                                if other == job {
                                    assert(single@[0] == job);
                                }
                            }
                            assert(gets(res@, job, v));
                            assert(buffered_turn(
                                buffers1[i as int].1@,
                                mask@.contains(job),
                                self.job_buffer@[i as int].1@,
                                res@,
                                job,
                            ));
                        }
                    },
                    None => {},
                }
            } else {
                proof {
                    assert(!gets_any(res@, job));
                }
            }
            proof {
                let now = self.job_buffer@;
                assert forall|x: int| 0 <= x < total implies (#[trigger] now[x]).0
                    == buffers1[x].0 by {
                    if x != i {
                        assert(now[x] == table0[x]);
                    }
                }
                assert forall|x: int| i + 1 <= x < total implies (#[trigger] now[x])
                    == buffers1[x] by {
                    assert(now[x] == table0[x]);
                }
                assert forall|x: int| 0 <= x < i + 1 implies #[trigger] buffered_turn(
                    buffers1[x].1@,
                    mask@.contains(buffers1[x].0),
                    now[x].1@,
                    res@,
                    buffers1[x].0,
                ) by {
                    if x < i {
                        assert(now[x] == table0[x]);
                        assert(buffers1[x].0 != buffers1[i as int].0);
                        assert(buffered_turn(
                            buffers1[x].1@,
                            mask@.contains(buffers1[x].0),
                            table0[x].1@,
                            res0,
                            buffers1[x].0,
                        ));
                        assert forall|it: u32|
                            gets(res@, buffers1[x].0, it) == gets(res0, buffers1[x].0, it) by {}
                        if gets_any(res@, buffers1[x].0) {
                            let it = choose|it: u32| gets(res@, buffers1[x].0, it);
                            assert(gets(res0, buffers1[x].0, it));
                        }
                    }
                }
                assert forall|other: u64, it: u32| #[trigger]
                    gets(res@, other, it) implies exists|x: int|
                    0 <= x < i + 1 && (#[trigger] buffers1[x]).0 == other by {
                    if gets(res0, other, it) {
                        let x = choose|x: int| 0 <= x < i && (#[trigger] buffers1[x]).0 == other;
                        assert(0 <= x < i + 1);
                    } else {
                        assert(buffers1[i as int].0 == other);
                    }
                }
            }
            i += 1;
        }
        proof {
            let now = self.job_buffer@;
            assert forall|a: int, b: int| 0 <= a < b < now.len() implies (#[trigger] now[a]).0 != (
            #[trigger] now[b]).0 by {
                assert(buffers1[a].0 != buffers1[b].0);
            }
            assert forall|job: u64| #[trigger]
                buffered_turn(
                    s0.buffer_of(job) + drawn(t0, t1, job),
                    mask@.contains(job),
                    self.buffer_of(job),
                    res@,
                    job,
                ) by {
                let q = s0.buffer_of(job) + drawn(t0, t1, job);
                assert(s1.buffer_of(job) == q);
                if exists|x: int| 0 <= x < total && (#[trigger] buffers1[x]).0 == job {
                    let x = choose|x: int| 0 <= x < total && (#[trigger] buffers1[x]).0 == job;
                    lemma_buffer_at(buffers1, x);
                    assert(now[x].0 == job);
                    lemma_buffer_at(now, x);
                    assert(buffered_turn(
                        buffers1[x].1@,
                        mask@.contains(buffers1[x].0),
                        now[x].1@,
                        res@,
                        buffers1[x].0,
                    ));
                } else {
                    assert(q =~= Seq::<u32>::empty());
                    if exists|x: int| 0 <= x < now.len() && (#[trigger] now[x]).0 == job {
                        let x = choose|x: int| 0 <= x < now.len() && (#[trigger] now[x]).0 == job;
                        assert(buffers1[x].0 == job);
                    }
                    assert(self.buffer_of(job) =~= Seq::<u32>::empty());
                    if gets_any(res@, job) {
                        let it = choose|it: u32| gets(res@, job, it);
                        let x = choose|x: int| 0 <= x < total && (#[trigger] buffers1[x]).0 == job;
                    }
                }
            }
            assert(sampled(t0, Set::<u64>::empty(), t1, inner@));
        }
        res
    }

    /// Takes what waits for `job` out of its buffer.
    fn take_buffer(&mut self, job: u64) -> (r: VecDeque<u32>)
        requires
            old(self).wf(),
        ensures
            final(self).wf(),
            final(self).root == old(self).root,
            final(self).job_set == old(self).job_set,
            r@ == old(self).buffer_of(job),
            forall|other: u64|
                other != job ==> final(self).buffer_of(other) == old(self).buffer_of(other),
    {
        let ghost before = self.job_buffer@;
        match self.find_buffer(job) {
            Some(i) => {
                proof {
                    lemma_buffer_at(before, i as int);
                }
                let entry = self.job_buffer.remove(i);
                proof {
                    let now = self.job_buffer@;
                    assert forall|a: int, b: int| 0 <= a < b < now.len() implies (
                    #[trigger] now[a]).0 != (#[trigger] now[b]).0 by {
                        let a2 = if a < i { a } else { a + 1 };
                        let b2 = if b < i { b } else { b + 1 };
                        assert(now[a] == before[a2] && now[b] == before[b2]);
                        assert(before[a2].0 != before[b2].0);
                    }
                    assert forall|other: u64| other != job implies self.buffer_of(other) == old(self).buffer_of(other) by {
                        if exists|x: int| 0 <= x < before.len() && (#[trigger] before[x]).0 == other {
                            let x = choose|x: int|
                                0 <= x < before.len() && (#[trigger] before[x]).0 == other;
                            let x2 = if x < i { x } else { x - 1 };
                            assert(now[x2] == before[x]);
                            lemma_buffer_at(now, x2);
                            lemma_buffer_at(before, x);
                        } else {
                            if exists|x: int| 0 <= x < now.len() && (#[trigger] now[x]).0 == other {
                                let x = choose|x: int|
                                    0 <= x < now.len() && (#[trigger] now[x]).0 == other;
                                let x2 = if x < i { x } else { x + 1 };
                                assert(before[x2] == now[x]);
                            }
                        }
                    }
                }
                entry.1
            },
            None => VecDeque::new(),
        }
    }
}

/// Notes that a turn gives `item` to the jobs `jobs`.
pub fn record(res: &mut HashMap<u32, HashSet<u64>>, item: u32, jobs: &Vec<u64>)
    ensures
        forall|job: u64, it: u32| #[trigger]
            gets(final(res)@, job, it) == (gets(old(res)@, job, it) || (it == item
                && jobs@.contains(job))),
        (forall|it: u32| #[trigger]
            old(res)@.contains_key(it) ==> exists|job: u64| old(res)@[it]@.contains(job))
            ==> (forall|it: u32| #[trigger]
            final(res)@.contains_key(it) ==> exists|job: u64| final(res)@[it]@.contains(job)),
{
    broadcast use vstd::std_specs::hash::group_hash_axioms;

    if jobs.len() == 0 {
        return ;
    }
    let ghost before = res@;
    let found = res.remove(&item);
    let ghost had: Set<u64> = if before.contains_key(item) {
        before[item]@
    } else {
        Set::empty()
    };
    let mut set: HashSet<u64> = match found {
        Some(s) => s,
        None => HashSet::new(),
    };
    assert(set@ == had);
    let mut k: usize = 0;
    while k < jobs.len()
        invariant
            0 <= k <= jobs@.len(),
            forall|job: u64|
                #[trigger] set@.contains(job) == (had.contains(job) || jobs@.take(
                    k as int,
                ).contains(job)),
        decreases jobs@.len() - k,
    {
        let ghost set0 = set@;
        set.insert(jobs[k]);
        proof {
            broadcast use vstd::std_specs::hash::group_hash_axioms;

            assert(set@ == set0.insert(jobs@[k as int]));
            let a = jobs@.take(k as int);
            let b = jobs@.take(k + 1);
            assert(b =~= a.push(jobs@[k as int]));
            assert forall|job: u64| b.contains(job) == (a.contains(job) || job == jobs@[k as int]) by {
                if b.contains(job) {
                    let x = choose|x: int| 0 <= x < b.len() && b[x] == job;
                    if x < a.len() {
                        assert(a[x] == job);
                    }
                }
                if a.contains(job) {
                    let x = choose|x: int| 0 <= x < a.len() && a[x] == job;
                    assert(b[x] == job);
                }
                if job == jobs@[k as int] {
                    assert(b[k as int] == job);
                }
            }
            assert forall|job: u64| #[trigger]
                set@.contains(job) == (had.contains(job) || b.contains(job)) by {
                assert(set0.contains(job) == (had.contains(job) || a.contains(job)));
            }
        }
        k += 1;
    }
    proof {
        assert(jobs@.take(k as int) =~= jobs@);
        assert(jobs@[0] == jobs@[0]);
        assert(jobs@.contains(jobs@[0]));
        assert(set@.contains(jobs@[0]));
    }
    let ghost filled = set@;
    res.insert(item, set);
    proof {
        assert(res@.contains_key(item) && res@[item]@ == filled);
        assert forall|job: u64| #[trigger]
            filled.contains(job) == (had.contains(job) || jobs@.contains(job)) by {}
        assert forall|job: u64, it: u32| #[trigger]
            gets(res@, job, it) == (gets(before, job, it) || (it == item && jobs@.contains(job))) by {
            if it == item {
                assert(res@[item]@ == filled);
                assert(filled.contains(job) == (had.contains(job) || jobs@.contains(job)));
                assert(gets(before, job, item) == had.contains(job));
            } else {
                assert(res@.contains_key(it) == before.contains_key(it));
                if before.contains_key(it) {
                    assert(res@[it] == before[it]);
                }
            }
        }
        if forall|it: u32| #[trigger]
            before.contains_key(it) ==> exists|job: u64| before[it]@.contains(job) {
            assert forall|it: u32| #[trigger] res@.contains_key(it) implies exists|job: u64|
                res@[it]@.contains(job) by {
                if it == item {
                    assert(res@[item]@.contains(jobs@[0]));
                } else {
                    assert(before.contains_key(it));
                    assert(res@[it] == before[it]);
                    let job = choose|job: u64| before[it]@.contains(job);
                    assert(res@[it]@.contains(job));
                }
            }
        }
    }
}

/// What holds while the decisions of a turn are carried out, once the
/// first `i` of them are: the tree has the jobs of the tree `t0` that the
/// turn began with; a job that was given a value has that one value less to
/// see, and is not masked; a job that was given none has to see what it
/// had; only jobs of the decisions carried out were given a value, and each
/// of those that is not masked was.
pub open spec fn turn_inv(
    t0: Seq<LevelView>,
    cur: Seq<LevelView>,
    res: Map<u32, HashSet<u64>>,
    mask: Set<u64>,
    decs0: Seq<Decision>,
    i: int,
) -> bool {
    &&& cur.len() == t0.len()
    &&& forall|y: int| 0 <= y < t0.len() ==> (#[trigger] cur[y]).job == t0[y].job
    &&& forall|y: int, item: u32|
        0 <= y < t0.len() && #[trigger] gets(res, t0[y].job, item) ==> values_at(t0, y).contains(
            item,
        ) && values_at(cur, y) == values_at(t0, y).remove(item) && !mask.contains(t0[y].job)
    &&& forall|y: int|
        0 <= y < t0.len() && !gets_any(res, t0[y].job) ==> #[trigger] values_at(cur, y)
            == values_at(t0, y)
    &&& forall|job: u64, item: u32| #[trigger]
        gets(res, job, item) ==> exists|j: int|
            0 <= j < i && j < decs0.len() && (#[trigger] decs0[j])@.jobs.contains(job)
    &&& forall|j: int, job: u64|
        0 <= j < i && j < decs0.len() && (#[trigger] decs0[j])@.jobs.contains(job)
            && !mask.contains(job) ==> #[trigger] gets_any(res, job)
    &&& forall|item: u32| #[trigger]
        res.contains_key(item) ==> exists|job: u64| res[item]@.contains(job)
}

/// Carrying out one more decision keeps what holds while a turn is carried
/// out.
proof fn lemma_turn_step(
    t0: Seq<LevelView>,
    cur: Seq<LevelView>,
    mid: Seq<LevelView>,
    now: Seq<LevelView>,
    res0: Map<u32, HashSet<u64>>,
    res: Map<u32, HashSet<u64>>,
    mask: Set<u64>,
    decs0: Seq<Decision>,
    i: int,
    dec: crate::sampler::decision::DecisionView,
    item: u32,
)
    requires
        tree_wf(t0),
        decisions_fit(t0, decs0),
        0 <= i < decs0.len(),
        turn_inv(t0, cur, res0, mask, decs0, i),
        dec.depth == decs0[i]@.depth,
        dec.leaf == decs0[i]@.leaf,
        forall|id: u64| #[trigger]
            dec.jobs.contains(id) == (decs0[i]@.jobs.contains(id) && !mask.contains(id)),
        mid.len() == cur.len(),
        forall|y: int| 0 <= y < cur.len() ==> (#[trigger] mid[y]).job == cur[y].job,
        forall|y: int|
            0 <= y < cur.len() ==> #[trigger] values_at(mid, y) == (if serves(decs0[i]@, y) {
                values_at(cur, y).remove(item)
            } else {
                values_at(cur, y)
            }),
        forall|y: int|
            0 <= y < cur.len() && serves(decs0[i]@, y) ==> (#[trigger] values_at(cur, y)).contains(
                item,
            ),
        forall|y: int|
            0 <= y < cur.len() ==> dec.compensation.contains(#[trigger] cur[y].job) == (serves(
                decs0[i]@,
                y,
            ) && !dec.jobs.contains(cur[y].job)),
        now.len() == mid.len(),
        forall|y: int| 0 <= y < mid.len() ==> (#[trigger] now[y]).job == mid[y].job,
        forall|y: int|
            0 <= y < mid.len() ==> #[trigger] values_at(now, y) == (if dec.compensation.contains(
                mid[y].job,
            ) {
                values_at(mid, y).insert(item)
            } else {
                values_at(mid, y)
            }),
        forall|job: u64, it: u32| #[trigger]
            gets(res, job, it) == (gets(res0, job, it) || (it == item && dec.jobs.contains(job))),
        forall|it: u32| #[trigger] res.contains_key(it) ==> exists|job: u64| res[it]@.contains(job),
    ensures
        turn_inv(t0, now, res, mask, decs0, i + 1),
{
    let this = decs0[i]@;
    assert(decision_fits(t0, this));
    // A job of this decision was given nothing before.
    assert forall|job: u64| this.jobs.contains(job) implies !gets_any(res0, job) by {
        if gets_any(res0, job) {
            let it = choose|it: u32| gets(res0, job, it);
            let j = choose|j: int|
                0 <= j < i && j < decs0.len() && (#[trigger] decs0[j])@.jobs.contains(job);
            assert(!(decs0[j]@.jobs.contains(job) && decs0[i]@.jobs.contains(job)));
        }
    }
    // A job of this decision stands at a level that its node serves.
    assert forall|y: int| 0 <= y < t0.len() && this.jobs.contains(t0[y].job) implies serves(
        this,
        y,
    ) by {
        let k = choose|k: int| 0 <= k < this.jobs.len() && this.jobs[k] == t0[y].job;
        let z = choose|z: int|
            0 <= z < t0.len() && serves(this, z) && (#[trigger] t0[z]).job == this.jobs[k];
        if z < y {
            assert(t0[z].job != t0[y].job);
        } else if z > y {
            assert(t0[y].job != t0[z].job);
        }
    }
    assert forall|y: int| 0 <= y < t0.len() implies (#[trigger] now[y]).job == t0[y].job by {
        assert(mid[y].job == cur[y].job);
        assert(cur[y].job == t0[y].job);
    }
    assert forall|y: int| 0 <= y < t0.len() implies #[trigger] values_at(now, y) == (
    if dec.jobs.contains(t0[y].job) {
        values_at(cur, y).remove(item)
    } else {
        values_at(cur, y)
    }) by {
        assert(mid[y].job == cur[y].job);
        assert(cur[y].job == t0[y].job);
        let va = values_at(mid, y);
        if serves(this, y) {
            assert(values_at(cur, y).contains(item));
            if !dec.jobs.contains(t0[y].job) {
                assert(dec.compensation.contains(cur[y].job));
                assert(values_at(cur, y).remove(item).insert(item) =~= values_at(cur, y));
            } else {
                assert(!dec.compensation.contains(cur[y].job));
            }
        } else {
            assert(!dec.compensation.contains(cur[y].job));
            assert(!dec.jobs.contains(t0[y].job));
        }
    }
    assert forall|y: int, it: u32| 0 <= y < t0.len() && #[trigger] gets(res, t0[y].job, it)
        implies values_at(t0, y).contains(it) && values_at(now, y) == values_at(t0, y).remove(it)
        && !mask.contains(t0[y].job) by {
        let job = t0[y].job;
        let va = values_at(now, y);
        if dec.jobs.contains(job) {
            assert(this.jobs.contains(job));
            assert(!gets_any(res0, job));
            assert(!gets(res0, job, it));
            assert(it == item);
            assert(values_at(cur, y) == values_at(t0, y));
            assert(serves(this, y));
        } else {
            assert(gets(res0, job, it));
        }
    }
    assert forall|y: int| 0 <= y < t0.len() && !gets_any(res, t0[y].job) implies #[trigger] values_at(
        now,
        y,
    ) == values_at(t0, y) by {
        let job = t0[y].job;
        if dec.jobs.contains(job) {
            assert(gets(res, job, item));
        }
        if gets_any(res0, job) {
            let it = choose|it: u32| gets(res0, job, it);
            assert(gets(res, job, it));
        }
        assert(values_at(now, y) == values_at(cur, y));
    }
    assert forall|job: u64, it: u32| #[trigger] gets(res, job, it) implies exists|j: int|
        0 <= j < i + 1 && j < decs0.len() && (#[trigger] decs0[j])@.jobs.contains(job) by {
        if gets(res0, job, it) {
            let j = choose|j: int|
                0 <= j < i && j < decs0.len() && (#[trigger] decs0[j])@.jobs.contains(job);
            assert(0 <= j < i + 1);
        } else {
            assert(decs0[i]@.jobs.contains(job));
        }
    }
    assert forall|j: int, job: u64|
        0 <= j < i + 1 && j < decs0.len() && (#[trigger] decs0[j])@.jobs.contains(job)
            && !mask.contains(job) implies #[trigger] gets_any(res, job) by {
        if j < i {
            assert(gets_any(res0, job));
            let it = choose|it: u32| gets(res0, job, it);
            assert(gets(res, job, it));
        } else {
            assert(dec.jobs.contains(job));
            assert(gets(res, job, item));
        }
    }
}

/// Once all the decisions of a turn are carried out, and the tree is
/// balanced and cleared, the turn has done what a turn does.
proof fn lemma_turn_done(
    t_init: Seq<LevelView>,
    t0: Seq<LevelView>,
    t1: Seq<LevelView>,
    t2: Seq<LevelView>,
    t3: Seq<LevelView>,
    res: Map<u32, HashSet<u64>>,
    mask: Set<u64>,
    decs0: Seq<Decision>,
)
    requires
        tree_wf(t0),
        tree_wf(t1),
        forall|job: u64| #[trigger] values_of(t0, job) == values_of(t_init, job),
        forall|job: u64| #[trigger]
            has_job(t0, job) == (has_job(t_init, job) && values_of(t_init, job) != Set::<
                u32,
            >::empty()),
        forall|id: u64| job_decided(decs0, id) == has_job(t0, id),
        turn_inv(t0, t1, res, mask, decs0, decs0.len() as int),
        forall|k: u64| has_job(t2, k) == has_job(t1, k),
        forall|k: u64| values_of(t2, k) == values_of(t1, k),
        forall|job: u64| #[trigger] values_of(t3, job) == values_of(t2, job),
        forall|job: u64| #[trigger]
            has_job(t3, job) == (has_job(t2, job) && values_of(t2, job) != Set::<u32>::empty()),
    ensures
        sampled(t_init, mask, t3, res),
{
    assert forall|job: u64| has_job(t1, job) == has_job(t0, job) by {
        if has_job(t1, job) {
            let y = job_index(t1, job);
            assert(t1[y].job == job);
            assert(t0[y].job == job);
        }
        if has_job(t0, job) {
            let y = job_index(t0, job);
            assert(t0[y].job == job);
            assert(t1[y].job == job);
        }
    }
    assert forall|job: u64| has_job(t0, job) implies values_of(t0, job) == values_at(
        t0,
        job_index(t0, job),
    ) && values_of(t1, job) == values_at(t1, job_index(t0, job)) && t0[job_index(t0, job)].job
        == job && 0 <= job_index(t0, job) < t0.len() by {
        let y = job_index(t0, job);
        assert(t0[y].job == job);
        assert(t1[y].job == job);
        lemma_job_index(t0, y);
        lemma_job_index(t1, y);
    }
    assert forall|job: u64, item: u32| #[trigger] gets(res, job, item) implies has_job(
        t_init,
        job,
    ) && !mask.contains(job) && values_of(t_init, job).contains(item) && values_of(t3, job)
        == values_of(t_init, job).remove(item) by {
        let j = choose|j: int|
            0 <= j < decs0.len() && j < decs0.len() && (#[trigger] decs0[j])@.jobs.contains(job);
        assert(job_decided(decs0, job));
        assert(has_job(t0, job));
        let y = job_index(t0, job);
        assert(gets(res, t0[y].job, item));
        assert(values_of(t3, job) == values_of(t2, job));
        assert(values_of(t0, job) == values_of(t_init, job));
    }
    assert forall|job: u64| !gets_any(res, job) implies #[trigger] values_of(t3, job) == values_of(
        t_init,
        job,
    ) by {
        assert(values_of(t3, job) == values_of(t2, job));
        assert(values_of(t0, job) == values_of(t_init, job));
        if has_job(t0, job) {
            let y = job_index(t0, job);
            assert(!gets_any(res, t0[y].job));
            assert(values_at(t1, y) == values_at(t0, y));
        } else {
            assert(!has_job(t1, job));
        }
    }
    assert forall|job: u64|
        has_job(t_init, job) && !mask.contains(job) && values_of(t_init, job) != Set::<u32>::empty()
        implies #[trigger] gets_any(res, job) by {
        assert(has_job(t0, job));
        assert(job_decided(decs0, job));
        let j = choose|j: int| 0 <= j < decs0.len() && (#[trigger] decs0[j])@.jobs.contains(job);
        assert(0 <= j < decs0.len() && j < decs0.len() && decs0[j]@.jobs.contains(job));
    }
    assert forall|job: u64| #[trigger]
        has_job(t3, job) == (has_job(t_init, job) && values_of(t3, job) != Set::<u32>::empty()) by {
        assert(values_of(t3, job) == values_of(t2, job));
        assert(values_of(t0, job) == values_of(t_init, job));
        assert(has_job(t3, job) == (has_job(t2, job) && values_of(t2, job) != Set::<u32>::empty()));
        if values_of(t3, job) != Set::<u32>::empty() && has_job(t_init, job) {
            if gets_any(res, job) {
                let item = choose|item: u32| gets(res, job, item);
                assert(values_of(t_init, job).contains(item));
            } else {
                assert(values_of(t3, job) == values_of(t_init, job));
            }
            assert(values_of(t_init, job) != Set::<u32>::empty());
            assert(has_job(t0, job));
        }
    }
}

/// A job sees each of its values once. Over a turn, the values that a job
/// has seen and those that it has yet to see stay, together, the values of
/// the job: the turn gives the job at most one value, one that it had yet to
/// see, and the job then has all the others yet to see, and no other value.
/// A job with something to see that is not masked is given a value.
pub proof fn law_job_sees_each_value_once(
    before: Seq<LevelView>,
    mask: Set<u64>,
    after: Seq<LevelView>,
    res: Map<u32, HashSet<u64>>,
    job: u64,
    seen: Set<u32>,
    all: Set<u32>,
)
    requires
        sampled(before, mask, after, res),
        seen.disjoint(values_of(before, job)),
        seen.union(values_of(before, job)) == all,
    ensures
        ({
            let got = Set::new(|item: u32| gets(res, job, item));
            &&& got.subset_of(values_of(before, job))
            &&& got.disjoint(seen)
            &&& seen.union(got).disjoint(values_of(after, job))
            &&& seen.union(got).union(values_of(after, job)) == all
            &&& forall|a: u32, b: u32| got.contains(a) && got.contains(b) ==> a == b
            &&& has_job(before, job) && !mask.contains(job) && values_of(before, job) != Set::<
                u32,
            >::empty() ==> exists|item: u32| got.contains(item)
        }),
{
    let got = Set::new(|item: u32| gets(res, job, item));
    assert forall|a: u32, b: u32| got.contains(a) && got.contains(b) implies a == b by {
        assert(gets(res, job, a) && gets(res, job, b));
        assert(values_of(after, job) == values_of(before, job).remove(a));
        assert(values_of(after, job) == values_of(before, job).remove(b));
        assert(values_of(before, job).contains(a));
        if a != b {
            assert(values_of(before, job).remove(b).contains(a));
        }
    }
    if gets_any(res, job) {
        let item = choose|item: u32| gets(res, job, item);
        assert(got.contains(item));
        assert(values_of(after, job) == values_of(before, job).remove(item));
        assert(got =~= set![item]);
    } else {
        assert(got =~= Set::<u32>::empty());
        assert(values_of(after, job) == values_of(before, job));
    }
    assert(seen.union(got).union(values_of(after, job)) =~= all);
    if has_job(before, job) && !mask.contains(job) && values_of(before, job) != Set::<u32>::empty() {
        assert(gets_any(res, job));
        let item = choose|item: u32| gets(res, job, item);
        assert(got.contains(item));
    }
}

/// A job that is not in the tree is given nothing by a turn, and is not in
/// the tree after it: so a job that was taken out is given nothing more.
pub proof fn law_absent_job_is_given_nothing(
    before: Seq<LevelView>,
    mask: Set<u64>,
    after: Seq<LevelView>,
    res: Map<u32, HashSet<u64>>,
    job: u64,
)
    requires
        sampled(before, mask, after, res),
        !has_job(before, job),
    ensures
        !gets_any(res, job),
        forall|item: u32| !gets(res, job, item),
        !has_job(after, job),
        values_of(after, job) == Set::<u32>::empty(),
{
    assert forall|item: u32| !gets(res, job, item) by {}
    assert(has_job(after, job) == (has_job(before, job) && values_of(after, job) != Set::<
        u32,
    >::empty()));
}

} // verus!
