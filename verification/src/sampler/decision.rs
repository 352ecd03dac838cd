//! What one turn of sampling decides: which node gives a value, and to which
//! jobs.
use crate::sampler::sampler_node::{same_but, values_at, LevelView, Node};
use rand::rngs::SmallRng;
use std::collections::HashSet;
use vstd::prelude::*;

verus! {

/// One decision of a turn: the node that gives a value, the jobs that take
/// it, and, once the value is drawn, the value and the jobs of the node that
/// have yet to see it.
#[derive(Debug)]
pub struct Decision {
    depth: usize,
    leaf: bool,
    loader_ids: Vec<u64>,
    compensation: Vec<u64>,
    item: u32,
}

/// A decision as plain values.
pub struct DecisionView {
    /// The level of the node.
    pub depth: int,
    /// Whether the node is the left leaf of its level, not its node on the
    /// spine.
    pub leaf: bool,
    /// The jobs that take the value.
    pub jobs: Seq<u64>,
    /// The jobs of the node that have yet to see the value.
    pub compensation: Seq<u64>,
    /// The value.
    pub item: u32,
}

impl View for Decision {
    type V = DecisionView;

    closed spec fn view(&self) -> DecisionView {
        DecisionView {
            depth: self.depth as int,
            leaf: self.leaf,
            jobs: self.loader_ids@,
            compensation: self.compensation@,
            item: self.item,
        }
    }
}

/// Whether the node of the decision holds values that the job of level `y`
/// has yet to see: the left leaf of a level serves the job of that level, a
/// node of the spine the jobs of its level and below.
pub open spec fn serves(dec: DecisionView, y: int) -> bool {
    if dec.leaf {
        y == dec.depth
    } else {
        y >= dec.depth
    }
}

/// The values of the node of a decision.
pub open spec fn source(t: Seq<LevelView>, dec: DecisionView) -> Set<u32> {
    if dec.leaf {
        t[dec.depth].leaf
    } else {
        t[dec.depth].node
    }
}

/// A decision fits a tree where its node is a node of the tree that holds a
/// value, and each of its jobs, none named twice, is a job that the node
/// serves.
pub open spec fn decision_fits(t: Seq<LevelView>, dec: DecisionView) -> bool {
    &&& 0 <= dec.depth < t.len()
    &&& dec.leaf ==> dec.depth + 1 < t.len()
    &&& source(t, dec) != Set::<u32>::empty()
    &&& dec.jobs.no_duplicates()
    &&& forall|i: int|
        0 <= i < dec.jobs.len() ==> exists|y: int|
            0 <= y < t.len() && serves(dec, y) && (#[trigger] t[y]).job == #[trigger] dec.jobs[i]
}

/// The decisions of a turn fit a tree where each fits it, no two have the
/// same node, and no job is in two of them.
pub open spec fn decisions_fit(t: Seq<LevelView>, decs: Seq<Decision>) -> bool {
    &&& forall|i: int| 0 <= i < decs.len() ==> decision_fits(t, (#[trigger] decs[i])@)
    &&& forall|i: int, j: int|
        0 <= i < j < decs.len() ==> !((#[trigger] decs[i])@.depth == (#[trigger] decs[j])@.depth
            && decs[i]@.leaf == decs[j]@.leaf)
    &&& forall|i: int, j: int, id: u64|
        0 <= i < j < decs.len() ==> !(#[trigger] decs[i]@.jobs.contains(id)
            && #[trigger] decs[j]@.jobs.contains(id))
}

/// Whether one of the decisions gives a value to `id`.
pub open spec fn job_decided(decs: Seq<Decision>, id: u64) -> bool {
    exists|i: int| 0 <= i < decs.len() && (#[trigger] decs[i])@.jobs.contains(id)
}

impl Decision {
    /// The decision that the node at level `depth` gives a value to the jobs
    /// `loader_ids`.
    pub fn new(depth: usize, leaf: bool, loader_ids: Vec<u64>) -> (r: Self)
        ensures
            r@.depth == depth,
            r@.leaf == leaf,
            r@.jobs == loader_ids@,
            r@.compensation == Seq::<u64>::empty(),
            r@.item == 0,
    {
        Decision { depth, leaf, loader_ids, compensation: Vec::new(), item: 0 }
    }

    /// The jobs that take the value.
    pub fn get_loaders(&self) -> (r: Vec<u64>)
        ensures
            r@ == self@.jobs,
    {
        self.loader_ids.clone()
    }

    /// Draws the value of the decision from its node in the tree `root`.
    /// The jobs of `mask` take no value this turn and leave the decision.
    /// The jobs of the node that are not left in the decision are kept as
    /// those that have yet to see the value.
    pub fn execute(&mut self, root: &mut Node, mask: &HashSet<u64>, rng: &mut SmallRng) -> (item:
        u32)
        requires
            old(root).wf(),
            decision_fits(old(root)@, old(self)@),
        ensures
            final(root).wf(),
            final(self)@.depth == old(self)@.depth,
            final(self)@.leaf == old(self)@.leaf,
            final(self)@.item == item,
            final(self)@.jobs.no_duplicates(),
            forall|id: u64| #[trigger]
                final(self)@.jobs.contains(id) == (old(self)@.jobs.contains(id) && !mask@.contains(
                    id,
                )),
            same_but(old(root)@, final(root)@, old(self)@.depth),
            final(root)@[old(self)@.depth].node == if old(self)@.leaf {
                old(root)@[old(self)@.depth].node
            } else {
                old(root)@[old(self)@.depth].node.remove(item)
            },
            final(root)@[old(self)@.depth].leaf == if old(self)@.leaf {
                old(root)@[old(self)@.depth].leaf.remove(item)
            } else {
                old(root)@[old(self)@.depth].leaf
            },
            forall|y: int|
                0 <= y < old(root)@.len() ==> #[trigger] values_at(final(root)@, y) == (if serves(
                    old(self)@,
                    y,
                ) {
                    values_at(old(root)@, y).remove(item)
                } else {
                    values_at(old(root)@, y)
                }),
            forall|y: int|
                0 <= y < old(root)@.len() && serves(old(self)@, y) ==> (#[trigger] values_at(
                    old(root)@,
                    y,
                )).contains(item),
            forall|y: int|
                0 <= y < old(root)@.len() ==> final(self)@.compensation.contains(
                    #[trigger] old(root)@[y].job,
                ) == (serves(old(self)@, y) && !final(self)@.jobs.contains(old(root)@[y].job)),
    {
        let ghost before = self@.jobs;
        let mut kept: Vec<u64> = Vec::new();
        let mut i: usize = 0;
        while i < self.loader_ids.len()
            invariant
                0 <= i <= self.loader_ids@.len(),
                self.loader_ids@ == before,
                before.no_duplicates(),
                kept@.no_duplicates(),
                forall|id: u64|
                    kept@.contains(id) == (before.take(i as int).contains(id) && !mask@.contains(id)),
            decreases self.loader_ids@.len() - i,
        {
            let id = self.loader_ids[i];
            let ghost kept0 = kept@;
            if !is_masked(mask, id) {
                kept.push(id);
            }
            proof {
                let a = before.take(i as int);
                let b = before.take(i + 1);
                assert(b =~= a.push(id));
                assert(!a.contains(id)) by {
                    if a.contains(id) {
                        let k = choose|k: int| 0 <= k < a.len() && a[k] == id;
                        assert(before[k] == before[i as int]);
                    }
                }
                assert forall|x: u64| b.contains(x) == (a.contains(x) || x == id) by {
                    if b.contains(x) {
                        let k = choose|k: int| 0 <= k < b.len() && b[k] == x;
                        if k < a.len() {
                            assert(a[k] == x);
                        }
                    }
                    if a.contains(x) {
                        let k = choose|k: int| 0 <= k < a.len() && a[k] == x;
                        assert(b[k] == x);
                    }
                    if x == id {
                        assert(b[i as int] == x);
                    }
                }
                if !mask@.contains(id) {
                    assert(kept@ == kept0.push(id));
                    assert forall|x: u64| kept@.contains(x) == (kept0.contains(x) || x == id) by {
                        if kept@.contains(x) {
                            let k = choose|k: int| 0 <= k < kept@.len() && kept@[k] == x;
                            if k < kept0.len() {
                                assert(kept0[k] == x);
                            }
                        }
                        if kept0.contains(x) {
                            let k = choose|k: int| 0 <= k < kept0.len() && kept0[k] == x;
                            assert(kept@[k] == x);
                        }
                        if x == id {
                            assert(kept@[kept0.len() as int] == x);
                        }
                    }
                    assert forall|a1: int, b1: int|
                        0 <= a1 < kept@.len() && 0 <= b1 < kept@.len() && a1 != b1 implies kept@[a1]
                        != kept@[b1] by {
                        if a1 < kept0.len() && b1 < kept0.len() {
                            assert(kept0[a1] != kept0[b1]);
                        } else if a1 < kept0.len() {
                            assert(kept0.contains(kept0[a1]));
                        } else if b1 < kept0.len() {
                            assert(kept0.contains(kept0[b1]));
                        }
                    }
                } else {
                    assert(kept@ == kept0);
                }
                assert forall|x: u64|
                    kept@.contains(x) == (b.contains(x) && !mask@.contains(x)) by {
                    assert(kept0.contains(x) == (a.contains(x) && !mask@.contains(x)));
                    assert(b.contains(x) == (a.contains(x) || x == id));
                    if !mask@.contains(id) {
                        assert(kept@.contains(x) == (kept0.contains(x) || x == id));
                    }
                }
            }
            i += 1;
        }
        proof {
            assert(before.take(i as int) =~= before);
        }
        self.loader_ids = kept;
        let ghost t = root@;
        assert(source(t, old(self)@).len() > 0) by {
            let src = source(t, old(self)@);
            assert(src.finite());
            if src.len() == 0 {
                src.lemma_len0_is_empty();
            }
        }
        let (item, compensation) = root.random_choose(self.depth, self.leaf, &self.loader_ids, rng);
        self.compensation = compensation;
        self.item = item;
        item
    }

    /// Puts the value of the decision back into the tree `root` for the jobs
    /// that have yet to see it.
    pub fn complent(&mut self, root: &mut Node)
        requires
            old(root).wf(),
            forall|y: int|
                0 <= y < old(root)@.len() && old(self)@.compensation.contains(old(root)@[y].job)
                    ==> !(#[trigger] values_at(old(root)@, y)).contains(old(self)@.item),
        ensures
            final(self)@ == old(self)@,
            final(root).wf(),
            final(root)@.len() == old(root)@.len(),
            forall|y: int|
                0 <= y < old(root)@.len() ==> (#[trigger] final(root)@[y]).job == old(root)@[y].job
                    && old(root)@[y].node.subset_of(final(root)@[y].node) && old(
                    root,
                )@[y].leaf.subset_of(final(root)@[y].leaf),
            forall|y: int|
                0 <= y < old(root)@.len() ==> #[trigger] values_at(final(root)@, y) == (
                if old(self)@.compensation.contains(old(root)@[y].job) {
                    values_at(old(root)@, y).insert(old(self)@.item)
                } else {
                    values_at(old(root)@, y)
                }),
    {
        if self.compensation.len() == 0 {
            proof {
                assert forall|y: int| 0 <= y < root@.len() implies !self@.compensation.contains(
                    #[trigger] root@[y].job,
                ) by {}
            }
            return ;
        }
        root.complent(&self.compensation, self.item);
    }
}

/// Whether `id` is one of the jobs of `mask`.
pub fn is_masked(mask: &HashSet<u64>, id: u64) -> (r: bool)
    ensures
        r == mask@.contains(id),
{
    broadcast use vstd::std_specs::hash::group_hash_axioms;

    mask.contains(&id)
}

/// Lets the node at level `depth` give a value to `job` as well: as one more
/// job of the decision that names the node, or by a decision of its own.
pub(crate) fn assign(
    decisions: &mut Vec<Decision>,
    depth: usize,
    leaf: bool,
    job: u64,
    Ghost(t): Ghost<Seq<LevelView>>,
    Ghost(y): Ghost<int>,
)
    requires
        decisions_fit(t, old(decisions)@),
        !job_decided(old(decisions)@, job),
        depth < t.len(),
        leaf ==> depth + 1 < t.len(),
        (if leaf {
            t[depth as int].leaf
        } else {
            t[depth as int].node
        }) != Set::<u32>::empty(),
        0 <= y < t.len(),
        t[y].job == job,
        if leaf {
            y == depth
        } else {
            y >= depth
        },
    ensures
        decisions_fit(t, final(decisions)@),
        forall|id: u64|
            job_decided(final(decisions)@, id) == (job_decided(old(decisions)@, id) || id == job),
{
    let ghost old_decs = decisions@;
    let mut i: usize = 0;
    while i < decisions.len() && !(decisions[i].depth == depth && decisions[i].leaf == leaf)
        invariant
            0 <= i <= decisions@.len(),
            decisions@ == old_decs,
            forall|x: int|
                0 <= x < i ==> !((#[trigger] decisions@[x])@.depth == depth && decisions@[x]@.leaf
                    == leaf),
        decreases decisions@.len() - i,
    {
        i += 1;
    }
    if i < decisions.len() {
        let mut dec = decisions.remove(i);
        let ghost before = dec@;
        assert(dec == old_decs[i as int]);
        dec.loader_ids.push(job);
        let ghost after = dec@;
        decisions.insert(i, dec);
        proof {
            let decs = decisions@;
            assert(after.jobs == before.jobs.push(job));
            assert(!before.jobs.contains(job)) by {
                if before.jobs.contains(job) {
                    assert(old_decs[i as int]@.jobs.contains(job));
                }
            }
            assert forall|x: int| 0 <= x < decs.len() && x != i implies decs[x] == old_decs[x] by {}
            assert forall|id: u64| after.jobs.contains(id) == (before.jobs.contains(id) || id
                == job) by {
                if after.jobs.contains(id) {
                    let k = choose|k: int| 0 <= k < after.jobs.len() && after.jobs[k] == id;
                    if k < before.jobs.len() {
                        assert(before.jobs[k] == id);
                    }
                }
                if before.jobs.contains(id) {
                    let k = choose|k: int| 0 <= k < before.jobs.len() && before.jobs[k] == id;
                    assert(after.jobs[k] == id);
                }
                if id == job {
                    assert(after.jobs[before.jobs.len() as int] == id);
                }
            }
            assert(decision_fits(t, after)) by {
                assert(decision_fits(t, old_decs[i as int]@));
                assert forall|k: int| 0 <= k < after.jobs.len() implies exists|z: int|
                    0 <= z < t.len() && serves(after, z) && (#[trigger] t[z]).job
                        == #[trigger] after.jobs[k] by {
                    if k < before.jobs.len() {
                        assert(after.jobs[k] == before.jobs[k]);
                        let z = choose|z: int|
                            0 <= z < t.len() && serves(before, z) && (#[trigger] t[z]).job
                                == before.jobs[k];
                        assert(serves(after, z) && t[z].job == after.jobs[k]);
                    } else {
                        assert(serves(after, y) && t[y].job == after.jobs[k]);
                    }
                }
                assert forall|a: int, b: int|
                    0 <= a < after.jobs.len() && 0 <= b < after.jobs.len() && a != b implies after.jobs[a]
                    != after.jobs[b] by {
                    if a < before.jobs.len() && b < before.jobs.len() {
                        assert(before.jobs[a] != before.jobs[b]);
                    } else if a < before.jobs.len() {
                        assert(before.jobs.contains(before.jobs[a]));
                    } else if b < before.jobs.len() {
                        assert(before.jobs.contains(before.jobs[b]));
                    }
                }
            }
            assert forall|x: int| 0 <= x < decs.len() implies decision_fits(
                t,
                (#[trigger] decs[x])@,
            ) by {
                if x != i {
                    assert(decision_fits(t, old_decs[x]@));
                }
            }
            assert forall|a: int, b: int| 0 <= a < b < decs.len() implies !((#[trigger] decs[a])@.depth
                == (#[trigger] decs[b])@.depth && decs[a]@.leaf == decs[b]@.leaf) by {
                assert(!(old_decs[a]@.depth == old_decs[b]@.depth && old_decs[a]@.leaf
                    == old_decs[b]@.leaf));
            }
            assert forall|a: int, b: int, id: u64| 0 <= a < b < decs.len() implies !(
            #[trigger] decs[a]@.jobs.contains(id) && #[trigger] decs[b]@.jobs.contains(id)) by {
                assert(!(old_decs[a]@.jobs.contains(id) && old_decs[b]@.jobs.contains(id)));
                if id == job {
                    if a != i && decs[a]@.jobs.contains(id) {
                        assert(old_decs[a]@.jobs.contains(job));
                    }
                    if b != i && decs[b]@.jobs.contains(id) {
                        assert(old_decs[b]@.jobs.contains(job));
                    }
                }
            }
            assert forall|id: u64| job_decided(decs, id) == (job_decided(old_decs, id) || id
                == job) by {
                if job_decided(decs, id) {
                    let x = choose|x: int| 0 <= x < decs.len() && (#[trigger] decs[x])@.jobs.contains(
                        id,
                    );
                    if x != i {
                        assert(old_decs[x]@.jobs.contains(id));
                    } else if id != job {
                        assert(old_decs[i as int]@.jobs.contains(id));
                    }
                }
                if job_decided(old_decs, id) {
                    let x = choose|x: int|
                        0 <= x < old_decs.len() && (#[trigger] old_decs[x])@.jobs.contains(id);
                    assert(decs[x]@.jobs.contains(id));
                }
                if id == job {
                    assert(decs[i as int]@.jobs.contains(id));
                }
            }
        }
    } else {
        let mut loader_ids: Vec<u64> = Vec::new();
        loader_ids.push(job);
        let dec = Decision::new(depth, leaf, loader_ids);
        let ghost dv = dec@;
        decisions.push(dec);
        proof {
            let decs = decisions@;
            let n = old_decs.len() as int;
            assert(dv.jobs =~= seq![job]);
            assert(decision_fits(t, dv)) by {
                assert forall|k: int| 0 <= k < dv.jobs.len() implies exists|z: int|
                    0 <= z < t.len() && serves(dv, z) && (#[trigger] t[z]).job
                        == #[trigger] dv.jobs[k] by {
                    assert(serves(dv, y) && t[y].job == dv.jobs[k]);
                }
            }
            assert forall|x: int| 0 <= x < decs.len() implies decision_fits(
                t,
                (#[trigger] decs[x])@,
            ) by {
                if x < n {
                    assert(decs[x] == old_decs[x]);
                    assert(decision_fits(t, old_decs[x]@));
                }
            }
            assert forall|a: int, b: int| 0 <= a < b < decs.len() implies !((#[trigger] decs[a])@.depth
                == (#[trigger] decs[b])@.depth && decs[a]@.leaf == decs[b]@.leaf) by {
                assert(decs[a] == old_decs[a]);
                if b < n {
                    assert(decs[b] == old_decs[b]);
                    assert(!(old_decs[a]@.depth == old_decs[b]@.depth && old_decs[a]@.leaf
                        == old_decs[b]@.leaf));
                }
            }
            assert forall|a: int, b: int, id: u64| 0 <= a < b < decs.len() implies !(
            #[trigger] decs[a]@.jobs.contains(id) && #[trigger] decs[b]@.jobs.contains(id)) by {
                assert(decs[a] == old_decs[a]);
                if b < n {
                    assert(decs[b] == old_decs[b]);
                    assert(!(old_decs[a]@.jobs.contains(id) && old_decs[b]@.jobs.contains(id)));
                } else if decs[b]@.jobs.contains(id) {
                    assert(id == job);
                    if decs[a]@.jobs.contains(id) {
                        assert(old_decs[a]@.jobs.contains(job));
                    }
                }
            }
            assert forall|id: u64| job_decided(decs, id) == (job_decided(old_decs, id) || id
                == job) by {
                if job_decided(decs, id) {
                    let x = choose|x: int| 0 <= x < decs.len() && (#[trigger] decs[x])@.jobs.contains(
                        id,
                    );
                    if x < n {
                        assert(decs[x] == old_decs[x]);
                        assert(old_decs[x]@.jobs.contains(id));
                    }
                }
                if job_decided(old_decs, id) {
                    let x = choose|x: int|
                        0 <= x < old_decs.len() && (#[trigger] old_decs[x])@.jobs.contains(id);
                    assert(decs[x] == old_decs[x]);
                    assert(decs[x]@.jobs.contains(id));
                }
                if id == job {
                    assert(dv.jobs[0] == job);
                    assert(decs[n]@.jobs.contains(id));
                }
            }
        }
    }
}

} // verus!
