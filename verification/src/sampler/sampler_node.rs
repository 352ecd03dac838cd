//! The sampler tree of some jobs.
//!
//! A tree over `n` jobs is a right spine of `n` nodes. Every node of the
//! spine but the last has a leaf as its left child, which belongs to one job;
//! the last node of the spine is itself the leaf of the last job. A node of
//! the spine holds values that all the jobs below it share. The tree is kept
//! as the list of its levels, from the root down: a node of the spine, its
//! left leaf and that leaf's job.
use crate::sampler::decision::{assign, decisions_fit, job_decided, Decision};
use crate::sampler::random::{random_below, random_weight, weights_sum};
use crate::sampler::values_set::ValueSet;
use rand::rngs::SmallRng;
use vstd::prelude::*;
use vstd::set_lib::{lemma_len_subset, lemma_set_disjoint_lens};

verus! {

/// One level of a tree: the values of the node on the spine, the values of
/// its left leaf, and the job that owns that leaf. On the last level the
/// node is the job's own leaf and `leaf` is empty.
pub struct LevelView {
    pub node: Set<u32>,
    pub leaf: Set<u32>,
    pub job: u64,
}

/// The values held by the nodes of the spine above level `d`.
pub open spec fn path_values(t: Seq<LevelView>, d: int) -> Set<u32> {
    Set::new(|v: u32| exists|x: int| 0 <= x < d && x < t.len() && in_node(t, x, v))
}

/// Whether the node of the spine at level `x` holds `v`.
pub open spec fn in_node(t: Seq<LevelView>, x: int, v: u32) -> bool {
    t[x].node.contains(v)
}

/// The values that the job of level `d` has yet to see: those of the spine
/// down to its level, and those of its leaf.
pub open spec fn values_at(t: Seq<LevelView>, d: int) -> Set<u32> {
    path_values(t, d + 1).union(t[d].leaf)
}

/// Whether `job` is one of the jobs of the tree.
pub open spec fn has_job(t: Seq<LevelView>, job: u64) -> bool {
    exists|d: int| 0 <= d < t.len() && (#[trigger] t[d]).job == job
}

/// The level of `job`.
pub open spec fn job_index(t: Seq<LevelView>, job: u64) -> int {
    choose|d: int| 0 <= d < t.len() && (#[trigger] t[d]).job == job
}

/// The values that `job` has yet to see; none for a job that is not in the
/// tree.
pub open spec fn values_of(t: Seq<LevelView>, job: u64) -> Set<u32> {
    if has_job(t, job) {
        values_at(t, job_index(t, job))
    } else {
        Set::empty()
    }
}

/// The jobs of the node of the spine at level `d`: those of its level and of
/// the levels below.
pub open spec fn node_jobs(t: Seq<LevelView>, d: int) -> Set<u64> {
    Set::new(|job: u64| exists|x: int| d <= x < t.len() && 0 <= x && (#[trigger] t[x]).job == job)
}

/// The jobs of the left leaf at level `d`.
pub open spec fn leaf_jobs(t: Seq<LevelView>, d: int) -> Set<u64> {
    set![t[d].job]
}

/// The shape that every tree has: each job has one level; the last level has
/// no left leaf; and no value stands twice on the way from the root to a
/// leaf.
pub open spec fn tree_wf(t: Seq<LevelView>) -> bool {
    &&& t.len() > 0
    &&& forall|x: int, y: int| 0 <= x < y < t.len() ==> (#[trigger] t[x]).job != (#[trigger] t[y]).job
    &&& t[t.len() - 1].leaf == Set::<u32>::empty()
    &&& forall|x: int, y: int|
        0 <= x < y < t.len() ==> (#[trigger] t[x]).node.disjoint((#[trigger] t[y]).node)
    &&& forall|x: int, d: int|
        0 <= x <= d < t.len() ==> (#[trigger] t[x]).node.disjoint((#[trigger] t[d]).leaf)
    &&& forall|d: int| 0 <= d < t.len() ==> (#[trigger] t[d]).node.finite() && t[d].leaf.finite()
}

/// No job of the tree has seen all its values.
pub open spec fn no_job_drained(t: Seq<LevelView>) -> bool {
    forall|d: int| 0 <= d < t.len() ==> #[trigger] values_at(t, d) != Set::<u32>::empty()
}

/// The number of values on the spine above level `d`.
pub open spec fn path_len(t: Seq<LevelView>, d: int) -> nat
    decreases d,
{
    if d <= 0 {
        0
    } else {
        path_len(t, d - 1) + t[d - 1].node.len()
    }
}

/// In a tree, a job stands at the level at which it is found.
pub proof fn lemma_job_index(t: Seq<LevelView>, d: int)
    requires
        tree_wf(t),
        0 <= d < t.len(),
    ensures
        has_job(t, t[d].job),
        job_index(t, t[d].job) == d,
        values_of(t, t[d].job) == values_at(t, d),
{
    let job = t[d].job;
    let e = job_index(t, job);
    if e < d {
        assert(t[e].job != t[d].job);
    } else if e > d {
        assert(t[d].job != t[e].job);
    }
}

/// The values above a level are those above the level before, and those of
/// that level's node.
pub proof fn lemma_path_step(t: Seq<LevelView>, d: int)
    requires
        0 <= d < t.len(),
    ensures
        path_values(t, d + 1) == path_values(t, d).union(t[d].node),
        path_values(t, 0) == Set::<u32>::empty(),
{
    assert forall|v: u32|
        path_values(t, d + 1).contains(v) == (path_values(t, d).contains(v) || t[d].node.contains(
            v,
        )) by {
        if path_values(t, d + 1).contains(v) {
            let x = choose|x: int| 0 <= x < d + 1 && x < t.len() && in_node(t, x, v);
            if x < d {
                assert(in_node(t, x, v));
            }
        }
        if path_values(t, d).contains(v) {
            let x = choose|x: int| 0 <= x < d && x < t.len() && in_node(t, x, v);
            assert(in_node(t, x, v));
        }
        if t[d].node.contains(v) {
            assert(in_node(t, d, v));
        }
    }
    assert(path_values(t, d + 1) =~= path_values(t, d).union(t[d].node));
    assert(path_values(t, 0) =~= Set::<u32>::empty());
}

/// A finite set of 32-bit values has at most 2^32 of them.
pub proof fn lemma_u32_set_len(s: Set<u32>)
    requires
        s.finite(),
    ensures
        s.len() <= 0x1_0000_0000,
{
    let full = Set::<u32>::full();
    assert(full =~= Set::range_inclusive(u32::MIN, u32::MAX));
    vstd::set_lib::range_set_properties::<u32>(u32::MIN, u32::MAX);
    assert(Set::<u32>::range(u32::MIN, u32::MAX).insert(u32::MAX).len() <= 0x1_0000_0000) by {
        broadcast use vstd::set::group_set_axioms;

    }
    assert(full.finite()) by {
        broadcast use vstd::set::group_set_axioms;

    }
    lemma_len_subset(s, full);
}

/// In a tree the spine above a level holds as many values as its nodes do
/// together.
pub proof fn lemma_path_len(t: Seq<LevelView>, d: int)
    requires
        tree_wf(t),
        0 <= d <= t.len(),
    ensures
        path_values(t, d).finite(),
        path_values(t, d).len() == path_len(t, d),
        path_len(t, d) <= 0x1_0000_0000,
    decreases d,
{
    if d == 0 {
        assert(path_values(t, 0) =~= Set::<u32>::empty());
    } else {
        lemma_path_len(t, d - 1);
        lemma_path_step(t, d - 1);
        assert(path_values(t, d - 1).disjoint(t[d - 1].node)) by {
            assert forall|v: u32| #[trigger] path_values(t, d - 1).contains(v) implies !t[d
                - 1].node.contains(v) by {
                let x = choose|x: int| 0 <= x < d - 1 && x < t.len() && in_node(t, x, v);
                assert(t[x].node.disjoint(t[d - 1].node));
            }
        }
        lemma_set_disjoint_lens(path_values(t, d - 1), t[d - 1].node);
        vstd::set_lib::lemma_set_union_finite_iff(path_values(t, d - 1), t[d - 1].node);
        lemma_u32_set_len(path_values(t, d));
    }
}

/// In a tree a job has yet to see as many values as the spine down to its
/// level and its leaf hold together.
pub proof fn lemma_values_len(t: Seq<LevelView>, d: int)
    requires
        tree_wf(t),
        0 <= d < t.len(),
    ensures
        values_at(t, d).finite(),
        values_at(t, d).len() == path_len(t, d + 1) + t[d].leaf.len(),
        values_at(t, d).len() <= 0x1_0000_0000,
{
    lemma_path_len(t, d + 1);
    assert(path_values(t, d + 1).disjoint(t[d].leaf)) by {
        assert forall|v: u32| #[trigger] path_values(t, d + 1).contains(v) implies !t[d].leaf.contains(
            v,
        ) by {
            let x = choose|x: int| 0 <= x < d + 1 && x < t.len() && in_node(t, x, v);
            assert(t[x].node.disjoint(t[d].leaf));
        }
    }
    lemma_set_disjoint_lens(path_values(t, d + 1), t[d].leaf);
    vstd::set_lib::lemma_set_union_finite_iff(path_values(t, d + 1), t[d].leaf);
    lemma_u32_set_len(values_at(t, d));
}

/// A node of the spine below another has fewer jobs than it, all of them
/// jobs of the other; so has the left leaf of a node that is not the last.
pub proof fn law_jobs_narrow(t: Seq<LevelView>, x: int, y: int)
    requires
        tree_wf(t),
        0 <= x < y < t.len(),
    ensures
        node_jobs(t, y).subset_of(node_jobs(t, x)),
        node_jobs(t, y) != node_jobs(t, x),
        leaf_jobs(t, x).subset_of(node_jobs(t, x)),
        leaf_jobs(t, x) != node_jobs(t, x),
        node_jobs(t, y).contains(t[y].job),
{
    assert(node_jobs(t, x).contains(t[x].job));
    assert(node_jobs(t, x).contains(t[y].job));
    assert(node_jobs(t, y).contains(t[y].job));
    if node_jobs(t, y).contains(t[x].job) {
        let z = choose|z: int| y <= z < t.len() && 0 <= z && (#[trigger] t[z]).job == t[x].job;
        assert(t[x].job != t[z].job);
    }
    assert(t[x].job != t[y].job);
    assert(!leaf_jobs(t, x).contains(t[y].job));
}

/// In a tree the node of a level shares no value with the spine above it,
/// and the leaf of a level shares none with the spine down to its level.
pub proof fn lemma_path_disjoint(t: Seq<LevelView>, d: int)
    requires
        tree_wf(t),
        0 <= d < t.len(),
    ensures
        path_values(t, d).disjoint(t[d].node),
        path_values(t, d + 1).disjoint(t[d].leaf),
        forall|y: int| d <= y < t.len() ==> path_values(t, d).disjoint(#[trigger] t[y].node),
        forall|y: int| d <= y < t.len() ==> path_values(t, d + 1).disjoint(#[trigger] t[y].leaf),
{
    assert forall|y: int| d <= y < t.len() implies path_values(t, d).disjoint(
        #[trigger] t[y].node,
    ) by {
        assert forall|v: u32| #[trigger] path_values(t, d).contains(v) implies !t[y].node.contains(
            v,
        ) by {
            let x = choose|x: int| 0 <= x < d && x < t.len() && in_node(t, x, v);
            assert(t[x].node.disjoint(t[y].node));
        }
    }
    assert forall|y: int| d <= y < t.len() implies path_values(t, d + 1).disjoint(
        #[trigger] t[y].leaf,
    ) by {
        assert forall|v: u32| #[trigger] path_values(t, d + 1).contains(v) implies !t[y].leaf.contains(
            v,
        ) by {
            let x = choose|x: int| 0 <= x < d + 1 && x < t.len() && in_node(t, x, v);
            assert(t[x].node.disjoint(t[y].leaf));
        }
    }
}

/// What the levels of `r` are when the leaf of a new job `job`, with the
/// values `n`, has come into the tree `t` as the left leaf of a new node at
/// level `d`.
pub open spec fn inserted_as_leaf(
    t: Seq<LevelView>,
    n: Set<u32>,
    job: u64,
    d: int,
    r: Seq<LevelView>,
) -> bool {
    &&& 0 <= d < t.len()
    &&& r.len() == t.len() + 1
    &&& forall|x: int| 0 <= x < d ==> (#[trigger] r[x]).job == t[x].job && r[x].node == t[x].node.intersect(n)
            && r[x].leaf == t[x].leaf.union(path_values(t, x + 1).difference(n))
    &&& r[d].job == job
    &&& r[d].node == t[d].node.intersect(n)
    &&& r[d].leaf == n.difference(path_values(t, d + 1))
    &&& r[d + 1].job == t[d].job
    &&& r[d + 1].node == path_values(t, d + 1).difference(n)
    &&& r[d + 1].leaf == t[d].leaf
    &&& forall|y: int| d + 1 < y < r.len() ==> #[trigger] r[y] == t[y - 1]
}

/// What the levels of `r` are when the leaf of a new job `job`, with the
/// values `n`, has come into the tree `t` as its last level.
pub open spec fn inserted_as_last(
    t: Seq<LevelView>,
    n: Set<u32>,
    job: u64,
    r: Seq<LevelView>,
) -> bool {
    let d = t.len() - 1;
    &&& r.len() == t.len() + 1
    &&& forall|x: int| 0 <= x < d ==> (#[trigger] r[x]).job == t[x].job && r[x].node == t[x].node.intersect(n)
            && r[x].leaf == t[x].leaf.union(path_values(t, x + 1).difference(n))
    &&& r[d].job == t[d].job
    &&& r[d].node == t[d].node.intersect(n)
    &&& r[d].leaf == path_values(t, d + 1).difference(n)
    &&& r[d + 1].job == job
    &&& r[d + 1].node == n.difference(path_values(t, d + 1))
    &&& r[d + 1].leaf == Set::<u32>::empty()
}

/// The spine of `r` above a level at or above the place of the new job holds
/// what the spine of `t` held there and the new job has too.
proof fn lemma_inserted_path(t: Seq<LevelView>, n: Set<u32>, r: Seq<LevelView>, d: int, x: int)
    requires
        0 <= x <= d + 1,
        d < t.len(),
        d + 1 <= r.len(),
        forall|z: int| 0 <= z <= d ==> (#[trigger] r[z]).node == t[z].node.intersect(n),
    ensures
        path_values(r, x) == path_values(t, x).intersect(n),
{
    assert forall|v: u32| path_values(r, x).contains(v) == path_values(t, x).intersect(n).contains(
        v,
    ) by {
        if path_values(r, x).contains(v) {
            let z = choose|z: int| 0 <= z < x && z < r.len() && in_node(r, z, v);
            assert(r[z].node == t[z].node.intersect(n));
            assert(in_node(t, z, v));
        }
        if path_values(t, x).intersect(n).contains(v) {
            let z = choose|z: int| 0 <= z < x && z < t.len() && in_node(t, z, v);
            assert(r[z].node == t[z].node.intersect(n));
            assert(in_node(r, z, v));
        }
    }
    assert(path_values(r, x) =~= path_values(t, x).intersect(n));
}

/// The tree that holds a new job as a left leaf is a tree; the new job has
/// its values to see, and every other job what it had.
pub proof fn lemma_inserted_as_leaf(
    t: Seq<LevelView>,
    n: Set<u32>,
    job: u64,
    d: int,
    r: Seq<LevelView>,
)
    requires
        tree_wf(t),
        n.finite(),
        !has_job(t, job),
        inserted_as_leaf(t, n, job, d, r),
    ensures
        tree_wf(r),
        forall|x: int| 0 <= x < d ==> #[trigger] values_at(r, x) == values_at(t, x),
        values_at(r, d) == n,
        forall|y: int| d < y < r.len() ==> #[trigger] values_at(r, y) == values_at(t, y - 1),
{
    assert forall|z: int| 0 <= z <= d implies (#[trigger] r[z]).node == t[z].node.intersect(n) by {}
    assert forall|x: int| 0 <= x <= d + 1 implies #[trigger] path_values(r, x) == path_values(
        t,
        x,
    ).intersect(n) by {
        lemma_inserted_path(t, n, r, d, x);
    }
    lemma_path_step(r, d + 1);
    assert(path_values(r, d + 2) =~= path_values(t, d + 1));
    assert forall|y: int| d + 2 <= y <= r.len() implies #[trigger] path_values(r, y)
        == path_values(t, y - 1) by {
        lemma_inserted_tail(t, r, d, y);
    }
    assert forall|x: int| 0 <= x < d implies #[trigger] values_at(r, x) == values_at(t, x) by {
        assert(path_values(r, x + 1) == path_values(t, x + 1).intersect(n));
        assert(values_at(r, x) =~= values_at(t, x));
    }
    assert(values_at(r, d) =~= n);
    assert(values_at(r, d + 1) =~= values_at(t, d));
    assert forall|y: int| d < y < r.len() implies #[trigger] values_at(r, y) == values_at(
        t,
        y - 1,
    ) by {
        if y > d + 1 {
            assert(r[y] == t[y - 1]);
            assert(path_values(r, y + 1) == path_values(t, y));
        }
    }
    assert(tree_wf(r)) by {
        assert forall|x: int, y: int| 0 <= x < y < r.len() implies (#[trigger] r[x]).job != (
        #[trigger] r[y]).job by {
            let x2 = if x < d { x } else { x - 1 };
            let y2 = if y < d { y } else { y - 1 };
            if x != d && y != d {
                assert(r[x].job == t[x2].job && r[y].job == t[y2].job);
                assert(t[x2].job != t[y2].job);
            } else if x == d {
                assert(r[y].job == t[y2].job);
            } else {
                assert(r[x].job == t[x2].job);
            }
        }
        assert(r[r.len() - 1].leaf == Set::<u32>::empty()) by {
            if r.len() - 1 > d + 1 {
                assert(r[r.len() - 1] == t[t.len() - 1]);
            }
        }
        assert forall|x: int| 0 <= x < r.len() implies (#[trigger] r[x]).node.finite()
            && r[x].leaf.finite() by {
            lemma_path_len(t, d + 1);
            if x < d {
                lemma_path_len(t, x + 1);
                assert(t[x].node.finite());
            } else if x > d + 1 {
                assert(r[x] == t[x - 1]);
            } else {
                assert(t[d].node.finite());
            }
        }
        lemma_path_disjoint(t, d);
        assert forall|x: int, y: int| 0 <= x < y < r.len() implies (#[trigger] r[x]).node.disjoint(
            (#[trigger] r[y]).node,
        ) by {
            if y <= d {
                assert(t[x].node.disjoint(t[y].node));
            } else if y == d + 1 {
            } else {
                assert(r[y] == t[y - 1]);
                if x <= d {
                    assert(t[x].node.disjoint(t[y - 1].node));
                } else if x == d + 1 {
                    assert(path_values(t, d + 1).disjoint(t[y - 1].node));
                } else {
                    assert(r[x] == t[x - 1]);
                    assert(t[x - 1].node.disjoint(t[y - 1].node));
                }
            }
        }
        assert forall|x: int, y: int| 0 <= x <= y < r.len() implies (#[trigger] r[x]).node.disjoint(
            (#[trigger] r[y]).leaf,
        ) by {
            if y < d {
                lemma_path_disjoint(t, y);
                assert(t[x].node.disjoint(t[y].leaf));
            } else if y == d {
                assert forall|v: u32| r[x].node.contains(v) implies !r[y].leaf.contains(v) by {
                    assert(in_node(t, x, v));
                }
            } else if y == d + 1 {
                if x <= d {
                    assert(t[x].node.disjoint(t[d].leaf));
                }
            } else {
                assert(r[y] == t[y - 1]);
                lemma_path_disjoint(t, d);
                if x <= d {
                    assert(t[x].node.disjoint(t[y - 1].leaf));
                } else if x == d + 1 {
                    assert(path_values(t, d + 1).disjoint(t[y - 1].leaf));
                } else {
                    assert(r[x] == t[x - 1]);
                    assert(t[x - 1].node.disjoint(t[y - 1].leaf));
                }
            }
        }
    }
}

/// Below the place of the new job the spine of `r` holds what the spine of
/// `t` held one level higher.
proof fn lemma_inserted_tail(t: Seq<LevelView>, r: Seq<LevelView>, d: int, y: int)
    requires
        0 <= d < t.len(),
        r.len() == t.len() + 1,
        d + 2 <= y <= r.len(),
        path_values(r, d + 2) == path_values(t, d + 1),
        forall|z: int| d + 1 < z < r.len() ==> #[trigger] r[z] == t[z - 1],
    ensures
        path_values(r, y) == path_values(t, y - 1),
    decreases y,
{
    if y > d + 2 {
        lemma_inserted_tail(t, r, d, y - 1);
        lemma_path_step(r, y - 1);
        lemma_path_step(t, y - 2);
        assert(r[y - 1] == t[y - 2]);
    }
}

/// The tree that holds a new job as its last level is a tree; the new job
/// has its values to see, and every other job what it had.
pub proof fn lemma_inserted_as_last(t: Seq<LevelView>, n: Set<u32>, job: u64, r: Seq<LevelView>)
    requires
        tree_wf(t),
        n.finite(),
        !has_job(t, job),
        inserted_as_last(t, n, job, r),
    ensures
        tree_wf(r),
        forall|x: int| 0 <= x < t.len() ==> #[trigger] values_at(r, x) == values_at(t, x),
        values_at(r, t.len() as int) == n,
{
    let d = t.len() - 1;
    assert forall|z: int| 0 <= z <= d implies (#[trigger] r[z]).node == t[z].node.intersect(n) by {}
    assert forall|x: int| 0 <= x <= d + 1 implies #[trigger] path_values(r, x) == path_values(
        t,
        x,
    ).intersect(n) by {
        lemma_inserted_path(t, n, r, d, x);
    }
    lemma_path_step(r, d + 1);
    assert forall|x: int| 0 <= x < t.len() implies #[trigger] values_at(r, x) == values_at(t, x) by {
        assert(path_values(r, x + 1) == path_values(t, x + 1).intersect(n));
        if x < d {
            assert(values_at(r, x) =~= values_at(t, x));
        } else {
            assert(values_at(r, x) =~= values_at(t, x));
        }
    }
    assert(values_at(r, d + 1) =~= n);
    assert(tree_wf(r)) by {
        assert forall|x: int, y: int| 0 <= x < y < r.len() implies (#[trigger] r[x]).job != (
        #[trigger] r[y]).job by {
            if y <= d {
                assert(t[x].job != t[y].job);
            } else {
                assert(r[x].job == t[x].job);
            }
        }
        lemma_path_len(t, d + 1);
        assert forall|x: int| 0 <= x < r.len() implies (#[trigger] r[x]).node.finite()
            && r[x].leaf.finite() by {
            if x <= d {
                lemma_path_len(t, x + 1);
                assert(t[x].node.finite());
            }
        }
        assert forall|x: int, y: int| 0 <= x < y < r.len() implies (#[trigger] r[x]).node.disjoint(
            (#[trigger] r[y]).node,
        ) by {
            if y <= d {
                assert(t[x].node.disjoint(t[y].node));
            } else {
                assert forall|v: u32| r[x].node.contains(v) implies !r[y].node.contains(v) by {
                    assert(in_node(t, x, v));
                }
            }
        }
        assert forall|x: int, y: int| 0 <= x <= y < r.len() implies (#[trigger] r[x]).node.disjoint(
            (#[trigger] r[y]).leaf,
        ) by {
            if y <= d {
                lemma_path_disjoint(t, y);
                assert(t[x].node.disjoint(t[y].leaf));
            }
        }
    }
}

/// What the levels of `r` are when the level `p` of `t`, which is not the
/// last, has gone: the node below it has taken the values of its node.
pub open spec fn removed_level(t: Seq<LevelView>, p: int, r: Seq<LevelView>) -> bool {
    &&& 0 <= p < t.len() - 1
    &&& r.len() == t.len() - 1
    &&& forall|x: int| 0 <= x < p ==> #[trigger] r[x] == t[x]
    &&& r[p].job == t[p + 1].job
    &&& r[p].node == t[p].node.union(t[p + 1].node)
    &&& r[p].leaf == t[p + 1].leaf
    &&& forall|y: int| p < y < r.len() ==> #[trigger] r[y] == t[y + 1]
}

/// What the levels of `r` are when the last level of `t` has gone: the job
/// of the level above has become the last, with the values of its node and
/// of its leaf.
pub open spec fn removed_last(t: Seq<LevelView>, r: Seq<LevelView>) -> bool {
    let p = t.len() - 1;
    &&& p >= 1
    &&& r.len() == t.len() - 1
    &&& forall|x: int| 0 <= x < p - 1 ==> #[trigger] r[x] == t[x]
    &&& r[p - 1].job == t[p - 1].job
    &&& r[p - 1].node == t[p - 1].node.union(t[p - 1].leaf)
    &&& r[p - 1].leaf == Set::<u32>::empty()
}

/// Two lists of levels that agree above a level hold the same values above
/// it.
pub proof fn lemma_path_same(t: Seq<LevelView>, r: Seq<LevelView>, d: int)
    requires
        0 <= d <= t.len(),
        d <= r.len(),
        forall|x: int| 0 <= x < d ==> (#[trigger] r[x]).node == t[x].node,
    ensures
        path_values(r, d) == path_values(t, d),
{
    assert forall|v: u32| path_values(r, d).contains(v) == path_values(t, d).contains(v) by {
        if path_values(r, d).contains(v) {
            let x = choose|x: int| 0 <= x < d && x < r.len() && in_node(r, x, v);
            assert(r[x].node == t[x].node);
            assert(in_node(t, x, v));
        }
        if path_values(t, d).contains(v) {
            let x = choose|x: int| 0 <= x < d && x < t.len() && in_node(t, x, v);
            assert(r[x].node == t[x].node);
            assert(in_node(r, x, v));
        }
    }
    assert(path_values(r, d) =~= path_values(t, d));
}

/// Where `r` holds from level `a` on the levels that `t` holds from level
/// `b` on, and the spines above hold the same values, so do the spines
/// further down.
pub proof fn lemma_path_shift(t: Seq<LevelView>, r: Seq<LevelView>, a: int, b: int, y: int)
    requires
        0 <= a <= r.len(),
        0 <= b <= t.len(),
        r.len() - a == t.len() - b,
        path_values(r, a) == path_values(t, b),
        forall|z: int| a <= z < r.len() ==> (#[trigger] r[z]).node == t[z - a + b].node,
        a <= y <= r.len(),
    ensures
        path_values(r, y) == path_values(t, y - a + b),
    decreases y,
{
    if y > a {
        lemma_path_shift(t, r, a, b, y - 1);
        lemma_path_step(r, y - 1);
        lemma_path_step(t, y - 1 - a + b);
        assert(r[y - 1].node == t[y - 1 - a + b].node);
    }
}

/// The tree without a level that was not its last is a tree, and each of
/// the other jobs has the values it had.
pub proof fn lemma_removed_level(t: Seq<LevelView>, p: int, r: Seq<LevelView>)
    requires
        tree_wf(t),
        removed_level(t, p, r),
    ensures
        tree_wf(r),
        forall|x: int| 0 <= x < p ==> #[trigger] values_at(r, x) == values_at(t, x),
        forall|y: int| p <= y < r.len() ==> #[trigger] values_at(r, y) == values_at(t, y + 1),
{
    assert forall|x: int| 0 <= x <= p implies #[trigger] path_values(r, x) == path_values(t, x) by {
        assert forall|z: int| 0 <= z < x implies (#[trigger] r[z]).node == t[z].node by {
            assert(r[z] == t[z]);
        }
        lemma_path_same(t, r, x);
    }
    lemma_path_step(r, p);
    lemma_path_step(t, p);
    lemma_path_step(t, p + 1);
    assert(path_values(r, p + 1) =~= path_values(t, p + 2));
    assert forall|y: int| p + 1 <= y <= r.len() implies #[trigger] path_values(r, y)
        == path_values(t, y + 1) by {
        assert forall|z: int| p + 1 <= z < r.len() implies (#[trigger] r[z]).node == t[z - (p + 1)
            + (p + 2)].node by {
            assert(r[z] == t[z + 1]);
        }
        lemma_path_shift(t, r, p + 1, p + 2, y);
    }
    assert forall|x: int| 0 <= x < p implies #[trigger] values_at(r, x) == values_at(t, x) by {
        assert(r[x] == t[x]);
        assert(path_values(r, x + 1) == path_values(t, x + 1));
    }
    assert forall|y: int| p <= y < r.len() implies #[trigger] values_at(r, y) == values_at(
        t,
        y + 1,
    ) by {
        assert(path_values(r, y + 1) == path_values(t, y + 2));
        if y > p {
            assert(r[y] == t[y + 1]);
        }
    }
    assert(tree_wf(r)) by {
        assert forall|x: int| 0 <= x < r.len() implies (#[trigger] r[x]).job == t[if x < p {
            x
        } else {
            x + 1
        }].job && r[x].leaf == t[if x < p {
            x
        } else {
            x + 1
        }].leaf by {
            if x < p {
                assert(r[x] == t[x]);
            } else if x > p {
                assert(r[x] == t[x + 1]);
            }
        }
        assert forall|x: int, y: int| 0 <= x < y < r.len() implies (#[trigger] r[x]).job != (
        #[trigger] r[y]).job by {
            let x2 = if x < p { x } else { x + 1 };
            let y2 = if y < p { y } else { y + 1 };
            assert(t[x2].job != t[y2].job);
        }
        assert(t[p].node.finite() && t[p + 1].node.finite());
        assert forall|x: int| 0 <= x < r.len() implies (#[trigger] r[x]).node.finite()
            && r[x].leaf.finite() by {
            let x2 = if x < p { x } else { x + 1 };
            assert(t[x2].node.finite() && t[x2].leaf.finite());
            if x < p {
                assert(r[x] == t[x]);
            } else if x > p {
                assert(r[x] == t[x + 1]);
            }
        }
        assert forall|x: int, y: int| 0 <= x < y < r.len() implies (#[trigger] r[x]).node.disjoint(
            (#[trigger] r[y]).node,
        ) by {
            let x2 = if x < p { x } else { x + 1 };
            let y2 = if y < p { y } else { y + 1 };
            assert(t[x2].node.disjoint(t[y2].node));
            if x < p {
                assert(r[x] == t[x]);
            } else if x > p {
                assert(r[x] == t[x + 1]);
            }
            if y < p {
                assert(r[y] == t[y]);
            } else if y > p {
                assert(r[y] == t[y + 1]);
            }
            if y == p {
                assert(t[x].node.disjoint(t[p].node));
            }
            if x == p {
                assert(t[p].node.disjoint(t[y2].node));
            }
        }
        assert forall|x: int, y: int| 0 <= x <= y < r.len() implies (#[trigger] r[x]).node.disjoint(
            (#[trigger] r[y]).leaf,
        ) by {
            let x2 = if x < p { x } else { x + 1 };
            let y2 = if y < p { y } else { y + 1 };
            assert(t[x2].node.disjoint(t[y2].leaf));
            if x < p {
                assert(r[x] == t[x]);
            } else if x > p {
                assert(r[x] == t[x + 1]);
            }
            if x == p {
                assert(t[p].node.disjoint(t[y2].leaf));
            }
        }
    }
}

/// The tree without its last level is a tree, and each of the other jobs
/// has the values it had.
pub proof fn lemma_removed_last(t: Seq<LevelView>, r: Seq<LevelView>)
    requires
        tree_wf(t),
        removed_last(t, r),
    ensures
        tree_wf(r),
        forall|x: int| 0 <= x < r.len() ==> #[trigger] values_at(r, x) == values_at(t, x),
        forall|x: int| 0 <= x < r.len() ==> (#[trigger] r[x]).job == t[x].job,
{
    let p = t.len() - 1;
    assert forall|x: int| 0 <= x <= p - 1 implies #[trigger] path_values(r, x) == path_values(
        t,
        x,
    ) by {
        assert forall|z: int| 0 <= z < x implies (#[trigger] r[z]).node == t[z].node by {
            assert(r[z] == t[z]);
        }
        lemma_path_same(t, r, x);
    }
    lemma_path_step(r, p - 1);
    lemma_path_step(t, p - 1);
    assert forall|x: int| 0 <= x < r.len() implies #[trigger] values_at(r, x) == values_at(t, x) by {
        if x < p - 1 {
            assert(r[x] == t[x]);
            assert(path_values(r, x + 1) == path_values(t, x + 1));
        } else {
            assert(values_at(r, x) =~= values_at(t, x));
        }
    }
    assert forall|x: int| 0 <= x < r.len() implies (#[trigger] r[x]).job == t[x].job by {
        if x < p - 1 {
            assert(r[x] == t[x]);
        }
    }
    assert(tree_wf(r)) by {
        assert forall|x: int, y: int| 0 <= x < y < r.len() implies (#[trigger] r[x]).job != (
        #[trigger] r[y]).job by {
            assert(t[x].job != t[y].job);
        }
        assert(t[p - 1].node.finite() && t[p - 1].leaf.finite());
        assert forall|x: int| 0 <= x < r.len() implies (#[trigger] r[x]).node.finite()
            && r[x].leaf.finite() by {
            if x < p - 1 {
                assert(r[x] == t[x]);
                assert(t[x].node.finite() && t[x].leaf.finite());
            }
        }
        assert forall|x: int, y: int| 0 <= x < y < r.len() implies (#[trigger] r[x]).node.disjoint(
            (#[trigger] r[y]).node,
        ) by {
            assert(r[x] == t[x]);
            assert(t[x].node.disjoint(t[y].node));
            assert(t[x].node.disjoint(t[y].leaf));
            if y < p - 1 {
                assert(r[y] == t[y]);
            }
        }
        assert forall|x: int, y: int| 0 <= x <= y < r.len() implies (#[trigger] r[x]).node.disjoint(
            (#[trigger] r[y]).leaf,
        ) by {
            if y < p - 1 {
                assert(r[x] == t[x]);
                assert(r[y] == t[y]);
                assert(t[x].node.disjoint(t[y].leaf));
            }
        }
    }
}

/// Where each level of `r` is some level of `t` that is not the level `p`,
/// with the same job and the same values to see, and each such level of `t`
/// is a level of `r`, the jobs of `r` are those of `t` but that of level
/// `p`, each with its values.
pub proof fn lemma_delete_values(t: Seq<LevelView>, p: int, r: Seq<LevelView>)
    requires
        tree_wf(t),
        tree_wf(r),
        0 <= p < t.len(),
        r.len() == t.len() - 1,
        forall|x: int|
            0 <= x < r.len() ==> (#[trigger] r[x]).job == t[if x < p {
                x
            } else {
                x + 1
            }].job && values_at(r, x) == values_at(t, if x < p { x } else { x + 1 }),
    ensures
        forall|k: u64| has_job(r, k) == (has_job(t, k) && k != t[p].job),
        forall|k: u64| k != t[p].job ==> values_of(r, k) == values_of(t, k),
{
    assert forall|k: u64| has_job(r, k) == (has_job(t, k) && k != t[p].job) by {
        if has_job(r, k) {
            let x = choose|x: int| 0 <= x < r.len() && (#[trigger] r[x]).job == k;
            let x2 = if x < p { x } else { x + 1 };
            assert(t[x2].job == k);
            if x2 < p {
                assert(t[x2].job != t[p].job);
            } else {
                assert(t[p].job != t[x2].job);
            }
        }
        if has_job(t, k) && k != t[p].job {
            let x = choose|x: int| 0 <= x < t.len() && (#[trigger] t[x]).job == k;
            let y = if x < p { x } else { x - 1 };
            assert(r[y].job == k);
        }
    }
    assert forall|k: u64| k != t[p].job implies values_of(r, k) == values_of(t, k) by {
        if has_job(t, k) {
            let x = job_index(t, k);
            lemma_job_index(t, x);
            let y = if x < p { x } else { x - 1 };
            assert(r[y].job == k);
            lemma_job_index(r, y);
        }
    }
}

/// The levels of `r` are those of `t`, but for the values of level `d`.
pub open spec fn same_but(t: Seq<LevelView>, r: Seq<LevelView>, d: int) -> bool {
    &&& r.len() == t.len()
    &&& 0 <= d < t.len()
    &&& r[d].job == t[d].job
    &&& forall|x: int| 0 <= x < t.len() && x != d ==> #[trigger] r[x] == t[x]
}

/// Where only level `d` differs, the spine holds above that level what it
/// held, and further down what it held but for the values of the node at
/// level `d`.
proof fn lemma_path_changed(t: Seq<LevelView>, r: Seq<LevelView>, d: int, y: int)
    requires
        same_but(t, r, d),
        0 <= y <= t.len(),
    ensures
        y <= d ==> path_values(r, y) == path_values(t, y),
        y > d ==> path_values(r, y).union(t[d].node) == path_values(t, y).union(r[d].node),
        y > d ==> r[d].node.subset_of(path_values(r, y)) && t[d].node.subset_of(path_values(t, y)),
{
    if y <= d {
        assert forall|x: int| 0 <= x < y implies (#[trigger] r[x]).node == t[x].node by {
            assert(r[x] == t[x]);
        }
        lemma_path_same(t, r, y);
    } else {
        assert forall|v: u32|
            path_values(r, y).union(t[d].node).contains(v) == path_values(t, y).union(
                r[d].node,
            ).contains(v) by {
            if path_values(r, y).contains(v) {
                let x = choose|x: int| 0 <= x < y && x < r.len() && in_node(r, x, v);
                if x != d {
                    assert(r[x] == t[x]);
                    assert(in_node(t, x, v));
                }
            }
            if path_values(t, y).contains(v) {
                let x = choose|x: int| 0 <= x < y && x < t.len() && in_node(t, x, v);
                if x != d {
                    assert(r[x] == t[x]);
                    assert(in_node(r, x, v));
                }
            }
            if t[d].node.contains(v) {
                assert(in_node(t, d, v));
            }
            if r[d].node.contains(v) {
                assert(in_node(r, d, v));
            }
        }
        assert(path_values(r, y).union(t[d].node) =~= path_values(t, y).union(r[d].node));
        assert forall|v: u32| r[d].node.contains(v) implies path_values(r, y).contains(v) by {
            assert(in_node(r, d, v));
        }
        assert forall|v: u32| t[d].node.contains(v) implies path_values(t, y).contains(v) by {
            assert(in_node(t, d, v));
        }
    }
}

/// A value that no job at level `d` or below has yet to see may join the
/// node of the spine at level `d`: those jobs then have it to see, and no
/// other job is touched.
pub proof fn lemma_add_to_node(t: Seq<LevelView>, d: int, item: u32, r: Seq<LevelView>)
    requires
        tree_wf(t),
        same_but(t, r, d),
        r[d].node == t[d].node.insert(item),
        r[d].leaf == t[d].leaf,
        forall|y: int| d <= y < t.len() ==> !(#[trigger] values_at(t, y)).contains(item),
    ensures
        tree_wf(r),
        forall|x: int| 0 <= x < d ==> #[trigger] values_at(r, x) == values_at(t, x),
        forall|y: int| d <= y < t.len() ==> #[trigger] values_at(r, y) == values_at(t, y).insert(item),
{
    assert forall|x: int| 0 <= x < d implies #[trigger] values_at(r, x) == values_at(t, x) by {
        lemma_path_changed(t, r, d, x + 1);
        assert(r[x] == t[x]);
    }
    assert forall|y: int| d <= y < t.len() implies #[trigger] values_at(r, y) == values_at(
        t,
        y,
    ).insert(item) by {
        lemma_path_changed(t, r, d, y + 1);
        if y != d {
            assert(r[y] == t[y]);
        }
        assert(in_node(r, d, item));
        assert forall|v: u32| values_at(r, y).contains(v) == values_at(t, y).insert(item).contains(
            v,
        ) by {
            assert(path_values(r, y + 1).union(t[d].node).contains(v) == path_values(
                t,
                y + 1,
            ).union(r[d].node).contains(v));
        }
        assert(values_at(r, y) =~= values_at(t, y).insert(item));
    }
    assert(tree_wf(r)) by {
        assert forall|x: int| 0 <= x < r.len() implies (#[trigger] r[x]).job == t[x].job
            && r[x].leaf == t[x].leaf && r[x].node.finite() && r[x].leaf.finite() by {
            assert(t[x].node.finite() && t[x].leaf.finite());
            if x != d {
                assert(r[x] == t[x]);
            }
        }
        assert forall|x: int, y: int| 0 <= x < y < r.len() implies (#[trigger] r[x]).job != (
        #[trigger] r[y]).job by {
            assert(t[x].job != t[y].job);
        }
        let m = t.len() - 1;
        assert(!values_at(t, m).contains(item));
        assert forall|x: int| 0 <= x < t.len() implies !(#[trigger] t[x]).node.contains(item) by {
            if t[x].node.contains(item) {
                assert(in_node(t, x, item));
                assert(path_values(t, m + 1).contains(item));
            }
        }
        assert forall|x: int, y: int| 0 <= x < y < r.len() implies (#[trigger] r[x]).node.disjoint(
            (#[trigger] r[y]).node,
        ) by {
            assert(t[x].node.disjoint(t[y].node));
            if x != d {
                assert(r[x] == t[x]);
            }
            if y != d {
                assert(r[y] == t[y]);
            }
        }
        assert forall|x: int, y: int| 0 <= x <= y < r.len() implies (#[trigger] r[x]).node.disjoint(
            (#[trigger] r[y]).leaf,
        ) by {
            assert(t[x].node.disjoint(t[y].leaf));
            if x != d {
                assert(r[x] == t[x]);
            } else {
                assert(!values_at(t, y).contains(item));
            }
        }
    }
}

/// A value that the job of level `d` does not have to see may join its
/// leaf: the job then has it to see, and no other job is touched.
pub proof fn lemma_add_to_leaf(t: Seq<LevelView>, d: int, item: u32, r: Seq<LevelView>)
    requires
        tree_wf(t),
        same_but(t, r, d),
        d < t.len() - 1,
        r[d].node == t[d].node,
        r[d].leaf == t[d].leaf.insert(item),
        !values_at(t, d).contains(item),
    ensures
        tree_wf(r),
        forall|x: int| 0 <= x < t.len() && x != d ==> #[trigger] values_at(r, x) == values_at(t, x),
        values_at(r, d) == values_at(t, d).insert(item),
{
    assert forall|x: int| 0 <= x < t.len() implies (#[trigger] r[x]).node == t[x].node by {
        if x != d {
            assert(r[x] == t[x]);
        }
    }
    assert forall|x: int| 0 <= x <= t.len() implies #[trigger] path_values(r, x) == path_values(
        t,
        x,
    ) by {
        lemma_path_same(t, r, x);
    }
    assert forall|x: int| 0 <= x < t.len() && x != d implies #[trigger] values_at(r, x)
        == values_at(t, x) by {
        assert(r[x] == t[x]);
        assert(path_values(r, x + 1) == path_values(t, x + 1));
    }
    assert(path_values(r, d + 1) == path_values(t, d + 1));
    assert(values_at(r, d) =~= values_at(t, d).insert(item));
    assert(tree_wf(r)) by {
        assert forall|x: int| 0 <= x < r.len() implies (#[trigger] r[x]).job == t[x].job
            && r[x].node.finite() && r[x].leaf.finite() by {
            assert(t[x].node.finite() && t[x].leaf.finite());
            if x != d {
                assert(r[x] == t[x]);
            }
        }
        assert forall|x: int, y: int| 0 <= x < y < r.len() implies (#[trigger] r[x]).job != (
        #[trigger] r[y]).job by {
            assert(t[x].job != t[y].job);
        }
        assert(r[r.len() - 1] == t[t.len() - 1]);
        assert forall|x: int, y: int| 0 <= x < y < r.len() implies (#[trigger] r[x]).node.disjoint(
            (#[trigger] r[y]).node,
        ) by {
            assert(t[x].node.disjoint(t[y].node));
        }
        assert forall|x: int, y: int| 0 <= x <= y < r.len() implies (#[trigger] r[x]).node.disjoint(
            (#[trigger] r[y]).leaf,
        ) by {
            assert(t[x].node.disjoint(t[y].leaf));
            if y != d {
                assert(r[y] == t[y]);
            } else {
                if t[x].node.contains(item) {
                    assert(in_node(t, x, item));
                    assert(path_values(t, d + 1).contains(item));
                }
            }
        }
    }
}

/// A value taken out of the node of the spine at level `d` is one that
/// every job at that level or below had to see, and no longer has; no other
/// job is touched.
pub proof fn lemma_take_from_node(t: Seq<LevelView>, d: int, item: u32, r: Seq<LevelView>)
    requires
        tree_wf(t),
        same_but(t, r, d),
        t[d].node.contains(item),
        r[d].node == t[d].node.remove(item),
        r[d].leaf == t[d].leaf,
    ensures
        tree_wf(r),
        forall|x: int| 0 <= x < d ==> #[trigger] values_at(r, x) == values_at(t, x),
        forall|y: int|
            d <= y < t.len() ==> (#[trigger] values_at(t, y)).contains(item) && values_at(r, y)
                == values_at(t, y).remove(item),
{
    assert forall|x: int| 0 <= x < d implies #[trigger] values_at(r, x) == values_at(t, x) by {
        lemma_path_changed(t, r, d, x + 1);
        assert(r[x] == t[x]);
    }
    assert forall|y: int| d <= y < t.len() implies (#[trigger] values_at(t, y)).contains(item)
        && values_at(r, y) == values_at(t, y).remove(item) by {
        lemma_path_changed(t, r, d, y + 1);
        if y != d {
            assert(r[y] == t[y]);
        }
        assert(in_node(t, d, item));
        assert(t[d].node.disjoint(t[y].leaf));
        assert(!path_values(r, y + 1).contains(item)) by {
            if path_values(r, y + 1).contains(item) {
                let x = choose|x: int| 0 <= x < y + 1 && x < r.len() && in_node(r, x, item);
                assert(r[x] == t[x]);
                if x < d {
                    assert(t[x].node.disjoint(t[d].node));
                } else {
                    assert(t[d].node.disjoint(t[x].node));
                }
            }
        }
        assert forall|v: u32| values_at(r, y).contains(v) == values_at(t, y).remove(item).contains(
            v,
        ) by {
            assert(path_values(r, y + 1).union(t[d].node).contains(v) == path_values(
                t,
                y + 1,
            ).union(r[d].node).contains(v));
        }
        assert(values_at(r, y) =~= values_at(t, y).remove(item));
    }
    lemma_shrunk_wf(t, r, d);
}

/// A tree in which one level has lost values is a tree.
proof fn lemma_shrunk_wf(t: Seq<LevelView>, r: Seq<LevelView>, d: int)
    requires
        tree_wf(t),
        same_but(t, r, d),
        r[d].node.subset_of(t[d].node),
        r[d].leaf.subset_of(t[d].leaf),
    ensures
        tree_wf(r),
{
    assert forall|x: int| 0 <= x < r.len() implies (#[trigger] r[x]).job == t[x].job
        && r[x].node.subset_of(t[x].node) && r[x].leaf.subset_of(t[x].leaf) && r[x].node.finite()
        && r[x].leaf.finite() by {
        assert(t[x].node.finite() && t[x].leaf.finite());
        if x != d {
            assert(r[x] == t[x]);
        } else {
            lemma_len_subset(r[d].node, t[d].node);
            lemma_len_subset(r[d].leaf, t[d].leaf);
        }
    }
    assert forall|x: int, y: int| 0 <= x < y < r.len() implies (#[trigger] r[x]).job != (
    #[trigger] r[y]).job by {
        assert(t[x].job != t[y].job);
    }
    assert(r[r.len() - 1].leaf =~= Set::<u32>::empty());
    assert forall|x: int, y: int| 0 <= x < y < r.len() implies (#[trigger] r[x]).node.disjoint(
        (#[trigger] r[y]).node,
    ) by {
        assert(t[x].node.disjoint(t[y].node));
    }
    assert forall|x: int, y: int| 0 <= x <= y < r.len() implies (#[trigger] r[x]).node.disjoint(
        (#[trigger] r[y]).leaf,
    ) by {
        assert(t[x].node.disjoint(t[y].leaf));
    }
}

/// A value taken out of the leaf at level `d` is one that the job of that
/// level had to see, and no longer has; no other job is touched.
pub proof fn lemma_take_from_leaf(t: Seq<LevelView>, d: int, item: u32, r: Seq<LevelView>)
    requires
        tree_wf(t),
        same_but(t, r, d),
        t[d].leaf.contains(item),
        r[d].node == t[d].node,
        r[d].leaf == t[d].leaf.remove(item),
    ensures
        tree_wf(r),
        forall|x: int| 0 <= x < t.len() && x != d ==> #[trigger] values_at(r, x) == values_at(t, x),
        values_at(t, d).contains(item),
        values_at(r, d) == values_at(t, d).remove(item),
{
    assert forall|x: int| 0 <= x < t.len() implies (#[trigger] r[x]).node == t[x].node by {
        if x != d {
            assert(r[x] == t[x]);
        }
    }
    assert forall|x: int| 0 <= x <= t.len() implies #[trigger] path_values(r, x) == path_values(
        t,
        x,
    ) by {
        lemma_path_same(t, r, x);
    }
    assert forall|x: int| 0 <= x < t.len() && x != d implies #[trigger] values_at(r, x)
        == values_at(t, x) by {
        assert(r[x] == t[x]);
        assert(path_values(r, x + 1) == path_values(t, x + 1));
    }
    assert(path_values(r, d + 1) == path_values(t, d + 1));
    lemma_path_disjoint(t, d);
    assert(values_at(r, d) =~= values_at(t, d).remove(item));
    lemma_shrunk_wf(t, r, d);
}

/// What the levels of `r` are when the jobs of the levels `d` and `d + 1`
/// of `t` have changed places, and level `d + 1` was not the last.
pub open spec fn rotated_inner(t: Seq<LevelView>, d: int, r: Seq<LevelView>) -> bool {
    &&& 0 <= d
    &&& d + 2 < t.len()
    &&& r.len() == t.len()
    &&& forall|x: int| 0 <= x < t.len() && !(d <= x <= d + 2) ==> #[trigger] r[x] == t[x]
    &&& r[d].job == t[d + 1].job
    &&& r[d].node == t[d].node
    &&& r[d].leaf == t[d + 1].node.union(t[d + 1].leaf)
    &&& r[d + 1].job == t[d].job
    &&& r[d + 1].node == t[d + 1].node.intersect(t[d].leaf)
    &&& r[d + 1].leaf == t[d].leaf.difference(t[d + 1].node)
    &&& r[d + 2].job == t[d + 2].job
    &&& r[d + 2].node == t[d + 2].node.union(t[d + 1].node.difference(t[d].leaf))
    &&& r[d + 2].leaf == t[d + 2].leaf
}

/// What the levels of `r` are when the jobs of the last two levels of `t`
/// have changed places.
pub open spec fn rotated_last(t: Seq<LevelView>, r: Seq<LevelView>) -> bool {
    let d = t.len() - 2;
    &&& 0 <= d
    &&& r.len() == t.len()
    &&& forall|x: int| 0 <= x < d ==> #[trigger] r[x] == t[x]
    &&& r[d].job == t[d + 1].job
    &&& r[d].node == t[d].node
    &&& r[d].leaf == t[d + 1].node
    &&& r[d + 1].job == t[d].job
    &&& r[d + 1].node == t[d].leaf
    &&& r[d + 1].leaf == Set::<u32>::empty()
}

/// Where two neighbouring levels have changed places and every job has kept
/// its values, the jobs of the tree and what each has yet to see are what
/// they were.
pub proof fn lemma_swap_values(t: Seq<LevelView>, r: Seq<LevelView>, d: int)
    requires
        tree_wf(t),
        tree_wf(r),
        0 <= d,
        d + 1 < t.len(),
        r.len() == t.len(),
        r[d].job == t[d + 1].job,
        r[d + 1].job == t[d].job,
        values_at(r, d) == values_at(t, d + 1),
        values_at(r, d + 1) == values_at(t, d),
        forall|y: int|
            0 <= y < t.len() && y != d && y != d + 1 ==> (#[trigger] r[y]).job == t[y].job
                && values_at(r, y) == values_at(t, y),
    ensures
        forall|k: u64| has_job(r, k) == has_job(t, k),
        forall|k: u64| values_of(r, k) == values_of(t, k),
{
    assert forall|k: u64| has_job(r, k) == has_job(t, k) && values_of(r, k) == values_of(t, k) by {
        if has_job(r, k) {
            let x = job_index(r, k);
            let x2 = if x == d { d + 1 } else if x == d + 1 { d } else { x };
            assert(t[x2].job == k);
            lemma_job_index(r, x);
            lemma_job_index(t, x2);
        }
        if has_job(t, k) {
            let x = job_index(t, k);
            let x2 = if x == d { d + 1 } else if x == d + 1 { d } else { x };
            assert(r[x2].job == k);
            lemma_job_index(t, x);
            lemma_job_index(r, x2);
        }
    }
}

/// The tree in which two jobs that were not the last two have changed
/// places is a tree, and every job has the values it had.
pub proof fn lemma_rotated_inner(t: Seq<LevelView>, d: int, r: Seq<LevelView>)
    requires
        tree_wf(t),
        rotated_inner(t, d, r),
    ensures
        tree_wf(r),
        forall|k: u64| has_job(r, k) == has_job(t, k),
        forall|k: u64| values_of(r, k) == values_of(t, k),
{
    assert forall|x: int| 0 <= x <= d + 1 implies #[trigger] path_values(r, x) == path_values(
        t,
        x,
    ) by {
        assert forall|z: int| 0 <= z < x implies (#[trigger] r[z]).node == t[z].node by {
            if z < d {
                assert(r[z] == t[z]);
            }
        }
        lemma_path_same(t, r, x);
    }
    lemma_path_step(r, d + 1);
    lemma_path_step(r, d + 2);
    lemma_path_step(t, d + 1);
    lemma_path_step(t, d + 2);
    assert(path_values(r, d + 3) =~= path_values(t, d + 3));
    assert forall|y: int| d + 3 <= y <= r.len() implies #[trigger] path_values(r, y)
        == path_values(t, y) by {
        assert forall|z: int| d + 3 <= z < r.len() implies (#[trigger] r[z]).node == t[z - (d + 3)
            + (d + 3)].node by {
            assert(r[z] == t[z]);
        }
        lemma_path_shift(t, r, d + 3, d + 3, y);
    }
    lemma_path_disjoint(t, d);
    lemma_path_disjoint(t, d + 1);
    assert(values_at(r, d) =~= values_at(t, d + 1));
    assert(values_at(r, d + 1) =~= values_at(t, d));
    assert(values_at(r, d + 2) =~= values_at(t, d + 2));
    assert forall|y: int| 0 <= y < t.len() && y != d && y != d + 1 implies (#[trigger] r[y]).job
        == t[y].job && values_at(r, y) == values_at(t, y) by {
        if y != d + 2 {
            assert(r[y] == t[y]);
            assert(path_values(r, y + 1) == path_values(t, y + 1));
        }
    }
    assert(tree_wf(r)) by {
        assert forall|x: int, y: int| 0 <= x < y < r.len() implies (#[trigger] r[x]).job != (
        #[trigger] r[y]).job by {
            let x2 = if x == d { d + 1 } else if x == d + 1 { d } else { x };
            let y2 = if y == d { d + 1 } else if y == d + 1 { d } else { y };
            assert(r[x].job == t[x2].job) by {
                if !(d <= x <= d + 2) {
                    assert(r[x] == t[x]);
                }
            }
            assert(r[y].job == t[y2].job) by {
                if !(d <= y <= d + 2) {
                    assert(r[y] == t[y]);
                }
            }
            if x2 < y2 {
                assert(t[x2].job != t[y2].job);
            } else {
                assert(t[y2].job != t[x2].job);
            }
        }
        assert(r[r.len() - 1].leaf == Set::<u32>::empty()) by {
            if r.len() - 1 > d + 2 {
                assert(r[r.len() - 1] == t[t.len() - 1]);
            }
        }
        assert(t[d].node.finite() && t[d].leaf.finite());
        assert(t[d + 1].node.finite() && t[d + 1].leaf.finite());
        assert(t[d + 2].node.finite() && t[d + 2].leaf.finite());
        assert forall|x: int| 0 <= x < r.len() implies (#[trigger] r[x]).node.finite()
            && r[x].leaf.finite() by {
            if !(d <= x <= d + 2) {
                assert(r[x] == t[x]);
                assert(t[x].node.finite() && t[x].leaf.finite());
            }
        }
        assert forall|x: int, y: int| 0 <= x < y < r.len() implies (#[trigger] r[x]).node.disjoint(
            (#[trigger] r[y]).node,
        ) by {
            if !(d <= x <= d + 2) {
                assert(r[x] == t[x]);
            }
            if !(d <= y <= d + 2) {
                assert(r[y] == t[y]);
            }
            assert(t[x].node.disjoint(t[y].node));
            if x < d + 1 {
                assert(t[x].node.disjoint(t[d + 1].node));
                assert(t[x].node.disjoint(t[d + 2].node));
            }
            if y > d + 2 {
                assert(t[d + 1].node.disjoint(t[y].node));
                assert(t[d + 2].node.disjoint(t[y].node));
            }
            assert(t[d + 1].node.disjoint(t[d + 2].node));
        }
        assert forall|x: int, y: int| 0 <= x <= y < r.len() implies (#[trigger] r[x]).node.disjoint(
            (#[trigger] r[y]).leaf,
        ) by {
            if !(d <= x <= d + 2) {
                assert(r[x] == t[x]);
            }
            if !(d <= y <= d + 2) {
                assert(r[y] == t[y]);
            }
            assert(t[x].node.disjoint(t[y].leaf));
            if x <= d {
                assert(t[x].node.disjoint(t[d].leaf));
                assert(t[x].node.disjoint(t[d + 1].leaf));
                assert(t[x].node.disjoint(t[d + 1].node) || x == d + 1);
            }
            if y >= d + 2 {
                assert(t[d + 1].node.disjoint(t[y].leaf));
                assert(t[d + 2].node.disjoint(t[y].leaf));
            }
        }
    }
    lemma_swap_values(t, r, d);
}

/// The tree in which the last two jobs have changed places is a tree, and
/// every job has the values it had.
pub proof fn lemma_rotated_last(t: Seq<LevelView>, r: Seq<LevelView>)
    requires
        tree_wf(t),
        rotated_last(t, r),
    ensures
        tree_wf(r),
        forall|k: u64| has_job(r, k) == has_job(t, k),
        forall|k: u64| values_of(r, k) == values_of(t, k),
{
    let d = t.len() - 2;
    assert forall|x: int| 0 <= x <= d + 1 implies #[trigger] path_values(r, x) == path_values(
        t,
        x,
    ) by {
        assert forall|z: int| 0 <= z < x implies (#[trigger] r[z]).node == t[z].node by {
            if z < d {
                assert(r[z] == t[z]);
            }
        }
        lemma_path_same(t, r, x);
    }
    lemma_path_step(r, d + 1);
    lemma_path_step(t, d + 1);
    assert(values_at(r, d) =~= values_at(t, d + 1));
    assert(values_at(r, d + 1) =~= values_at(t, d));
    assert forall|y: int| 0 <= y < t.len() && y != d && y != d + 1 implies (#[trigger] r[y]).job
        == t[y].job && values_at(r, y) == values_at(t, y) by {
        assert(r[y] == t[y]);
        assert(path_values(r, y + 1) == path_values(t, y + 1));
    }
    assert(tree_wf(r)) by {
        assert forall|x: int, y: int| 0 <= x < y < r.len() implies (#[trigger] r[x]).job != (
        #[trigger] r[y]).job by {
            let x2 = if x == d { d + 1 } else if x == d + 1 { d } else { x };
            let y2 = if y == d { d + 1 } else if y == d + 1 { d } else { y };
            assert(r[x].job == t[x2].job) by {
                if x < d {
                    assert(r[x] == t[x]);
                }
            }
            assert(r[y].job == t[y2].job) by {
                if y < d {
                    assert(r[y] == t[y]);
                }
            }
            if x2 < y2 {
                assert(t[x2].job != t[y2].job);
            } else {
                assert(t[y2].job != t[x2].job);
            }
        }
        assert(t[d].node.finite() && t[d].leaf.finite());
        assert(t[d + 1].node.finite() && t[d + 1].leaf.finite());
        assert forall|x: int| 0 <= x < r.len() implies (#[trigger] r[x]).node.finite()
            && r[x].leaf.finite() by {
            if x < d {
                assert(r[x] == t[x]);
                assert(t[x].node.finite() && t[x].leaf.finite());
            }
        }
        assert forall|x: int, y: int| 0 <= x < y < r.len() implies (#[trigger] r[x]).node.disjoint(
            (#[trigger] r[y]).node,
        ) by {
            if x < d {
                assert(r[x] == t[x]);
            }
            if y < d {
                assert(r[y] == t[y]);
            }
            assert(t[x].node.disjoint(t[y].node));
            assert(t[x].node.disjoint(t[d].leaf));
        }
        assert forall|x: int, y: int| 0 <= x <= y < r.len() implies (#[trigger] r[x]).node.disjoint(
            (#[trigger] r[y]).leaf,
        ) by {
            if x < d {
                assert(r[x] == t[x]);
            }
            if y < d {
                assert(r[y] == t[y]);
            }
            assert(t[x].node.disjoint(t[y].leaf));
            assert(t[x].node.disjoint(t[d + 1].node) || x == d + 1);
        }
    }
    lemma_swap_values(t, r, d);
}

/// A level of the tree.
#[derive(Debug)]
pub struct Level {
    values_set: ValueSet,
    leaf: ValueSet,
    job: u64,
}

/// A tree, or the part of a tree below one of the nodes of its spine.
#[derive(Debug)]
pub struct Node {
    levels: Vec<Level>,
}

impl View for Node {
    type V = Seq<LevelView>;

    closed spec fn view(&self) -> Seq<LevelView> {
        Seq::new(
            self.levels@.len(),
            |d: int|
                LevelView {
                    node: self.levels@[d].values_set@,
                    leaf: self.levels@[d].leaf@,
                    job: self.levels@[d].job,
                },
        )
    }
}

impl Node {
    /// The value sets of all the levels are well formed.
    pub closed spec fn sets_wf(&self) -> bool {
        forall|d: int|
            0 <= d < self.levels@.len() ==> (#[trigger] self.levels@[d]).values_set.wf()
                && self.levels@[d].leaf.wf()
    }

    /// The invariant of the type.
    pub open spec fn wf(&self) -> bool {
        self.sets_wf() && tree_wf(self@)
    }

    /// The tree of the one job `job_id`, whose values are `values`.
    pub fn new(values: Vec<u32>, job_id: u64) -> (r: Node)
        ensures
            r.wf(),
            r@.len() == 1,
            r@[0].job == job_id,
            r@[0].node == values@.to_set(),
            r@[0].leaf == Set::<u32>::empty(),
    {
        let mut values_set = ValueSet::new();
        let mut i: usize = 0;
        while i < values.len()
            invariant
                0 <= i <= values.len(),
                values_set.wf(),
                values_set@ == values@.take(i as int).to_set(),
            decreases values.len() - i,
        {
            values_set.set(values[i]);
            proof {
                let a = values@.take(i as int);
                let b = values@.take(i + 1);
                assert(b =~= a.push(values@[i as int]));
                assert forall|v: u32| b.to_set().contains(v) == a.to_set().insert(
                    values@[i as int],
                ).contains(v) by {
                    if b.contains(v) {
                        let x = choose|x: int| 0 <= x < b.len() && b[x] == v;
                        if x < a.len() {
                            assert(a[x] == v);
                        }
                    }
                    if a.contains(v) {
                        let x = choose|x: int| 0 <= x < a.len() && a[x] == v;
                        assert(b[x] == v);
                    }
                    if v == values@[i as int] {
                        assert(b[i as int] == v);
                    }
                }
                assert(b.to_set() =~= a.to_set().insert(values@[i as int]));
            }
            i += 1;
        }
        proof {
            assert(values@.take(i as int) =~= values@);
            values_set.lemma_blocks();
        }
        let leaf = ValueSet::new();
        proof {
            leaf.lemma_blocks();
        }
        let mut levels: Vec<Level> = Vec::new();
        levels.push(Level { values_set, leaf, job: job_id });
        let r = Node { levels };
        proof {
            assert(r@[0].node == values@.to_set());
            assert(tree_wf(r@));
        }
        r
    }

    /// The number of values that the root holds.
    pub fn len(&self) -> (r: u64)
        requires
            self.wf(),
        ensures
            r == self@[0].node.len(),
    {
        self.levels[0].values_set.len()
    }

    /// The number of values that the root and its left leaf hold.
    pub fn min_task_length(&self) -> (r: u64)
        requires
            self.wf(),
        ensures
            r == self@[0].node.len() + self@[0].leaf.len(),
    {
        self.levels[0].values_set.len() + self.levels[0].leaf.len()
    }

    /// The jobs of the tree, from the root down.
    pub fn get_job_id(&self) -> (r: Vec<u64>)
        ensures
            r@.len() == self@.len(),
            forall|d: int| 0 <= d < r@.len() ==> r@[d] == self@[d].job,
    {
        let mut r: Vec<u64> = Vec::new();
        let mut d: usize = 0;
        while d < self.levels.len()
            invariant
                0 <= d <= self.levels@.len(),
                r@.len() == d,
                forall|x: int| 0 <= x < d ==> r@[x] == self@[x].job,
            decreases self.levels@.len() - d,
        {
            r.push(self.levels[d].job);
            d += 1;
        }
        r
    }

    /// Appends to `job_set` each job of the tree, from the root down, with
    /// `pre_len` plus the number of values that the job has yet to see.
    pub fn get_job_set(&self, job_set: &mut Vec<(u64, u64)>, pre_len: u64)
        requires
            self.wf(),
            pre_len <= u64::MAX - 0x1_0000_0000,
        ensures
            final(job_set)@.len() == old(job_set)@.len() + self@.len(),
            final(job_set)@.take(old(job_set)@.len() as int) == old(job_set)@,
            forall|d: int|
                0 <= d < self@.len() ==> #[trigger] final(job_set)@[old(job_set)@.len() + d] == (
                    self@[d].job,
                    (pre_len + values_at(self@, d).len()) as u64,
                ),
    {
        let ghost t = self@;
        let ghost base = job_set@.len() as int;
        let mut path: u64 = 0;
        let mut d: usize = 0;
        while d < self.levels.len()
            invariant
                t == self@,
                self.wf(),
                0 <= d <= self.levels@.len(),
                path == path_len(t, d as int),
                pre_len <= u64::MAX - 0x1_0000_0000,
                base == old(job_set)@.len(),
                job_set@.len() == base + d,
                job_set@.take(base) == old(job_set)@,
                forall|x: int|
                    0 <= x < d ==> #[trigger] job_set@[base + x] == (
                        t[x].job,
                        (pre_len + values_at(t, x).len()) as u64,
                    ),
            decreases self.levels@.len() - d,
        {
            proof {
                lemma_path_len(t, d + 1);
                lemma_values_len(t, d as int);
            }
            let ghost before = job_set@;
            path = path + self.levels[d].values_set.len();
            job_set.push((self.levels[d].job, pre_len + path + self.levels[d].leaf.len()));
            proof {
                assert(job_set@.take(base) =~= before.take(base));
                assert forall|x: int| 0 <= x < d + 1 implies #[trigger] job_set@[base + x] == (
                    t[x].job,
                    (pre_len + values_at(t, x).len()) as u64,
                ) by {
                    if x < d {
                        assert(job_set@[base + x] == before[base + x]);
                    }
                }
            }
            d += 1;
        }
    }

    /// The tree that holds the jobs of this tree and the one job of `other`.
    ///
    /// At each node from the root down, the values that the node and the new
    /// job share become the node of a new level. Where the new job has no
    /// more values left than the shortest job below, it becomes the left leaf
    /// of that level; where the node was the last, the node's own job becomes
    /// the left leaf and the new job the last level; otherwise what the node
    /// keeps is handed down to both its children, and the new job goes on
    /// into the right one.
    pub fn insert(self, other: Node) -> (r: Node)
        requires
            self.wf(),
            other.wf(),
            other@.len() == 1,
            !has_job(self@, other@[0].job),
        ensures
            r.wf(),
            r@.len() == self@.len() + 1,
            forall|job: u64| has_job(r@, job) == (has_job(self@, job) || job == other@[0].job),
            values_of(r@, other@[0].job) == other@[0].node,
            forall|job: u64| job != other@[0].job ==> values_of(r@, job) == values_of(self@, job),
            (exists|e: int| #[trigger]
                inserted_as_leaf(self@, other@[0].node, other@[0].job, e, r@)) || inserted_as_last(
                self@,
                other@[0].node,
                other@[0].job,
                r@,
            ),
    {
        let ghost t = self@;
        let ghost big_n = other@[0].node;
        let ghost lv0 = self.levels@;
        assert(lv0.len() == self.levels.len());
        let mut levels = self.levels;
        let mut olevels = other.levels;
        let first = olevels.remove(0);
        let job = first.job;
        let mut n = first.values_set;
        let mut carry = ValueSet::new();
        let mut out: Vec<Level> = Vec::new();
        let mut d: usize = 0;
        proof {
            assert(n@ == big_n);
            n.lemma_blocks();
            assert(path_values(t, 0) =~= Set::<u32>::empty());
            assert(n@ =~= big_n.difference(path_values(t, 0)));
            assert(carry@ =~= path_values(t, 0).difference(big_n));
            assert(levels@ =~= lv0.skip(0));
        }
        loop
            invariant_except_break
                0 <= d < lv0.len(),
                levels@ == lv0.skip(d as int),
                out@.len() == d,
                n.wf(),
                carry.wf(),
                n@ == big_n.difference(path_values(t, d as int)),
                carry@ == path_values(t, d as int).difference(big_n),
                forall|x: int|
                    0 <= x < d ==> (#[trigger] out@[x]).values_set.wf() && out@[x].leaf.wf()
                        && out@[x].job == t[x].job && out@[x].values_set@ == t[x].node.intersect(
                        big_n,
                    ) && out@[x].leaf@ == t[x].leaf.union(
                        path_values(t, x + 1).difference(big_n),
                    ),
            invariant
                t == self@,
                lv0 == self.levels@,
                self.wf(),
                big_n.finite(),
                !has_job(t, job),
                lv0.len() <= usize::MAX,
            ensures
                r_is(out@, t, big_n, job),
                forall|x: int|
                    0 <= x < out@.len() ==> (#[trigger] out@[x]).values_set.wf()
                        && out@[x].leaf.wf(),
            decreases lv0.len() - d,
        {
            let ghost di = d as int;
            let lvl = levels.remove(0);
            proof {
                assert(lvl == lv0[di]);
                assert(lvl.values_set.wf() && lvl.leaf.wf());
                assert(lvl.values_set@ == t[di].node && lvl.leaf@ == t[di].leaf && lvl.job
                    == t[di].job);
                assert(levels@ =~= lv0.skip(di + 1));
                lemma_path_step(t, di);
                lemma_path_disjoint(t, di);
            }
            let s = lvl.values_set.union(&carry);
            let i = s.intersection(&n);
            let s2 = s.difference(&i);
            let n2 = n.difference(&i);
            proof {
                assert(i@ =~= t[di].node.intersect(big_n));
                assert(s2@ =~= path_values(t, di + 1).difference(big_n));
                assert(n2@ =~= big_n.difference(path_values(t, di + 1)));
            }
            if n.len() <= s.len() + lvl.leaf.len() {
                out.push(Level { values_set: i, leaf: n2, job });
                out.push(Level { values_set: s2, leaf: lvl.leaf, job: lvl.job });
                let ghost mid = out@;
                out.append(&mut levels);
                proof {
                    let r = levels_view(out@);
                    assert forall|y: int| di + 1 < y < r.len() implies #[trigger] r[y] == t[y
                        - 1] by {
                        assert(out@[y] == lv0.skip(di + 1)[y - di - 2]);
                    }
                    assert forall|x: int| 0 <= x < di implies (#[trigger] r[x]).job == t[x].job
                        && r[x].node == t[x].node.intersect(big_n) && r[x].leaf == t[x].leaf.union(
                        path_values(t, x + 1).difference(big_n),
                    ) by {
                        assert(out@[x] == mid[x]);
                    }
                    assert(out@[di] == mid[di]);
                    assert(out@[di + 1] == mid[di + 1]);
                    assert(inserted_as_leaf(t, big_n, job, di, r));
                    assert forall|x: int| 0 <= x < out@.len() implies (
                    #[trigger] out@[x]).values_set.wf() && out@[x].leaf.wf() by {
                        if x <= di + 1 {
                            assert(out@[x] == mid[x]);
                        } else {
                            assert(out@[x] == lv0[x - 1]);
                        }
                    }
                }
                break ;
            } else if levels.len() == 0 {
                out.push(Level { values_set: i, leaf: s2, job: lvl.job });
                out.push(Level { values_set: n2, leaf: ValueSet::new(), job });
                proof {
                    let r = levels_view(out@);
                    assert(di == t.len() - 1);
                    assert(inserted_as_last(t, big_n, job, r));
                }
                break ;
            } else {
                let leaf = lvl.leaf.union(&s2);
                out.push(Level { values_set: i, leaf, job: lvl.job });
                carry = s2;
                n = n2;
                d += 1;
            }
        }
        let r = Node { levels: out };
        proof {
            assert(r@ =~= levels_view(out@));
            let rv = r@;
            if exists|e: int| inserted_as_leaf(t, big_n, job, e, rv) {
                let e = choose|e: int| inserted_as_leaf(t, big_n, job, e, rv);
                lemma_inserted_as_leaf(t, big_n, job, e, rv);
                assert forall|x: int| 0 <= x < rv.len() implies #[trigger] values_at(rv, x) == (if x
                    < e {
                    values_at(t, x)
                } else if x == e {
                    big_n
                } else {
                    values_at(t, x - 1)
                }) && rv[x].job == (if x < e {
                    t[x].job
                } else if x == e {
                    job
                } else {
                    t[x - 1].job
                }) by {
                    if x > e + 1 {
                        assert(rv[x] == t[x - 1]);
                    }
                }
                lemma_insert_values(t, big_n, job, e, rv);
            } else {
                lemma_inserted_as_last(t, big_n, job, rv);
                let e = t.len() as int;
                assert forall|x: int| 0 <= x < rv.len() implies #[trigger] values_at(rv, x) == (if x
                    < e {
                    values_at(t, x)
                } else if x == e {
                    big_n
                } else {
                    values_at(t, x - 1)
                }) && rv[x].job == (if x < e {
                    t[x].job
                } else if x == e {
                    job
                } else {
                    t[x - 1].job
                }) by {}
                lemma_insert_values(t, big_n, job, e, rv);
            }
        }
        r
    }

    /// The level at which `job_id` stands.
    pub fn find_job(&self, job_id: u64) -> (r: Option<usize>)
        requires
            self.wf(),
        ensures
            match r {
                Some(p) => p < self@.len() && self@[p as int].job == job_id && has_job(
                    self@,
                    job_id,
                ) && job_index(self@, job_id) == p,
                None => !has_job(self@, job_id),
            },
    {
        let mut p: usize = 0;
        while p < self.levels.len()
            invariant
                self.wf(),
                0 <= p <= self.levels@.len(),
                forall|x: int| 0 <= x < p ==> (#[trigger] self@[x]).job != job_id,
            decreases self.levels@.len() - p,
        {
            if self.levels[p].job == job_id {
                proof {
                    lemma_job_index(self@, p as int);
                }
                return Some(p);
            }
            p += 1;
        }
        None
    }

    /// The tree without the job `id`; none where the tree had no other job.
    ///
    /// Where the job's leaf hung under a node of the spine, the node below
    /// takes that node's place and its values; where the job was the last of
    /// the spine, the leaf of the node above takes the node's place and its
    /// values.
    pub fn delete(self, id: u64) -> (r: Option<Node>)
        requires
            self.wf(),
        ensures
            r is None <==> (self@.len() == 1 && self@[0].job == id),
            match r {
                Some(n) => {
                    &&& n.wf()
                    &&& forall|job: u64| has_job(n@, job) == (has_job(self@, job) && job != id)
                    &&& forall|job: u64| job != id ==> values_of(n@, job) == values_of(self@, job)
                },
                None => true,
            },
    {
        let ghost t = self@;
        let ghost lv0 = self.levels@;
        let found = self.find_job(id);
        match found {
            None => {
                Some(self)
            },
            Some(p) => {
                let total = self.levels.len();
                if total == 1 {
                    return None;
                }
                let mut levels = self.levels;
                let gone = levels.remove(p);
                if p + 1 < total {
                    let below = levels.remove(p);
                    let values_set = below.values_set.union(&gone.values_set);
                    proof {
                        assert(gone == lv0[p as int]);
                        assert(below == lv0[p + 1]);
                        assert(values_set@ =~= t[p as int].node.union(t[p + 1].node));
                    }
                    levels.insert(p, Level { values_set, leaf: below.leaf, job: below.job });
                    let n = Node { levels };
                    proof {
                        let r = n@;
                        assert forall|x: int| 0 <= x < p implies #[trigger] r[x] == t[x] by {
                            assert(n.levels@[x] == lv0[x]);
                        }
                        assert forall|y: int| p < y < r.len() implies #[trigger] r[y] == t[y + 1] by {
                            assert(n.levels@[y] == lv0[y + 1]);
                        }
                        assert(removed_level(t, p as int, r));
                        lemma_removed_level(t, p as int, r);
                        assert forall|x: int| 0 <= x < r.len() implies (#[trigger] r[x]).job == t[if x
                            < p {
                            x
                        } else {
                            x + 1
                        }].job && values_at(r, x) == values_at(t, if x < p { x } else { x + 1 }) by {
                            if x < p {
                                assert(r[x] == t[x]);
                            } else if x > p {
                                assert(r[x] == t[x + 1]);
                            }
                        }
                        lemma_delete_values(t, p as int, r);
                        assert(n.sets_wf()) by {
                            assert forall|d: int| 0 <= d < n.levels@.len() implies (
                            #[trigger] n.levels@[d]).values_set.wf() && n.levels@[d].leaf.wf() by {
                                if d < p {
                                    assert(n.levels@[d] == lv0[d]);
                                } else if d > p {
                                    assert(n.levels@[d] == lv0[d + 1]);
                                }
                            }
                        }
                    }
                    Some(n)
                } else {
                    let above = levels.remove(p - 1);
                    let values_set = above.values_set.union(&above.leaf);
                    proof {
                        assert(above == lv0[p - 1]);
                    }
                    levels.push(Level { values_set, leaf: ValueSet::new(), job: above.job });
                    let n = Node { levels };
                    proof {
                        let r = n@;
                        assert forall|x: int| 0 <= x < p - 1 implies #[trigger] r[x] == t[x] by {
                            assert(n.levels@[x] == lv0[x]);
                        }
                        assert(removed_last(t, r));
                        lemma_removed_last(t, r);
                        lemma_delete_values(t, p as int, r);
                        assert(n.sets_wf()) by {
                            assert forall|d: int| 0 <= d < n.levels@.len() implies (
                            #[trigger] n.levels@[d]).values_set.wf() && n.levels@[d].leaf.wf() by {
                                if d < p - 1 {
                                    assert(n.levels@[d] == lv0[d]);
                                }
                            }
                        }
                    }
                    Some(n)
                }
            },
        }
    }

    /// Puts `item` into the node of the spine at level `d`, or into the left
    /// leaf of that level.
    fn add_value(&mut self, d: usize, leaf: bool, item: u32)
        requires
            old(self).sets_wf(),
            d < old(self)@.len(),
        ensures
            final(self).sets_wf(),
            same_but(old(self)@, final(self)@, d as int),
            final(self)@[d as int].node == if leaf {
                old(self)@[d as int].node
            } else {
                old(self)@[d as int].node.insert(item)
            },
            final(self)@[d as int].leaf == if leaf {
                old(self)@[d as int].leaf.insert(item)
            } else {
                old(self)@[d as int].leaf
            },
    {
        let ghost lv0 = self.levels@;
        let mut lvl = self.levels.remove(d);
        assert(lvl == lv0[d as int]);
        if leaf {
            lvl.leaf.set(item);
        } else {
            lvl.values_set.set(item);
        }
        self.levels.insert(d, lvl);
        proof {
            assert forall|x: int| 0 <= x < lv0.len() && x != d implies self.levels@[x] == lv0[x] by {}
            assert forall|x: int| 0 <= x < lv0.len() && x != d implies #[trigger] self@[x] == old(self)@[x] by {
                assert(self.levels@[x] == lv0[x]);
            }
        }
    }

    /// Draws a value from the node of the spine at level `d`, or from the
    /// left leaf of that level; the value leaves it.
    fn pick_value(&mut self, d: usize, leaf: bool, rng: &mut SmallRng) -> (item: u32)
        requires
            old(self).sets_wf(),
            d < old(self)@.len(),
            (if leaf {
                old(self)@[d as int].leaf
            } else {
                old(self)@[d as int].node
            }).len() > 0,
        ensures
            final(self).sets_wf(),
            same_but(old(self)@, final(self)@, d as int),
            (if leaf {
                old(self)@[d as int].leaf
            } else {
                old(self)@[d as int].node
            }).contains(item),
            final(self)@[d as int].node == if leaf {
                old(self)@[d as int].node
            } else {
                old(self)@[d as int].node.remove(item)
            },
            final(self)@[d as int].leaf == if leaf {
                old(self)@[d as int].leaf.remove(item)
            } else {
                old(self)@[d as int].leaf
            },
    {
        let ghost lv0 = self.levels@;
        let mut lvl = self.levels.remove(d);
        assert(lvl == lv0[d as int]);
        let item = if leaf {
            lvl.leaf.random_pick_with(rng)
        } else {
            lvl.values_set.random_pick_with(rng)
        };
        self.levels.insert(d, lvl);
        proof {
            assert forall|x: int| 0 <= x < lv0.len() && x != d implies self.levels@[x] == lv0[x] by {}
            assert forall|x: int| 0 <= x < lv0.len() && x != d implies #[trigger] self@[x] == old(self)@[x] by {
                assert(self.levels@[x] == lv0[x]);
            }
        }
        item
    }

    /// The jobs of the node of the spine at level `depth`, or of the left
    /// leaf of that level, that are not among `job_ids`.
    pub fn jobs_without(&self, depth: usize, leaf: bool, job_ids: &Vec<u64>) -> (r: Vec<u64>)
        requires
            self.wf(),
            depth < self@.len(),
        ensures
            forall|y: int|
                0 <= y < self@.len() ==> r@.contains(#[trigger] self@[y].job) == ((if leaf {
                    y == depth
                } else {
                    y >= depth
                }) && !job_ids@.contains(self@[y].job)),
            forall|id: u64| r@.contains(id) ==> has_job(self@, id),
    {
        let ghost t = self@;
        let mut r: Vec<u64> = Vec::new();
        let mut y: usize = depth;
        let total = self.levels.len();
        assert(t.len() == total);
        let end: usize = if leaf { depth + 1 } else { total };
        while y < end
            invariant
                t == self@,
                self.wf(),
                depth <= y <= end,
                end == if leaf { depth + 1 } else { t.len() as int },
                end <= t.len(),
                forall|x: int|
                    0 <= x < t.len() ==> r@.contains(#[trigger] t[x].job) == (depth <= x < y
                        && !job_ids@.contains(t[x].job)),
                forall|id: u64| r@.contains(id) ==> has_job(t, id),
            decreases end - y,
        {
            let job = self.levels[y].job;
            let ghost before = r@;
            if !contains_id(job_ids, job) {
                r.push(job);
            }
            proof {
                assert(t[y as int].job == job);
                assert forall|id: u64| r@.contains(id) == (before.contains(id) || (id == job
                    && !job_ids@.contains(job))) by {
                    if r@.contains(id) && r@.len() > before.len() {
                        let i = choose|i: int| 0 <= i < r@.len() && r@[i] == id;
                        if i < before.len() {
                            assert(before[i] == id);
                        }
                    }
                    if before.contains(id) {
                        let i = choose|i: int| 0 <= i < before.len() && before[i] == id;
                        assert(r@[i] == id);
                    }
                    if id == job && !job_ids@.contains(job) {
                        assert(r@[before.len() as int] == id);
                    }
                }
                assert forall|x: int| 0 <= x < t.len() implies r@.contains(#[trigger] t[x].job) == (
                depth <= x < y + 1 && !job_ids@.contains(t[x].job)) by {
                    if x != y {
                        if x < y {
                            assert(t[x].job != t[y as int].job);
                        } else {
                            assert(t[y as int].job != t[x].job);
                        }
                    }
                }
            }
            y += 1;
        }
        r
    }

    /// Draws a value from the node of the spine at level `depth`, or from
    /// the left leaf of that level, for the jobs `job_ids`. The value leaves
    /// the node, and comes back with the jobs of the node that are not among
    /// `job_ids`: they have yet to see it.
    pub fn random_choose(
        &mut self,
        depth: usize,
        leaf: bool,
        job_ids: &Vec<u64>,
        rng: &mut SmallRng,
    ) -> (r: (u32, Vec<u64>))
        requires
            old(self).wf(),
            depth < old(self)@.len(),
            leaf ==> depth < old(self)@.len() - 1,
            (if leaf {
                old(self)@[depth as int].leaf
            } else {
                old(self)@[depth as int].node
            }).len() > 0,
        ensures
            final(self).wf(),
            same_but(old(self)@, final(self)@, depth as int),
            final(self)@[depth as int].node == if leaf {
                old(self)@[depth as int].node
            } else {
                old(self)@[depth as int].node.remove(r.0)
            },
            final(self)@[depth as int].leaf == if leaf {
                old(self)@[depth as int].leaf.remove(r.0)
            } else {
                old(self)@[depth as int].leaf
            },
            forall|y: int|
                0 <= y < old(self)@.len() ==> #[trigger] values_at(final(self)@, y) == (if (if leaf {
                    y == depth
                } else {
                    y >= depth
                }) {
                    values_at(old(self)@, y).remove(r.0)
                } else {
                    values_at(old(self)@, y)
                }),
            forall|y: int|
                0 <= y < old(self)@.len() && (if leaf {
                    y == depth
                } else {
                    y >= depth
                }) ==> (#[trigger] values_at(old(self)@, y)).contains(r.0),
            forall|y: int|
                0 <= y < old(self)@.len() ==> r.1@.contains(#[trigger] old(self)@[y].job) == ((if leaf {
                    y == depth
                } else {
                    y >= depth
                }) && !job_ids@.contains(old(self)@[y].job)),
            forall|id: u64| r.1@.contains(id) ==> has_job(old(self)@, id),
    {
        let ghost t = self@;
        let compensation = self.jobs_without(depth, leaf, job_ids);
        let item = self.pick_value(depth, leaf, rng);
        proof {
            if leaf {
                lemma_take_from_leaf(t, depth as int, item, self@);
            } else {
                lemma_take_from_node(t, depth as int, item, self@);
            }
        }
        (item, compensation)
    }

    /// Puts `item` back for the jobs `comp`, none of which has it to see:
    /// into the highest node of the spine all of whose jobs are among
    /// `comp`, and into the leaf of each job of `comp` above that node.
    pub fn complent(&mut self, comp: &Vec<u64>, item: u32)
        requires
            old(self).wf(),
            forall|y: int|
                0 <= y < old(self)@.len() && comp@.contains(old(self)@[y].job) ==> !(
                #[trigger] values_at(old(self)@, y)).contains(item),
        ensures
            final(self).wf(),
            final(self)@.len() == old(self)@.len(),
            forall|y: int|
                0 <= y < old(self)@.len() ==> (#[trigger] final(self)@[y]).job == old(self)@[y].job
                    && old(self)@[y].node.subset_of(final(self)@[y].node) && old(self)@[y].leaf.subset_of(final(self)@[y].leaf),
            forall|y: int|
                0 <= y < old(self)@.len() ==> #[trigger] values_at(final(self)@, y) == (if comp@.contains(
                    old(self)@[y].job,
                ) {
                    values_at(old(self)@, y).insert(item)
                } else {
                    values_at(old(self)@, y)
                }),
    {
        let ghost t = self@;
        let total = self.levels.len();
        // The highest level from which on every job is among `comp`.
        let mut star: usize = total;
        while star > 0 && contains_id(comp, self.levels[star - 1].job)
            invariant
                t == self@,
                0 <= star <= total,
                total == t.len(),
                forall|y: int| star <= y < total ==> comp@.contains(#[trigger] t[y].job),
            decreases star,
        {
            star -= 1;
        }
        let mut x: usize = 0;
        while x < star
            invariant
                self.wf(),
                0 <= x <= star <= total,
                total == t.len(),
                self@.len() == t.len(),
                tree_wf(t),
                forall|y: int|
                    0 <= y < t.len() && comp@.contains(t[y].job) ==> !(#[trigger] values_at(
                        t,
                        y,
                    )).contains(item),
                forall|y: int|
                    0 <= y < t.len() ==> (#[trigger] self@[y]).job == t[y].job
                        && t[y].node.subset_of(self@[y].node) && t[y].leaf.subset_of(self@[y].leaf),
                forall|y: int|
                    0 <= y < x ==> #[trigger] values_at(self@, y) == (if comp@.contains(t[y].job) {
                        values_at(t, y).insert(item)
                    } else {
                        values_at(t, y)
                    }),
                forall|y: int| x <= y < t.len() ==> #[trigger] values_at(self@, y) == values_at(t, y),
                forall|y: int| star <= y < total ==> comp@.contains(#[trigger] t[y].job),
                star > 0 ==> !comp@.contains(t[star - 1].job),
            decreases star - x,
        {
            let ghost cur = self@;
            if x + 1 < total && contains_id(comp, self.levels[x].job) {
                assert(cur[x as int].job == t[x as int].job);
                assert(values_at(cur, x as int) == values_at(t, x as int));
                self.add_value(x, true, item);
                proof {
                    lemma_add_to_leaf(cur, x as int, item, self@);
                    assert forall|y: int| 0 <= y < t.len() implies (#[trigger] self@[y]).job
                        == t[y].job && t[y].node.subset_of(self@[y].node) && t[y].leaf.subset_of(
                        self@[y].leaf,
                    ) by {
                        assert(cur[y].job == t[y].job);
                        if y != x {
                            assert(self@[y] == cur[y]);
                        }
                    }
                    assert forall|y: int| 0 <= y < x + 1 implies #[trigger] values_at(self@, y) == (
                    if comp@.contains(t[y].job) {
                        values_at(t, y).insert(item)
                    } else {
                        values_at(t, y)
                    }) by {
                        if y < x {
                            assert(values_at(self@, y) == values_at(cur, y));
                        }
                    }
                    assert forall|y: int| x + 1 <= y < t.len() implies #[trigger] values_at(
                        self@,
                        y,
                    ) == values_at(t, y) by {
                        assert(values_at(self@, y) == values_at(cur, y));
                    }
                }
            } else {
                proof {
                    assert(cur[x as int].job == t[x as int].job);
                    if x + 1 == total {
                        assert(star == total);
                    }
                }
            }
            x += 1;
        }
        if star < total {
            let ghost cur = self@;
            proof {
                assert forall|y: int| star <= y < t.len() implies !(#[trigger] values_at(
                    cur,
                    y,
                )).contains(item) by {
                    assert(comp@.contains(t[y].job));
                    assert(values_at(cur, y) == values_at(t, y));
                }
            }
            self.add_value(star, false, item);
            proof {
                lemma_add_to_node(cur, star as int, item, self@);
                assert forall|y: int| 0 <= y < t.len() implies (#[trigger] self@[y]).job == t[y].job
                    && t[y].node.subset_of(self@[y].node) && t[y].leaf.subset_of(self@[y].leaf) by {
                    assert(cur[y].job == t[y].job);
                    if y != star {
                        assert(self@[y] == cur[y]);
                    }
                }
                assert forall|y: int| 0 <= y < t.len() implies #[trigger] values_at(self@, y) == (
                if comp@.contains(t[y].job) {
                    values_at(t, y).insert(item)
                } else {
                    values_at(t, y)
                }) by {
                    if y < star {
                        assert(values_at(self@, y) == values_at(cur, y));
                    } else {
                        assert(comp@.contains(t[y].job));
                        assert(values_at(cur, y) == values_at(t, y));
                    }
                }
            }
        }
    }

    /// Lets the jobs of the levels `d` and `d + 1` change places.
    fn rotate(&mut self, d: usize)
        requires
            old(self).wf(),
            d + 1 < old(self)@.len(),
        ensures
            final(self).wf(),
            final(self)@.len() == old(self)@.len(),
            forall|k: u64| has_job(final(self)@, k) == has_job(old(self)@, k),
            forall|k: u64| values_of(final(self)@, k) == values_of(old(self)@, k),
            forall|x: int| 0 <= x < d ==> #[trigger] final(self)@[x] == old(self)@[x],
            final(self)@[d as int].leaf.len() == old(self)@[d + 1].node.len() + old(self)@[d + 1].leaf.len(),
            final(self)@[d + 1].node.len() + final(self)@[d + 1].leaf.len() == old(self)@[d as int].leaf.len(),
    {
        let ghost t = self@;
        let ghost lv0 = self.levels@;
        let total = self.levels.len();
        proof {
            let la = t[d as int].leaf;
            let rn = t[d + 1].node;
            let rl = t[d + 1].leaf;
            assert(la.finite() && rn.finite() && rl.finite());
            assert(rn.disjoint(rl));
            lemma_set_disjoint_lens(rn, rl);
            vstd::set_lib::lemma_set_intersect_union_lens(rn, la);
            vstd::set_lib::lemma_set_difference_len(la, rn);
            assert(rn.intersect(la) =~= la.intersect(rn));
        }
        let a = self.levels.remove(d);
        let b = self.levels.remove(d);
        proof {
            assert(a == lv0[d as int]);
            assert(b == lv0[d + 1]);
            assert(a.values_set.wf() && a.leaf.wf() && b.values_set.wf() && b.leaf.wf());
        }
        if d + 2 < total {
            let c = self.levels.remove(d);
            assert(c == lv0[d + 2]);
            let leaf_d = b.values_set.union(&b.leaf);
            let node_d1 = b.values_set.intersection(&a.leaf);
            let leaf_d1 = a.leaf.difference(&b.values_set);
            let diff = b.values_set.difference(&a.leaf);
            let node_d2 = c.values_set.union(&diff);
            self.levels.insert(d, Level { values_set: a.values_set, leaf: leaf_d, job: b.job });
            self.levels.insert(d + 1, Level { values_set: node_d1, leaf: leaf_d1, job: a.job });
            self.levels.insert(d + 2, Level { values_set: node_d2, leaf: c.leaf, job: c.job });
            proof {
                let r = self@;
                assert forall|x: int| 0 <= x < lv0.len() && !(d <= x <= d + 2) implies self.levels@[x]
                    == lv0[x] by {}
                assert forall|x: int| 0 <= x < t.len() && !(d <= x <= d + 2) implies #[trigger] r[x]
                    == t[x] by {
                    assert(self.levels@[x] == lv0[x]);
                }
                assert(rotated_inner(t, d as int, r));
                lemma_rotated_inner(t, d as int, r);
                assert(r[d + 1].node.disjoint(r[d + 1].leaf));
            }
        } else {
            self.levels.insert(d, Level { values_set: a.values_set, leaf: b.values_set, job: b.job });
            self.levels.insert(d + 1, Level { values_set: a.leaf, leaf: b.leaf, job: a.job });
            proof {
                let r = self@;
                assert forall|x: int| 0 <= x < d implies self.levels@[x] == lv0[x] by {}
                assert forall|x: int| 0 <= x < d implies #[trigger] r[x] == t[x] by {
                    assert(self.levels@[x] == lv0[x]);
                }
                assert(rotated_last(t, r));
                lemma_rotated_last(t, r);
            }
        }
    }

    /// One pass from the lowest node of the spine up to the root: where the
    /// left leaf of a node holds more values than the shortest job of its
    /// right child, the two jobs change places. Every job keeps the values
    /// it has yet to see.
    pub fn rebalance(&mut self)
        requires
            old(self).wf(),
        ensures
            final(self).wf(),
            final(self)@.len() == old(self)@.len(),
            forall|k: u64| has_job(final(self)@, k) == has_job(old(self)@, k),
            forall|k: u64| values_of(final(self)@, k) == values_of(old(self)@, k),
            final(self)@.len() >= 2 ==> final(self)@[0].leaf.len() <= final(self)@[1].node.len()
                + final(self)@[1].leaf.len(),
    {
        let total = self.levels.len();
        assert(total == self@.len());
        if total < 2 {
            return ;
        }
        let mut d: usize = total - 1;
        while d > 0
            invariant
                self.wf(),
                0 <= d < total,
                total == self@.len(),
                total == old(self)@.len(),
                forall|k: u64| has_job(self@, k) == has_job(old(self)@, k),
                forall|k: u64| values_of(self@, k) == values_of(old(self)@, k),
                d + 1 < total ==> self@[d as int].leaf.len() <= self@[d + 1].node.len() + self@[d
                    + 1].leaf.len(),
            decreases d,
        {
            d -= 1;
            assert(self.levels@.len() == total);
            let left = self.levels[d].leaf.len();
            let right = self.levels[d + 1].values_set.len() + self.levels[d + 1].leaf.len();
            if left > right {
                self.rotate(d);
            }
        }
    }

    /// The values that `job_id` has yet to see, each once.
    pub fn get_job_values(&self, job_id: u64) -> (res: Vec<u32>)
        requires
            self.wf(),
        ensures
            res@.no_duplicates(),
            forall|v: u32| res@.contains(v) == values_of(self@, job_id).contains(v),
    {
        let ghost t = self@;
        let mut res: Vec<u32> = Vec::new();
        let found = self.find_job(job_id);
        match found {
            None => {},
            Some(p) => {
                let mut x: usize = 0;
                let total = self.levels.len();
                proof {
                    assert(path_values(t, 0) =~= Set::<u32>::empty());
                }
                while x <= p
                    invariant
                        t == self@,
                        self.wf(),
                        0 <= x <= p + 1,
                        p < t.len(),
                        p < total,
                        total == self.levels@.len(),
                        res@.no_duplicates(),
                        forall|v: u32| res@.contains(v) == path_values(t, x as int).contains(v),
                    decreases p + 1 - x,
                {
                    let mut part = self.levels[x].values_set.as_vec();
                    proof {
                        lemma_path_step(t, x as int);
                        lemma_path_disjoint(t, x as int);
                        lemma_append_distinct(res@, part@);
                        assert forall|v: u32| part@.contains(v) implies !res@.contains(v) by {
                            assert(t[x as int].node.contains(v));
                        }
                    }
                    res.append(&mut part);
                    x += 1;
                }
                let mut part = self.levels[p].leaf.as_vec();
                proof {
                    lemma_path_disjoint(t, p as int);
                    lemma_append_distinct(res@, part@);
                    assert forall|v: u32| part@.contains(v) implies !res@.contains(v) by {
                        assert(t[p as int].leaf.contains(v));
                    }
                }
                res.append(&mut part);
            },
        }
        res
    }

    /// Decides, for one turn, which node gives a value to which jobs. Every
    /// job of the tree takes its value from one node on its way from the
    /// root, and no node gives more than one value.
    ///
    /// From the root down, the jobs are asked in turn whether they take a
    /// value that they share with the jobs before them: the first of them
    /// with the chance that the nodes passed since the last decision hold of
    /// what it can still take there, each next one with the chance that the
    /// job before it had of what it can take itself. Those that say yes
    /// share one value, of one of those nodes, drawn by weight. Where the
    /// first says no, it takes a value of its own leaf. A job that finds
    /// nothing to take below the last decision takes a value of the lowest
    /// node above it that holds one.
    pub fn decide(&self, decisions: &mut Vec<Decision>, rng: &mut SmallRng)
        requires
            self.wf(),
            no_job_drained(self@),
            old(decisions)@.len() == 0,
        ensures
            decisions_fit(self@, final(decisions)@),
            forall|id: u64| job_decided(final(decisions)@, id) == has_job(self@, id),
    {
        let ghost t = self@;
        let total = self.levels.len();
        let mut pos: usize = 0;
        let mut start: usize = 0;
        proof {
            assert(t.len() == total);
            assert(decisions_fit(t, decisions@));
        }
        while pos < total
            invariant
                t == self@,
                self.wf(),
                no_job_drained(t),
                total == t.len(),
                total == self.levels@.len(),
                0 <= start <= pos <= total,
                decisions_fit(t, decisions@),
                forall|id: u64|
                    job_decided(decisions@, id) == (exists|y: int|
                        0 <= y < pos && (#[trigger] t[y]).job == id),
            decreases total - pos,
        {
            let ghost pos0 = pos as int;
            // The nodes of the spine passed since the last decision that
            // hold a value, and how many each holds.
            let mut node_set: Vec<usize> = Vec::new();
            let mut weights: Vec<u64> = Vec::new();
            let mut common: u64 = 0;
            let mut x: usize = start;
            proof {
                lemma_path_len(t, start as int);
            }
            while x <= pos
                invariant
                    t == self@,
                    self.wf(),
                    total == t.len(),
                    total == self.levels@.len(),
                    start <= x <= pos + 1,
                    pos < total,
                    node_set@.len() == weights@.len(),
                    forall|i: int|
                        0 <= i < node_set@.len() ==> start <= (#[trigger] node_set@[i]) <= pos
                            && t[node_set@[i] as int].node != Set::<u32>::empty() && weights@[i]
                            > 0,
                    common == weights_sum(weights@),
                    common + path_len(t, start as int) == path_len(t, x as int),
                    path_len(t, x as int) <= 0x1_0000_0000,
                decreases pos + 1 - x,
            {
                let held = self.levels[x].values_set.len();
                proof {
                    lemma_path_len(t, x + 1);
                }
                if held != 0 {
                    proof {
                        assert(weights@.push(held).drop_last() =~= weights@);
                        assert(t[x as int].node.len() > 0);
                        assert(t[x as int].node != Set::<u32>::empty());
                    }
                    node_set.push(x);
                    weights.push(held);
                    common = common + held;
                }
                x += 1;
            }
            // How many of the jobs take a value that they share.
            let mut last_common: u64 = common;
            let mut run: u64 = common;
            let mut p: usize = pos;
            while p < total
                invariant_except_break
                    p < total ==> run + path_len(t, start as int) == path_len(
                        t,
                        if p == pos {
                            p + 1
                        } else {
                            p as int
                        },
                    ),
                    run <= 0x1_0000_0000,
                invariant
                    t == self@,
                    self.wf(),
                    total == t.len(),
                    total == self.levels@.len(),
                    pos <= p <= total,
                    pos < total,
                    p > pos ==> common > 0,
                    p == pos ==> last_common == common,
                ensures
                    pos <= p <= total,
                    p > pos ==> common > 0,
                decreases total - p,
            {
                if p > pos {
                    proof {
                        lemma_path_len(t, p + 1);
                    }
                    run = run + self.levels[p].values_set.len();
                }
                proof {
                    lemma_path_len(t, p + 1);
                    lemma_values_len(t, p as int);
                }
                let within = run + self.levels[p].leaf.len();
                if within == 0 {
                    break ;
                }
                let draw = random_below(rng, within);
                if draw >= last_common {
                    break ;
                }
                last_common = within;
                p += 1;
                proof {
                    if p < total {
                        lemma_path_len(t, p as int);
                    }
                }
            }
            if p == pos {
                let job = self.levels[pos].job;
                assert(t[pos0].job == job);
                proof {
                    assert(!job_decided(decisions@, job)) by {
                        if job_decided(decisions@, job) {
                            let y = choose|y: int| 0 <= y < pos && (#[trigger] t[y]).job == job;
                            assert(t[y].job != t[pos0].job);
                        }
                    }
                }
                if pos + 1 < total && !self.levels[pos].leaf.is_empty() {
                    assign(decisions, pos, true, job, Ghost(t), Ghost(pos0));
                } else {
                    let mut up: usize = pos + 1;
                    while up > 0 && self.levels[up - 1].values_set.is_empty()
                        invariant
                            t == self@,
                            self.wf(),
                            total == t.len(),
                            total == self.levels@.len(),
                            0 <= up <= pos + 1,
                            pos < total,
                            forall|z: int| up <= z <= pos ==> (#[trigger] t[z]).node == Set::<
                                u32,
                            >::empty(),
                        decreases up,
                    {
                        up -= 1;
                    }
                    proof {
                        if up == 0 {
                            assert(t[pos0].leaf == Set::<u32>::empty());
                            assert(values_at(t, pos0) =~= Set::<u32>::empty()) by {
                                assert forall|v: u32| #[trigger]
                                    path_values(t, pos0 + 1).contains(v) implies false by {
                                    let z = choose|z: int|
                                        0 <= z < pos0 + 1 && z < t.len() && in_node(t, z, v);
                                    assert(t[z].node == Set::<u32>::empty());
                                }
                            }
                        }
                    }
                    assign(decisions, up - 1, false, job, Ghost(t), Ghost(pos0));
                }
                proof {
                    assert forall|id: u64|
                        job_decided(decisions@, id) == (exists|y: int|
                            0 <= y < pos + 1 && (#[trigger] t[y]).job == id) by {
                        if exists|y: int| 0 <= y < pos + 1 && (#[trigger] t[y]).job == id {
                            let y = choose|y: int| 0 <= y < pos + 1 && (#[trigger] t[y]).job == id;
                            if y < pos {
                                assert(exists|y: int| 0 <= y < pos && (#[trigger] t[y]).job == id);
                            }
                        }
                        if id == job {
                            assert(t[pos0].job == id);
                        }
                    }
                }
                start = pos + 1;
                pos = pos + 1;
            } else {
                let chosen = node_set[random_weight(rng, &weights)];
                let mut y: usize = pos;
                while y < p
                    invariant
                        t == self@,
                        self.wf(),
                        total == t.len(),
                        total == self.levels@.len(),
                        pos <= y <= p <= total,
                        start <= chosen <= pos,
                        t[chosen as int].node != Set::<u32>::empty(),
                        decisions_fit(t, decisions@),
                        forall|id: u64|
                            job_decided(decisions@, id) == (exists|z: int|
                                0 <= z < y && (#[trigger] t[z]).job == id),
                    decreases p - y,
                {
                    let job = self.levels[y].job;
                    assert(t[y as int].job == job);
                    proof {
                        assert(!job_decided(decisions@, job)) by {
                            if job_decided(decisions@, job) {
                                let z = choose|z: int| 0 <= z < y && (#[trigger] t[z]).job == job;
                                assert(t[z].job != t[y as int].job);
                            }
                        }
                    }
                    assign(decisions, chosen, false, job, Ghost(t), Ghost(y as int));
                    proof {
                        assert forall|id: u64|
                            job_decided(decisions@, id) == (exists|z: int|
                                0 <= z < y + 1 && (#[trigger] t[z]).job == id) by {
                            if exists|z: int| 0 <= z < y + 1 && (#[trigger] t[z]).job == id {
                                let z = choose|z: int|
                                    0 <= z < y + 1 && (#[trigger] t[z]).job == id;
                                if z < y {
                                    assert(exists|z: int|
                                        0 <= z < y && (#[trigger] t[z]).job == id);
                                }
                            }
                            if id == job {
                                assert(t[y as int].job == id);
                            }
                        }
                    }
                    y += 1;
                }
                start = pos + 1;
                pos = p;
            }
        }
    }
}

/// The levels of a list of levels, as sets.
spec fn levels_view(levels: Seq<Level>) -> Seq<LevelView> {
    Seq::new(
        levels.len(),
        |d: int|
            LevelView {
                node: levels[d].values_set@,
                leaf: levels[d].leaf@,
                job: levels[d].job,
            },
    )
}

/// The levels `r` hold the new job in one of the two ways.
spec fn r_is(out: Seq<Level>, t: Seq<LevelView>, n: Set<u32>, job: u64) -> bool {
    (exists|e: int| inserted_as_leaf(t, n, job, e, levels_view(out))) || inserted_as_last(
        t,
        n,
        job,
        levels_view(out),
    )
}

/// Where the levels of `r` are those of `t` with one level for `job` put in
/// at `e`, and every level has the values it had, the jobs of `r` are those
/// of `t` and `job`, each with its values.
proof fn lemma_insert_values(t: Seq<LevelView>, n: Set<u32>, job: u64, e: int, r: Seq<LevelView>)
    requires
        tree_wf(t),
        tree_wf(r),
        !has_job(t, job),
        0 <= e <= t.len(),
        r.len() == t.len() + 1,
        forall|x: int|
            0 <= x < r.len() ==> #[trigger] values_at(r, x) == (if x < e {
                values_at(t, x)
            } else if x == e {
                n
            } else {
                values_at(t, x - 1)
            }) && r[x].job == (if x < e {
                t[x].job
            } else if x == e {
                job
            } else {
                t[x - 1].job
            }),
    ensures
        forall|k: u64| has_job(r, k) == (has_job(t, k) || k == job),
        values_of(r, job) == n,
        forall|k: u64| k != job ==> values_of(r, k) == values_of(t, k),
{
    assert(0 <= e < r.len());
    let at_e = values_at(r, e);
    assert(at_e == n && r[e].job == job);
    lemma_job_index(r, e);
    assert forall|k: u64| has_job(r, k) == (has_job(t, k) || k == job) by {
        if has_job(r, k) {
            let x = choose|x: int| 0 <= x < r.len() && (#[trigger] r[x]).job == k;
            assert(values_at(r, x) == values_at(r, x));
            if x < e {
                assert(t[x].job == k);
            } else if x > e {
                assert(t[x - 1].job == k);
            }
        }
        if has_job(t, k) {
            let x = choose|x: int| 0 <= x < t.len() && (#[trigger] t[x]).job == k;
            let y = if x < e { x } else { x + 1 };
            assert(values_at(r, y) == values_at(r, y));
            assert(r[y].job == k);
        }
    }
    assert forall|k: u64| k != job implies values_of(r, k) == values_of(t, k) by {
        if has_job(t, k) {
            let x = job_index(t, k);
            lemma_job_index(t, x);
            let y = if x < e { x } else { x + 1 };
            assert(values_at(r, y) == values_at(t, x));
            assert(r[y].job == k);
            lemma_job_index(r, y);
        }
    }
}

/// Whether `id` is one of `ids`.
pub fn contains_id(ids: &Vec<u64>, id: u64) -> (r: bool)
    ensures
        r == ids@.contains(id),
{
    let mut i: usize = 0;
    while i < ids.len()
        invariant
            0 <= i <= ids@.len(),
            forall|x: int| 0 <= x < i ==> ids@[x] != id,
        decreases ids@.len() - i,
    {
        if ids[i] == id {
            return true;
        }
        i += 1;
    }
    false
}

/// What two lists hold when one is put behind the other; where the second
/// ascends and shares no value with the first, which holds none twice, the
/// whole holds none twice.
pub proof fn lemma_append_distinct(a: Seq<u32>, b: Seq<u32>)
    ensures
        forall|v: u32| (a + b).contains(v) == (a.contains(v) || b.contains(v)),
        a.no_duplicates() && (forall|i: int, j: int| 0 <= i < j < b.len() ==> b[i] < b[j]) && (
        forall|v: u32| b.contains(v) ==> !a.contains(v)) ==> (a + b).no_duplicates(),
{
    let c = a + b;
    assert forall|v: u32| c.contains(v) == (a.contains(v) || b.contains(v)) by {
        if c.contains(v) {
            let i = choose|i: int| 0 <= i < c.len() && c[i] == v;
            if i < a.len() {
                assert(a[i] == v);
            } else {
                assert(b[i - a.len()] == v);
            }
        }
        if a.contains(v) {
            let i = choose|i: int| 0 <= i < a.len() && a[i] == v;
            assert(c[i] == v);
        }
        if b.contains(v) {
            let i = choose|i: int| 0 <= i < b.len() && b[i] == v;
            assert(c[i + a.len()] == v);
        }
    }
    if a.no_duplicates() && (forall|i: int, j: int| 0 <= i < j < b.len() ==> b[i] < b[j]) && (
    forall|v: u32| b.contains(v) ==> !a.contains(v)) {
        assert forall|i: int, j: int| 0 <= i < c.len() && 0 <= j < c.len() && i != j implies c[i]
            != c[j] by {
            if i < a.len() && j >= a.len() {
                assert(b.contains(b[j - a.len()]));
                assert(a.contains(a[i]));
            } else if j < a.len() && i >= a.len() {
                assert(b.contains(b[i - a.len()]));
                assert(a.contains(a[j]));
            } else if i >= a.len() {
                if i < j {
                    assert(b[i - a.len()] < b[j - a.len()]);
                } else {
                    assert(b[j - a.len()] < b[i - a.len()]);
                }
            }
        }
    }
}

/// Two lists of identifiers that share none, and hold none twice, hold none
/// twice when one is put behind the other.
pub proof fn lemma_append_distinct_ids(a: Seq<u64>, b: Seq<u64>)
    requires
        a.no_duplicates(),
        b.no_duplicates(),
        forall|v: u64| b.contains(v) ==> !a.contains(v),
    ensures
        (a + b).no_duplicates(),
        forall|v: u64| (a + b).contains(v) == (a.contains(v) || b.contains(v)),
{
    let c = a + b;
    assert forall|v: u64| c.contains(v) == (a.contains(v) || b.contains(v)) by {
        if c.contains(v) {
            let i = choose|i: int| 0 <= i < c.len() && c[i] == v;
            if i < a.len() {
                assert(a[i] == v);
            } else {
                assert(b[i - a.len()] == v);
            }
        }
        if a.contains(v) {
            let i = choose|i: int| 0 <= i < a.len() && a[i] == v;
            assert(c[i] == v);
        }
        if b.contains(v) {
            let i = choose|i: int| 0 <= i < b.len() && b[i] == v;
            assert(c[i + a.len()] == v);
        }
    }
    assert forall|i: int, j: int| 0 <= i < c.len() && 0 <= j < c.len() && i != j implies c[i]
        != c[j] by {
        if i < a.len() && j >= a.len() {
            assert(b.contains(b[j - a.len()]));
            assert(a.contains(a[i]));
        } else if j < a.len() && i >= a.len() {
            assert(b.contains(b[i - a.len()]));
            assert(a.contains(a[j]));
        }
    }
}

} // verus!
