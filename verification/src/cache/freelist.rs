//! The free extents of the data segment.
use std::collections::HashMap;
use vstd::prelude::*;

verus! {

/// An extent of bytes: those from `start` up to, not including, `end`.
#[derive(Debug, Clone, Copy)]
struct Zone {
    start: u64,
    end: u64,
}

impl Zone {
    fn len(&self) -> (r: u64)
        requires
            self.start <= self.end,
        ensures
            r == self.end - self.start,
    {
        self.end - self.start
    }
}

/// The free extents, found by their first byte and by the byte after their
/// last. No two of them overlap or touch. `free_list` holds every free
/// extent, in the order in which they came, and may hold extents that are
/// no longer free.
#[derive(Debug)]
pub struct FreeList {
    free_list: Vec<Zone>,
    start_hash: HashMap<u64, u64>,
    end_hash: HashMap<u64, u64>,
}

/// Whether the extent from `z.0` up to `z.1` holds the byte `b`.
pub open spec fn in_extent(z: (u64, u64), b: int) -> bool {
    z.0 <= b < z.1
}

/// The extents of a map from first bytes to ends.
spec fn map_extents(starts: Map<u64, u64>) -> Set<(u64, u64)> {
    Set::new(|z: (u64, u64)| starts.contains_key(z.0) && starts[z.0] == z.1)
}

/// The two maps say the same, and what they say are extents that neither
/// overlap nor touch.
spec fn maps_wf(starts: Map<u64, u64>, ends: Map<u64, u64>) -> bool {
    &&& forall|s: u64| #[trigger]
        starts.contains_key(s) ==> s < starts[s] && ends.contains_key(starts[s]) && ends[starts[s]]
            == s
    &&& forall|e: u64| #[trigger]
        ends.contains_key(e) ==> starts.contains_key(ends[e]) && starts[ends[e]] == e
    &&& forall|s1: u64, s2: u64|
        #[trigger] starts.contains_key(s1) && #[trigger] starts.contains_key(s2) && s1 != s2
            ==> starts[s1] < s2 || starts[s2] < s1
}

impl FreeList {
    /// The free extents, each as its first byte and the byte after its last.
    pub closed spec fn extents(&self) -> Set<(u64, u64)> {
        map_extents(self.start_hash@)
    }

    /// The free bytes.
    pub open spec fn free_bytes(&self) -> Set<int> {
        Set::new(|b: int| exists|z: (u64, u64)| self.extents().contains(z) && in_extent(z, b))
    }

    /// The invariant of the type.
    pub closed spec fn wf(&self) -> bool {
        &&& maps_wf(self.start_hash@, self.end_hash@)
        &&& forall|s: u64| #[trigger]
            self.start_hash@.contains_key(s) ==> exists|i: int|
                0 <= i < self.free_list@.len() && (#[trigger] self.free_list@[i]).start == s
                    && self.free_list@[i].end == self.start_hash@[s]
    }

    /// No byte is free.
    pub fn new() -> (r: FreeList)
        ensures
            r.wf(),
            r.extents() == Set::<(u64, u64)>::empty(),
            r.free_bytes() == Set::<int>::empty(),
    {
        let r = FreeList {
            free_list: Vec::new(),
            start_hash: HashMap::new(),
            end_hash: HashMap::new(),
        };
        proof {
            assert(r.extents() =~= Set::<(u64, u64)>::empty());
            assert(r.free_bytes() =~= Set::<int>::empty());
        }
        r
    }

    /// Free extents are not empty; no two of them overlap or touch.
    pub proof fn law_extents_apart(&self, a: (u64, u64), b: (u64, u64))
        requires
            self.wf(),
            self.extents().contains(a),
            self.extents().contains(b),
        ensures
            a.0 < a.1,
            a != b ==> a.1 < b.0 || b.1 < a.0,
    {
        if a != b {
            assert(a.0 != b.0);
        }
    }

    /// Whether the extent is free as it stands.
    fn is_valid(&self, zone: &Zone) -> (r: bool)
        ensures
            r == (self.start_hash@.contains_key(zone.start) && self.start_hash@[zone.start]
                == zone.end),
    {
        broadcast use vstd::std_specs::hash::group_hash_axioms;

        match self.start_hash.get(&zone.start) {
            Some(end) => *end == zone.end,
            None => false,
        }
    }

    /// Drops from the list the extents that are no longer free.
    fn clear(&mut self)
        requires
            old(self).wf(),
        ensures
            final(self).wf(),
            final(self).start_hash@ == old(self).start_hash@,
            final(self).end_hash@ == old(self).end_hash@,
            forall|i: int|
                0 <= i < final(self).free_list@.len() ==> final(self).start_hash@.contains_key(
                    (#[trigger] final(self).free_list@[i]).start,
                ) && final(self).start_hash@[final(self).free_list@[i].start]
                    == final(self).free_list@[i].end,
    {
        let mut new_free_list: Vec<Zone> = Vec::new();
        let mut k: usize = 0;
        while k < self.free_list.len()
            invariant
                0 <= k <= self.free_list@.len(),
                *self == *old(self),
                forall|i: int|
                    0 <= i < new_free_list@.len() ==> self.start_hash@.contains_key(
                        (#[trigger] new_free_list@[i]).start,
                    ) && self.start_hash@[new_free_list@[i].start] == new_free_list@[i].end,
                forall|j: int|
                    0 <= j < k && self.start_hash@.contains_key((#[trigger] self.free_list@[j]).start)
                        && self.start_hash@[self.free_list@[j].start] == self.free_list@[j].end
                        ==> exists|i: int|
                        0 <= i < new_free_list@.len() && (#[trigger] new_free_list@[i])
                            == self.free_list@[j],
            decreases self.free_list@.len() - k,
        {
            let zone = self.free_list[k];
            let ghost before = new_free_list@;
            if self.is_valid(&zone) {
                new_free_list.push(zone);
            }
            proof {
                assert forall|j: int|
                    0 <= j < k + 1 && self.start_hash@.contains_key(
                        (#[trigger] self.free_list@[j]).start,
                    ) && self.start_hash@[self.free_list@[j].start]
                        == self.free_list@[j].end implies exists|i: int|
                    0 <= i < new_free_list@.len() && (#[trigger] new_free_list@[i])
                        == self.free_list@[j] by {
                    if j < k {
                        let i = choose|i: int|
                            0 <= i < before.len() && (#[trigger] before[i]) == self.free_list@[j];
                        assert(new_free_list@[i] == self.free_list@[j]);
                    } else {
                        assert(new_free_list@[before.len() as int] == self.free_list@[j]);
                    }
                }
            }
            k += 1;
        }
        proof {
            assert forall|s: u64| #[trigger] self.start_hash@.contains_key(s) implies exists|i: int|
                0 <= i < new_free_list@.len() && (#[trigger] new_free_list@[i]).start == s
                    && new_free_list@[i].end == self.start_hash@[s] by {
                let j = choose|j: int|
                    0 <= j < self.free_list@.len() && (#[trigger] self.free_list@[j]).start == s
                        && self.free_list@[j].end == self.start_hash@[s];
                let i = choose|i: int|
                    0 <= i < new_free_list@.len() && (#[trigger] new_free_list@[i])
                        == self.free_list@[j];
                assert(new_free_list@[i].start == s);
            }
        }
        let ghost kept = new_free_list@;
        self.free_list = new_free_list;
        proof {
            assert(self.free_list@ == kept);
            assert forall|s: u64| #[trigger] self.start_hash@.contains_key(s) implies exists|i: int|
                0 <= i < self.free_list@.len() && (#[trigger] self.free_list@[i]).start == s
                    && self.free_list@[i].end == self.start_hash@[s] by {
                let i = choose|i: int|
                    0 <= i < kept.len() && (#[trigger] kept[i]).start == s && kept[i].end
                        == self.start_hash@[s];
                assert(self.free_list@[i].start == s);
            }
        }
    }

    /// Frees the `len` bytes from `off` on, none of which is free. The
    /// extent grows into one with the free extent that ends where it
    /// begins, and with the one that begins where it ends.
    pub fn insert(&mut self, off: u64, len: u64)
        requires
            old(self).wf(),
            off + len <= u64::MAX,
            forall|b: int| off <= b < off + len ==> !(#[trigger] old(self).free_bytes().contains(b)),
        ensures
            final(self).wf(),
            final(self).free_bytes() == old(self).free_bytes().union(
                Set::new(|b: int| off <= b < off + len),
            ),
    {
        broadcast use vstd::std_specs::hash::group_hash_axioms;

        if len == 0 {
            proof {
                assert(self.free_bytes() =~= old(self).free_bytes().union(
                    Set::new(|b: int| off <= b < off + len),
                ));
            }
            return ;
        }
        let ghost s0 = self.start_hash@;
        let ghost e0 = self.end_hash@;
        let ghost list0 = self.free_list@;
        let mut start = off;
        let mut end = off + len;
        proof {
            // No free extent holds a byte of the new one.
            assert forall|s: u64| #[trigger] s0.contains_key(s) implies s0[s] <= off || s >= off
                + len by {
                if s0[s] > off && s < off + len {
                    let b: int = if s >= off { s as int } else { off as int };
                    assert(old(self).extents().contains((s, s0[s])));
                    assert(in_extent((s, s0[s]), b));
                    assert(old(self).free_bytes().contains(b));
                }
            }
        }
        match self.end_hash.remove(&start) {
            Some(s) => {
                start = s;
            },
            None => {},
        }
        match self.start_hash.remove(&end) {
            Some(e) => {
                end = e;
            },
            None => {},
        }
        self.free_list.push(Zone { start, end });
        self.start_hash.insert(start, end);
        self.end_hash.insert(end, start);
        proof {
            let s2 = self.start_hash@;
            let e2 = self.end_hash@;
            let has_left = e0.contains_key(off);
            let has_right = s0.contains_key((off + len) as u64);
            assert(start == if has_left { e0[off] } else { off });
            assert(end == if has_right { s0[(off + len) as u64] } else { (off + len) as u64 });
            if has_left {
                assert(s0.contains_key(e0[off]));
            }
            if has_right {
                assert(e0.contains_key(s0[(off + len) as u64]));
            }
            assert(start <= off && off + len <= end);
            assert forall|s: u64| #[trigger] s2.contains_key(s) implies s < s2[s] && e2.contains_key(
                s2[s],
            ) && e2[s2[s]] == s by {
                if s != start {
                    assert(s0.contains_key(s));
                    assert(e0.contains_key(s0[s]));
                }
            }
            assert forall|e: u64| #[trigger] e2.contains_key(e) implies s2.contains_key(e2[e])
                && s2[e2[e]] == e by {
                if e != end {
                    assert(e0.contains_key(e));
                    assert(s0.contains_key(e0[e]));
                }
            }
            assert forall|s1: u64, t1: u64|
                #[trigger] s2.contains_key(s1) && #[trigger] s2.contains_key(t1) && s1
                    != t1 implies s2[s1] < t1 || s2[t1] < s1 by {
                if s1 != start && t1 != start {
                    assert(s0.contains_key(s1) && s0.contains_key(t1));
                } else {
                    let o = if s1 == start { t1 } else { s1 };
                    assert(s0.contains_key(o));
                    assert(e0.contains_key(s0[o]));
                    if has_left {
                        assert(s0.contains_key(e0[off]));
                    }
                    if has_right {
                        assert(s0.contains_key((off + len) as u64));
                    }
                }
            }
            assert forall|s: u64| #[trigger] s2.contains_key(s) implies exists|i: int|
                0 <= i < self.free_list@.len() && (#[trigger] self.free_list@[i]).start == s
                    && self.free_list@[i].end == s2[s] by {
                if s != start {
                    assert(s0.contains_key(s));
                    let i = choose|i: int|
                        0 <= i < list0.len() && (#[trigger] list0[i]).start == s && list0[i].end
                            == s0[s];
                    assert(self.free_list@[i] == list0[i]);
                } else {
                    assert(self.free_list@[list0.len() as int].start == s);
                }
            }
            assert forall|b: int|
                self.free_bytes().contains(b) == old(self).free_bytes().union(
                    Set::new(|b: int| off <= b < off + len),
                ).contains(b) by {
                if self.free_bytes().contains(b) {
                    let z = choose|z: (u64, u64)| self.extents().contains(z) && in_extent(z, b);
                    if z.0 != start {
                        assert(s0.contains_key(z.0));
                        assert(old(self).extents().contains(z));
                    } else if b < off {
                        assert(has_left);
                        assert(old(self).extents().contains((e0[off], off)));
                        assert(in_extent((e0[off], off), b));
                    } else if b >= off + len {
                        assert(has_right);
                        let r = s0[(off + len) as u64];
                        assert(old(self).extents().contains(((off + len) as u64, r)));
                        assert(in_extent(((off + len) as u64, r), b));
                    }
                }
                if old(self).free_bytes().contains(b) {
                    let z = choose|z: (u64, u64)| old(self).extents().contains(z) && in_extent(z, b);
                    assert(s0.contains_key(z.0));
                    assert(e0.contains_key(s0[z.0]));
                    if (has_left && z.0 == e0[off]) || (has_right && z.0 == off + len) {
                        assert(self.extents().contains((start, end)));
                        assert(in_extent((start, end), b));
                    } else {
                        assert(z.0 != start);
                        assert(self.extents().contains(z));
                    }
                }
                if off <= b < off + len {
                    assert(self.extents().contains((start, end)));
                    assert(in_extent((start, end), b));
                }
            }
            assert(self.free_bytes() =~= old(self).free_bytes().union(
                Set::new(|b: int| off <= b < off + len),
            ));
        }
    }

    /// Takes `requested_len` bytes from the front of a free extent that has
    /// as many, and returns where they begin and how many they are; none
    /// where no free extent has as many. What is left of the extent stays
    /// free.
    pub fn get(&mut self, requested_len: u64) -> (r: Option<(u64, u64)>)
        requires
            old(self).wf(),
        ensures
            final(self).wf(),
            match r {
                Some((off, len)) => {
                    &&& len == requested_len
                    &&& exists|z: (u64, u64)|
                        old(self).extents().contains(z) && z.0 == off && off + len <= z.1
                    &&& final(self).free_bytes() == old(self).free_bytes().difference(
                        Set::new(|b: int| off <= b < off + len),
                    )
                },
                None => {
                    &&& final(self).extents() == old(self).extents()
                    &&& forall|z: (u64, u64)|
                        old(self).extents().contains(z) ==> z.1 - z.0 < requested_len
                },
            },
    {
        broadcast use vstd::std_specs::hash::group_hash_axioms;

        self.clear();
        let ghost s0 = self.start_hash@;
        let ghost e0 = self.end_hash@;
        let mut k: usize = 0;
        while k < self.free_list.len()
            invariant
                self.wf(),
                s0 == self.start_hash@,
                e0 == self.end_hash@,
                s0 == old(self).start_hash@,
                0 <= k <= self.free_list@.len(),
                forall|i: int|
                    0 <= i < self.free_list@.len() ==> s0.contains_key(
                        (#[trigger] self.free_list@[i]).start,
                    ) && s0[self.free_list@[i].start] == self.free_list@[i].end,
                forall|i: int|
                    0 <= i < k ==> (#[trigger] self.free_list@[i]).end - self.free_list@[i].start
                        < requested_len,
            decreases self.free_list@.len() - k,
        {
            let zone = self.free_list[k];
            assert(s0.contains_key(zone.start) && s0[zone.start] == zone.end);
            if self.is_valid(&zone) && zone.len() >= requested_len {
                let ghost mid_free = self.free_bytes();
                let ghost list = self.free_list@;
                proof {
                    assert forall|s: u64| #[trigger] s0.contains_key(s) implies exists|i: int|
                        0 <= i < list.len() && (#[trigger] list[i]).start == s && list[i].end
                            == s0[s] by {}
                }
                self.start_hash.remove(&zone.start);
                self.end_hash.remove(&zone.end);
                proof {
                    let s1 = self.start_hash@;
                    let e1 = self.end_hash@;
                    assert(e0.contains_key(zone.end) && e0[zone.end] == zone.start);
                    assert forall|s: u64| #[trigger] s1.contains_key(s) implies s < s1[s]
                        && e1.contains_key(s1[s]) && e1[s1[s]] == s by {
                        assert(s0.contains_key(s));
                        assert(e0.contains_key(s0[s]));
                    }
                    assert forall|e: u64| #[trigger] e1.contains_key(e) implies s1.contains_key(
                        e1[e],
                    ) && s1[e1[e]] == e by {
                        assert(e0.contains_key(e));
                        assert(s0.contains_key(e0[e]));
                    }
                    assert forall|s: u64| #[trigger] s1.contains_key(s) implies exists|i: int|
                        0 <= i < self.free_list@.len() && (#[trigger] self.free_list@[i]).start == s
                            && self.free_list@[i].end == s1[s] by {
                        assert(s0.contains_key(s));
                        let i = choose|i: int|
                            0 <= i < list.len() && (#[trigger] list[i]).start == s && list[i].end
                                == s0[s];
                        assert(self.free_list@[i] == list[i]);
                    }
                    assert(self.wf());
                    assert forall|b: int|
                        self.free_bytes().contains(b) == (mid_free.contains(b) && !(zone.start <= b
                            < zone.end)) by {
                        if self.free_bytes().contains(b) {
                            let z = choose|z: (u64, u64)|
                                self.extents().contains(z) && in_extent(z, b);
                            assert(s0.contains_key(z.0));
                            assert(map_extents(s0).contains(z));
                            assert(s0.contains_key(zone.start));
                        }
                        if mid_free.contains(b) {
                            let z = choose|z: (u64, u64)|
                                map_extents(s0).contains(z) && in_extent(z, b);
                            if z.0 != zone.start {
                                assert(s1.contains_key(z.0));
                                assert(self.extents().contains(z));
                                assert(s0.contains_key(zone.start));
                            }
                        }
                    }
                    assert(old(self).extents().contains((zone.start, zone.end)));
                }
                let ghost after_removal = self.free_bytes();
                self.insert(zone.start + requested_len, zone.len() - requested_len);
                proof {
                    assert(self.free_bytes() =~= old(self).free_bytes().difference(
                        Set::new(|b: int| zone.start <= b < zone.start + requested_len),
                    )) by {
                        assert(mid_free == old(self).free_bytes());
                        assert(map_extents(s0).contains((zone.start, zone.end)));
                        assert forall|b: int| zone.start <= b < zone.end implies mid_free.contains(
                            b,
                        ) by {
                            assert(in_extent((zone.start, zone.end), b));
                        }
                    }
                }
                return Some((zone.start, requested_len));
            }
            k += 1;
        }
        proof {
            assert forall|z: (u64, u64)| old(self).extents().contains(z) implies z.1 - z.0
                < requested_len by {
                assert(s0.contains_key(z.0));
                let i = choose|i: int|
                    0 <= i < self.free_list@.len() && (#[trigger] self.free_list@[i]).start == z.0
                        && self.free_list@[i].end == s0[z.0];
            }
        }
        None
    }
}

/// A free list whose one free extent is taken whole has no byte left free.
pub proof fn law_exact_fit(before: FreeList, taken: Option<(u64, u64)>, after: FreeList, z: (u64, u64))
    requires
        before.wf(),
        before.extents() == set![z],
        match taken {
            Some((off, len)) => {
                &&& len == z.1 - z.0
                &&& exists|y: (u64, u64)| before.extents().contains(y) && y.0 == off && off + len <= y.1
                &&& after.free_bytes() == before.free_bytes().difference(
                    Set::new(|b: int| off <= b < off + len),
                )
            },
            None => forall|y: (u64, u64)| before.extents().contains(y) ==> y.1 - y.0 < z.1 - z.0,
        },
    ensures
        taken == Some((z.0, (z.1 - z.0) as u64)),
        after.free_bytes() == Set::<int>::empty(),
{
    assert(before.extents().contains(z));
    before.law_extents_apart(z, z);
    match taken {
        Some((off, len)) => {
            let y = choose|y: (u64, u64)|
                before.extents().contains(y) && y.0 == off && off + len <= y.1;
            assert(y == z);
            assert forall|b: int| !after.free_bytes().contains(b) by {
                if before.free_bytes().contains(b) {
                    let x = choose|x: (u64, u64)| before.extents().contains(x) && in_extent(x, b);
                    assert(x == z);
                }
            }
            assert(after.free_bytes() =~= Set::<int>::empty());
        },
        None => {},
    }
}

} // verus!
