//! What a cache gives up first.
use vstd::prelude::*;

verus! {

/// A rule for giving entries up.
pub trait Policy {
    /// The keys, each with the number of jobs that have yet to see it.
    spec fn entries(&self) -> Seq<(u64, usize)>;

    /// The invariant of the rule.
    spec fn policy_wf(&self) -> bool;

    /// Notes that `ref_cnt` jobs have yet to see `key`, whatever was noted
    /// of `key` before.
    fn set(&mut self, key: u64, ref_cnt: usize)
        requires
            old(self).policy_wf(),
        ensures
            final(self).policy_wf(),
            level_in(final(self).entries(), key) == Some(ref_cnt),
            forall|other: u64|
                other != key ==> #[trigger] level_in(final(self).entries(), other) == level_in(
                    old(self).entries(),
                    other,
                ),
    ;

    /// Gives up the keys that the fewest jobs have yet to see, and returns
    /// them; none where there is no key.
    fn evict(&mut self) -> (r: Option<Vec<u64>>)
        requires
            old(self).policy_wf(),
        ensures
            final(self).policy_wf(),
            r is None <==> old(self).entries().len() == 0,
            r matches Some(keys) ==> {
                &&& keys@.len() > 0
                &&& keys@.no_duplicates()
                &&& forall|key: u64|
                    keys@.contains(key) == (level_in(old(self).entries(), key) is Some && level_in(
                        old(self).entries(),
                        key,
                    ) == Some(lowest(old(self).entries(), old(self).entries().len() as int)))
                &&& forall|key: u64|
                    #[trigger] level_in(final(self).entries(), key) == if keys@.contains(key) {
                        None
                    } else {
                        level_in(old(self).entries(), key)
                    }
            },
    ;
}

/// What is noted of `key`.
pub open spec fn level_in(entries: Seq<(u64, usize)>, key: u64) -> Option<usize> {
    if exists|i: int| 0 <= i < entries.len() && (#[trigger] entries[i]).0 == key {
        Some(entries[choose|i: int| 0 <= i < entries.len() && (#[trigger] entries[i]).0 == key].1)
    } else {
        None
    }
}

/// The least number noted among the first `n` entries; the greatest number
/// there is where there are none.
pub open spec fn lowest(entries: Seq<(u64, usize)>, n: int) -> usize
    decreases n,
{
    if n <= 0 {
        usize::MAX
    } else {
        let rest = lowest(entries, n - 1);
        if entries[n - 1].1 < rest {
            entries[n - 1].1
        } else {
            rest
        }
    }
}

/// No key is noted twice.
pub open spec fn distinct_keys(entries: Seq<(u64, usize)>) -> bool {
    forall|i: int, j: int|
        0 <= i < j < entries.len() ==> (#[trigger] entries[i]).0 != (#[trigger] entries[j]).0
}

/// Where no key is noted twice, what is noted of a key is what stands with
/// it.
pub proof fn lemma_level_at(entries: Seq<(u64, usize)>, i: int)
    requires
        distinct_keys(entries),
        0 <= i < entries.len(),
    ensures
        level_in(entries, entries[i].0) == Some(entries[i].1),
{
    let key = entries[i].0;
    let j = choose|j: int| 0 <= j < entries.len() && (#[trigger] entries[j]).0 == key;
    if j < i {
        assert(entries[j].0 != entries[i].0);
    } else if j > i {
        assert(entries[i].0 != entries[j].0);
    }
}

/// The least number noted is noted of some entry, and none is less.
pub proof fn lemma_lowest(entries: Seq<(u64, usize)>, n: int)
    requires
        0 <= n <= entries.len(),
    ensures
        forall|i: int| 0 <= i < n ==> lowest(entries, n) <= (#[trigger] entries[i]).1,
        n > 0 ==> exists|i: int| 0 <= i < n && (#[trigger] entries[i]).1 == lowest(entries, n),
    decreases n,
{
    if n > 0 {
        lemma_lowest(entries, n - 1);
        if n > 1 {
            let i = choose|i: int| 0 <= i < n - 1 && (#[trigger] entries[i]).1 == lowest(entries, n - 1);
            if entries[n - 1].1 < lowest(entries, n - 1) {
                assert(entries[n - 1].1 == lowest(entries, n));
            } else {
                assert(entries[i].1 == lowest(entries, n));
            }
        } else {
            assert(entries[0].1 == lowest(entries, n));
        }
    }
}

/// Give up first what the fewest jobs have yet to see.
#[derive(Debug)]
pub struct RefCnt {
    key_table: Vec<(u64, usize)>,
    level: usize,
}

impl RefCnt {
    /// The number of levels that the rule was made for.
    pub closed spec fn spec_level(&self) -> usize {
        self.level
    }

    /// A rule without keys.
    pub fn new(level: usize) -> (r: Self)
        ensures
            r.policy_wf(),
            r.entries().len() == 0,
            r.spec_level() == level,
    {
        RefCnt { key_table: Vec::new(), level }
    }
}

impl Policy for RefCnt {
    closed spec fn entries(&self) -> Seq<(u64, usize)> {
        self.key_table@
    }

    closed spec fn policy_wf(&self) -> bool {
        distinct_keys(self.key_table@)
    }

    fn set(&mut self, key: u64, ref_cnt: usize) {
        let ghost before = self.key_table@;
        let mut i: usize = 0;
        while i < self.key_table.len() && self.key_table[i].0 != key
            invariant
                0 <= i <= self.key_table@.len(),
                self.key_table@ == before,
                forall|x: int| 0 <= x < i ==> (#[trigger] before[x]).0 != key,
            decreases self.key_table@.len() - i,
        {
            i += 1;
        }
        if i < self.key_table.len() {
            self.key_table.set(i, (key, ref_cnt));
        } else {
            self.key_table.push((key, ref_cnt));
        }
        proof {
            let now = self.key_table@;
            assert(now[i as int] == (key, ref_cnt));
            assert forall|a: int, b: int| 0 <= a < b < now.len() implies (#[trigger] now[a]).0 != (
            #[trigger] now[b]).0 by {
                if a != i && b != i {
                    assert(now[a] == before[a] && now[b] == before[b]);
                    assert(before[a].0 != before[b].0);
                } else if a == i {
                    assert(now[b] == before[b]);
                    if i < before.len() {
                        assert(before[a].0 != before[b].0);
                    }
                } else {
                    assert(now[a] == before[a]);
                    if i < before.len() {
                        assert(before[a].0 != before[b].0);
                    }
                }
            }
            lemma_level_at(now, i as int);
            assert forall|other: u64| other != key implies #[trigger] level_in(now, other)
                == level_in(before, other) by {
                if exists|x: int| 0 <= x < before.len() && (#[trigger] before[x]).0 == other {
                    let x = choose|x: int| 0 <= x < before.len() && (#[trigger] before[x]).0 == other;
                    assert(now[x] == before[x]);
                    lemma_level_at(now, x);
                    lemma_level_at(before, x);
                } else {
                    if exists|x: int| 0 <= x < now.len() && (#[trigger] now[x]).0 == other {
                        let x = choose|x: int| 0 <= x < now.len() && (#[trigger] now[x]).0 == other;
                        assert(x != i);
                        assert(before[x].0 == other);
                    }
                }
            }
        }
    }

    fn evict(&mut self) -> (r: Option<Vec<u64>>) {
        let ghost before = self.key_table@;
        let total = self.key_table.len();
        if total == 0 {
            return None;
        }
        let mut low: usize = usize::MAX;
        let mut i: usize = 0;
        while i < total
            invariant
                0 <= i <= total,
                total == before.len(),
                self.key_table@ == before,
                low == lowest(before, i as int),
            decreases total - i,
        {
            if self.key_table[i].1 < low {
                low = self.key_table[i].1;
            }
            i += 1;
        }
        proof {
            lemma_lowest(before, total as int);
        }
        let mut keys: Vec<u64> = Vec::new();
        let mut kept: Vec<(u64, usize)> = Vec::new();
        let ghost mut kidx: Seq<int> = Seq::empty();
        let ghost mut pidx: Seq<int> = Seq::empty();
        let mut i: usize = 0;
        while i < total
            invariant
                0 <= i <= total,
                total == before.len(),
                self.key_table@ == before,
                distinct_keys(before),
                kidx.len() == keys@.len(),
                pidx.len() == kept@.len(),
                forall|a: int|
                    0 <= a < keys@.len() ==> 0 <= #[trigger] kidx[a] < i && before[kidx[a]].0
                        == keys@[a] && before[kidx[a]].1 == low,
                forall|a: int|
                    0 <= a < kept@.len() ==> 0 <= #[trigger] pidx[a] < i && before[pidx[a]]
                        == kept@[a] && before[pidx[a]].1 != low,
                forall|a: int, b: int| 0 <= a < b < kidx.len() ==> #[trigger] kidx[a] < #[trigger] kidx[b],
                forall|a: int, b: int| 0 <= a < b < pidx.len() ==> #[trigger] pidx[a] < #[trigger] pidx[b],
                forall|x: int|
                    0 <= x < i && (#[trigger] before[x]).1 == low ==> keys@.contains(before[x].0),
                forall|x: int|
                    0 <= x < i && (#[trigger] before[x]).1 != low ==> kept@.contains(before[x]),
            decreases total - i,
        {
            let entry = self.key_table[i];
            let ghost keys0 = keys@;
            let ghost kept0 = kept@;
            if entry.1 == low {
                keys.push(entry.0);
                proof {
                    kidx = kidx.push(i as int);
                }
            } else {
                kept.push(entry);
                proof {
                    pidx = pidx.push(i as int);
                }
            }
            proof {
                assert forall|x: int|
                    0 <= x < i + 1 && (#[trigger] before[x]).1 == low implies keys@.contains(
                    before[x].0,
                ) by {
                    if x < i {
                        assert(keys0.contains(before[x].0));
                        let a = choose|a: int| 0 <= a < keys0.len() && keys0[a] == before[x].0;
                        assert(keys@[a] == before[x].0);
                    } else {
                        assert(keys@[keys0.len() as int] == before[x].0);
                    }
                }
                assert forall|x: int|
                    0 <= x < i + 1 && (#[trigger] before[x]).1 != low implies kept@.contains(
                    before[x],
                ) by {
                    if x < i {
                        assert(kept0.contains(before[x]));
                        let a = choose|a: int| 0 <= a < kept0.len() && kept0[a] == before[x];
                        assert(kept@[a] == before[x]);
                    } else {
                        assert(kept@[kept0.len() as int] == before[x]);
                    }
                }
            }
            i += 1;
        }
        proof {
            assert forall|a: int, b: int| 0 <= a < keys@.len() && 0 <= b < keys@.len() && a
                != b implies keys@[a] != keys@[b] by {
                if a < b {
                    assert(kidx[a] < kidx[b]);
                    assert(before[kidx[a]].0 != before[kidx[b]].0);
                } else {
                    assert(kidx[b] < kidx[a]);
                    assert(before[kidx[b]].0 != before[kidx[a]].0);
                }
            }
            assert forall|a: int, b: int| 0 <= a < b < kept@.len() implies (#[trigger] kept@[a]).0
                != (#[trigger] kept@[b]).0 by {
                assert(pidx[a] < pidx[b]);
                assert(before[pidx[a]].0 != before[pidx[b]].0);
            }
        }
        let ghost kept_view = kept@;
        self.key_table = kept;
        proof {
            let now = self.key_table@;
            let x0 = choose|x: int| 0 <= x < total && (#[trigger] before[x]).1 == low;
            assert(keys@.contains(before[x0].0));
            assert forall|key: u64|
                keys@.contains(key) == (level_in(before, key) is Some && level_in(before, key)
                    == Some(low)) by {
                if keys@.contains(key) {
                    let a = choose|a: int| 0 <= a < keys@.len() && keys@[a] == key;
                    let x = kidx[a];
                    lemma_level_at(before, x);
                }
                if level_in(before, key) is Some && level_in(before, key) == Some(low) {
                    let x = choose|x: int| 0 <= x < before.len() && (#[trigger] before[x]).0 == key;
                    lemma_level_at(before, x);
                    assert(keys@.contains(before[x].0));
                }
            }
            assert forall|key: u64|
                #[trigger] level_in(now, key) == if keys@.contains(key) {
                    None
                } else {
                    level_in(before, key)
                } by {
                if exists|a: int| 0 <= a < now.len() && (#[trigger] now[a]).0 == key {
                    let a = choose|a: int| 0 <= a < now.len() && (#[trigger] now[a]).0 == key;
                    let x = pidx[a];
                    assert(now == kept_view);
                    lemma_level_at(before, x);
                    lemma_level_at(now, a);
                } else {
                    if exists|x: int| 0 <= x < before.len() && (#[trigger] before[x]).0 == key {
                        let x = choose|x: int|
                            0 <= x < before.len() && (#[trigger] before[x]).0 == key;
                        lemma_level_at(before, x);
                        if before[x].1 != low {
                            assert(now.contains(before[x]));
                            let a = choose|a: int| 0 <= a < now.len() && now[a] == before[x];
                            assert(now[a].0 == key);
                        }
                    }
                }
            }
        }
        Some(keys)
    }
}

} // verus!
