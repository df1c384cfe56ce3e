//! The adaptive planner: snapshot memoization for popular as-of times, ε-greedy plan
//! selection over observed latencies, and the meet-in-the-middle split of long paths.

use crate::cid::Cid;
use crate::signature::{lemma_terminated_push, push_terminated, terminated};
use vstd::prelude::*;
use vstd::string::StringSliceAdditionalSpecFns;
use vstd::utf8::encode_utf8;

verus! {

broadcast use vstd::seq_lib::group_seq_properties;

/// The snapshot with the largest time not after `t`.
pub open spec fn snapshot_at(s: Seq<(u64, Cid)>, t: u64) -> Option<(u64, Cid)>
    decreases s.len(),
{
    if s.len() == 0 {
        None
    } else {
        let rest = snapshot_at(s.drop_last(), t);
        if s.last().0 <= t && (rest matches Some(e) ==> e.0 < s.last().0) {
            Some(s.last())
        } else {
            rest
        }
    }
}

/// Whether reads were recorded for time `t`.
pub open spec fn has_time(counts: Seq<(u64, u64)>, t: u64) -> bool {
    exists|j: int| 0 <= j < counts.len() && #[trigger] counts[j].0 == t
}

/// Whether the snapshot at time `a` gives way no later than the one at `b`: it was read
/// less often, or as often and is no later.
pub open spec fn evicted_first(counts: Seq<(u64, u64)>, a: u64, b: u64) -> bool {
    count_of(counts, a) < count_of(counts, b) || (count_of(counts, a) == count_of(counts, b) && a <= b)
}

/// The number of reads recorded for time `t`.
pub open spec fn count_of(counts: Seq<(u64, u64)>, t: u64) -> u64
    decreases counts.len(),
{
    if counts.len() == 0 {
        0
    } else if counts.last().0 == t {
        counts.last().1
    } else {
        count_of(counts.drop_last(), t)
    }
}

/// Snapshots of popular as-of times, with how often each time was read.
pub struct SnapshotManager {
    snapshots: Vec<(u64, Cid)>,
    access_counts: Vec<(u64, u64)>,
    max_snapshots: usize,
    pub snapshot_interval: u64,
}

impl SnapshotManager {
    /// No two snapshots share a time, nor two counters.
    pub closed spec fn wf(&self) -> bool {
        &&& forall|a: int, b: int|
            0 <= a < b < self.snapshots@.len() ==> #[trigger] self.snapshots@[a].0 != #[trigger] self.snapshots@[b].0
        &&& forall|a: int, b: int|
            0 <= a < b < self.access_counts@.len() ==> #[trigger] self.access_counts@[a].0
                != #[trigger] self.access_counts@[b].0
    }

    pub closed spec fn snapshots(&self) -> Seq<(u64, Cid)> {
        self.snapshots@
    }

    pub closed spec fn counts(&self) -> Seq<(u64, u64)> {
        self.access_counts@
    }

    pub closed spec fn capacity(&self) -> nat {
        self.max_snapshots as nat
    }

    pub fn new(max_snapshots: usize) -> (r: SnapshotManager)
        ensures
            r.wf(),
            r.snapshots().len() == 0,
            r.counts().len() == 0,
            r.capacity() == max_snapshots,
    {
        SnapshotManager { snapshots: Vec::new(), access_counts: Vec::new(), max_snapshots, snapshot_interval: 3600 }
    }

    /// Counts a read at `as_of` and returns the snapshot with the largest time not after it.
    pub fn get_snapshot(&mut self, as_of: u64) -> (r: Option<Cid>)
        requires
            old(self).wf(),
        ensures
            final(self).wf(),
            final(self).snapshots() == old(self).snapshots(),
            final(self).capacity() == old(self).capacity(),
            match snapshot_at(old(self).snapshots(), as_of) {
                Some(e) => r == Some(e.1),
                None => r is None,
            },
            count_of(final(self).counts(), as_of) == if count_of(old(self).counts(), as_of) < u64::MAX {
                count_of(old(self).counts(), as_of) + 1
            } else {
                count_of(old(self).counts(), as_of) as int
            },
            forall|t: u64| t != as_of ==> #[trigger] count_of(final(self).counts(), t) == count_of(old(self).counts(), t),
    {
        self.bump(as_of);
        let mut best: Option<(u64, Cid)> = None;
        let mut i: usize = 0;
        while i < self.snapshots.len()
            invariant
                i <= self.snapshots@.len(),
                best == snapshot_at(self.snapshots@.subrange(0, i as int), as_of),
            decreases self.snapshots.len() - i,
        {
            let e = self.snapshots[i];
            assert(self.snapshots@.subrange(0, i + 1).drop_last() =~= self.snapshots@.subrange(0, i as int));
            if e.0 <= as_of {
                match best {
                    Some(b) => {
                        if b.0 < e.0 {
                            best = Some(e);
                        }
                    },
                    None => {
                        best = Some(e);
                    },
                }
            }
            i = i + 1;
        }
        assert(self.snapshots@.subrange(0, self.snapshots@.len() as int) =~= self.snapshots@);
        match best {
            Some(b) => Some(b.1),
            None => None,
        }
    }

    /// Adds one read at `t` (saturating).
    fn bump(&mut self, t: u64)
        requires
            old(self).wf(),
        ensures
            final(self).wf(),
            final(self).snapshots() == old(self).snapshots(),
            final(self).capacity() == old(self).capacity(),
            count_of(final(self).counts(), t) == if count_of(old(self).counts(), t) < u64::MAX {
                count_of(old(self).counts(), t) + 1
            } else {
                count_of(old(self).counts(), t) as int
            },
            forall|q: u64| q != t ==> #[trigger] count_of(final(self).counts(), q) == count_of(old(self).counts(), q),
    {
        let mut i: usize = 0;
        while i < self.access_counts.len()
            invariant
                i <= self.access_counts@.len(),
                self.wf(),
                self.snapshots@ == old(self).snapshots@,
                self.max_snapshots == old(self).max_snapshots,
                self.access_counts@ == old(self).access_counts@,
                forall|j: int| 0 <= j < i ==> #[trigger] self.access_counts@[j].0 != t,
            decreases self.access_counts.len() - i,
        {
            if self.access_counts[i].0 == t {
                let c = self.access_counts[i].1;
                let n = if c < u64::MAX { c + 1 } else { c };
                proof {
                    lemma_count_at(self.access_counts@, i as int);
                    lemma_count_set(self.access_counts@, i as int, (t, n));
                }
                self.access_counts.set(i, (t, n));
                return;
            }
            i = i + 1;
        }
        proof {
            lemma_count_absent(self.access_counts@, t);
        }
        let ghost before = self.access_counts@;
        self.access_counts.push((t, 1));
        assert(self.access_counts@.drop_last() =~= before);
    }

    /// Records a snapshot at `as_of`. Where the manager is full, the snapshots read least
    /// often (the earliest among equals) give way first.
    pub fn create_snapshot(&mut self, as_of: u64, data_cid: Cid)
        requires
            old(self).wf(),
        ensures
            final(self).wf(),
            final(self).capacity() == old(self).capacity(),
            snapshot_at(final(self).snapshots(), as_of) == Some((as_of, data_cid)),
            exists|i: int| 0 <= i < final(self).snapshots().len() && #[trigger] final(self).snapshots()[i] == (as_of, data_cid),
            final(self).snapshots().len() <= if old(self).capacity() > 0 { old(self).capacity() } else { 1 },
            forall|i: int| 0 <= i < final(self).snapshots().len() && #[trigger] final(self).snapshots()[i].0 != as_of ==> old(self).snapshots().contains(final(self).snapshots()[i]),
            final(self).counts() == old(self).counts(),
            forall|e: (u64, Cid), j: int|
                #[trigger] old(self).snapshots().contains(e) && e.0 != as_of && !final(self).snapshots().contains(e)
                    && 0 <= j < final(self).snapshots().len() && #[trigger] final(self).snapshots()[j].0 != as_of
                    ==> evicted_first(old(self).counts(), e.0, final(self).snapshots()[j].0),
    {
        let mut k: usize = 0;
        while k < self.snapshots.len() && self.snapshots[k].0 != as_of
            invariant
                k <= self.snapshots@.len(),
                forall|j: int| 0 <= j < k ==> #[trigger] self.snapshots@[j].0 != as_of,
            decreases self.snapshots.len() - k,
        {
            k = k + 1;
        }
        let ghost orig = self.snapshots@;
        if k < self.snapshots.len() {
            let ghost before = self.snapshots@;
            self.snapshots.remove(k);
            proof {
                assert forall|e: (u64, Cid)| #[trigger] orig.contains(e) && e.0 != as_of implies self.snapshots@.contains(e) by {
                    let m = choose|m: int| 0 <= m < orig.len() && orig[m] == e;
                    if m < k {
                        assert(self.snapshots@[m] == e);
                    } else {
                        assert(m != k);
                        assert(self.snapshots@[m - 1] == e);
                    }
                }
                assert forall|i: int| 0 <= i < self.snapshots@.len() implies old(self).snapshots().contains(#[trigger] self.snapshots@[i]) by {
                    if i < k {
                        assert(self.snapshots@[i] == before[i]);
                    } else {
                        assert(self.snapshots@[i] == before[i + 1]);
                    }
                }
            }
        }
        while self.snapshots.len() > 0 && self.snapshots.len() >= self.max_snapshots
            invariant
                self.wf(),
                self.capacity() == old(self).capacity(),
                self.counts() == old(self).counts(),
                orig == old(self).snapshots(),
                forall|e: (u64, Cid), j: int|
                    #[trigger] orig.contains(e) && e.0 != as_of && !self.snapshots@.contains(e)
                        && 0 <= j < self.snapshots@.len() ==> evicted_first(self.counts(), e.0, #[trigger] self.snapshots@[j].0),
                forall|i: int| 0 <= i < self.snapshots@.len() ==> #[trigger] self.snapshots@[i].0 != as_of,
                forall|i: int| 0 <= i < self.snapshots@.len() ==> old(self).snapshots().contains(#[trigger] self.snapshots@[i]),
            decreases self.snapshots.len(),
        {
            let v = self.least_read();
            let ghost before = self.snapshots@;
            self.snapshots.remove(v);
            proof {
                assert forall|e: (u64, Cid), j: int|
                    #[trigger] orig.contains(e) && e.0 != as_of && !self.snapshots@.contains(e)
                        && 0 <= j < self.snapshots@.len() implies evicted_first(self.counts(), e.0, #[trigger] self.snapshots@[j].0) by {
                    let jj = if j < v { j } else { j + 1 };
                    assert(self.snapshots@[j] == before[jj]);
                    if before.contains(e) {
                        let m = choose|m: int| 0 <= m < before.len() && before[m] == e;
                        if m != v {
                            if m < v {
                                assert(self.snapshots@[m] == e);
                            } else {
                                assert(self.snapshots@[m - 1] == e);
                            }
                        }
                        assert(evicted_first(self.counts(), before[v as int].0, before[jj].0));
                    }
                }
                assert forall|i: int| 0 <= i < self.snapshots@.len() implies old(self).snapshots().contains(#[trigger] self.snapshots@[i]) && self.snapshots@[i].0 != as_of by {
                    if i < v {
                        assert(self.snapshots@[i] == before[i]);
                    } else {
                        assert(self.snapshots@[i] == before[i + 1]);
                    }
                }
            }
        }
        let ghost before = self.snapshots@;
        self.snapshots.push((as_of, data_cid));
        proof {
            assert(self.snapshots@.drop_last() =~= before);
            lemma_snapshot_last(self.snapshots@, as_of);
            assert(self.snapshots@[before.len() as int] == (as_of, data_cid));
            assert forall|i: int| 0 <= i < self.snapshots@.len() && #[trigger] self.snapshots@[i].0 != as_of implies old(self).snapshots().contains(self.snapshots@[i]) by {
                assert(self.snapshots@[i] == before[i]);
            }
            assert forall|e: (u64, Cid), j: int|
                #[trigger] old(self).snapshots().contains(e) && e.0 != as_of && !self.snapshots@.contains(e)
                    && 0 <= j < self.snapshots@.len() && #[trigger] self.snapshots@[j].0 != as_of
                    implies evicted_first(old(self).counts(), e.0, self.snapshots@[j].0) by {
                assert(self.snapshots@[j] == before[j]);
                if before.contains(e) {
                    let m = choose|m: int| 0 <= m < before.len() && before[m] == e;
                    assert(self.snapshots@[m] == e);
                }
            }
        }
    }

    /// The index of the snapshot read least often, the earliest time among equals.
    fn least_read(&self) -> (r: usize)
        requires
            self.snapshots@.len() > 0,
        ensures
            r < self.snapshots@.len(),
            forall|j: int| 0 <= j < self.snapshots@.len() ==> evicted_first(self.counts(), self.snapshots@[r as int].0, #[trigger] self.snapshots@[j].0),
    {
        let mut best: usize = 0;
        let mut i: usize = 1;
        while i < self.snapshots.len()
            invariant
                best < self.snapshots@.len(),
                1 <= i <= self.snapshots@.len(),
                forall|j: int| 0 <= j < i ==> evicted_first(self.counts(), self.snapshots@[best as int].0, #[trigger] self.snapshots@[j].0),
            decreases self.snapshots.len() - i,
        {
            let ci = self.count(self.snapshots[i].0);
            let cb = self.count(self.snapshots[best].0);
            if ci < cb || (ci == cb && self.snapshots[i].0 < self.snapshots[best].0) {
                best = i;
            }
            i = i + 1;
        }
        best
    }

    /// The number of reads recorded at `t`.
    pub fn count(&self, t: u64) -> (r: u64)
        ensures
            r == count_of(self.counts(), t),
    {
        let mut i: usize = self.access_counts.len();
        assert(self.access_counts@.subrange(0, i as int) =~= self.access_counts@);
        while i > 0
            invariant
                i <= self.access_counts@.len(),
                count_of(self.access_counts@, t) == count_of(self.access_counts@.subrange(0, i as int), t),
            decreases i,
        {
            assert(self.access_counts@.subrange(0, i as int).drop_last() =~= self.access_counts@.subrange(0, i - 1));
            if self.access_counts[i - 1].0 == t {
                return self.access_counts[i - 1].1;
            }
            i = i - 1;
        }
        0
    }

    /// Up to `top_k` times, the most read first: distinct times in order of non-increasing
    /// count, none left out read more often than one returned.
    pub fn get_popular_timestamps(&self, top_k: usize) -> (r: Vec<u64>)
        requires
            self.wf(),
        ensures
            r@.len() == if top_k < self.counts().len() { top_k as int } else { self.counts().len() as int },
            forall|i: int| 0 <= i < r@.len() ==> has_time(self.counts(), #[trigger] r@[i]),
            forall|i: int, j: int| 0 <= i < j < r@.len() ==> #[trigger] r@[i] != #[trigger] r@[j],
            forall|i: int, j: int| 0 <= i < j < r@.len() ==> count_of(self.counts(), #[trigger] r@[i]) >= count_of(self.counts(), #[trigger] r@[j]),
            forall|t: u64, i: int| #[trigger] has_time(self.counts(), t) && !r@.contains(t) && 0 <= i < r@.len() ==> count_of(self.counts(), t) <= count_of(self.counts(), #[trigger] r@[i]),
    {
        let ghost c = self.access_counts@;
        let ranked = ranked(&self.access_counts);
        proof {
            ranked@.to_multiset_ensures();
            c.to_multiset_ensures();
            assert forall|a: int| 0 <= a < ranked@.len() implies count_of(c, #[trigger] ranked@[a].0) == ranked@[a].1 && has_time(c, ranked@[a].0) by {
                assert(ranked@.contains(ranked@[a]));
                assert(ranked@.to_multiset().count(ranked@[a]) > 0);
                assert(c.to_multiset().count(ranked@[a]) > 0);
                assert(c.contains(ranked@[a]));
                let m = choose|m: int| 0 <= m < c.len() && c[m] == ranked@[a];
                lemma_count_at(c, m);
                assert(c[m].0 == ranked@[a].0);
            }
        }
        let mut out: Vec<u64> = Vec::new();
        let mut k: usize = 0;
        while k < ranked.len() && k < top_k
            invariant
                k <= ranked@.len(),
                k <= top_k,
                out@.len() == k,
                forall|a: int| 0 <= a < k ==> #[trigger] out@[a] == ranked@[a].0,
            decreases ranked.len() - k,
        {
            out.push(ranked[k].0);
            k = k + 1;
        }
        proof {
            assert forall|a: int| 0 <= a < out@.len() implies has_time(c, #[trigger] out@[a]) by {
                assert(out@[a] == ranked@[a].0);
                assert(has_time(c, ranked@[a].0));
            }
            assert forall|a: int, b: int| 0 <= a < b < out@.len() implies #[trigger] out@[a] != #[trigger] out@[b] by {
                assert(ranked@[a].0 != ranked@[b].0);
            }
            assert forall|a: int, b: int| 0 <= a < b < out@.len() implies count_of(c, #[trigger] out@[a]) >= count_of(c, #[trigger] out@[b]) by {
                assert(count_of(c, ranked@[a].0) == ranked@[a].1);
                assert(count_of(c, ranked@[b].0) == ranked@[b].1);
                assert(ranked@[a].1 >= ranked@[b].1);
            }
            assert forall|t: u64, a: int| #[trigger] has_time(c, t) && !out@.contains(t) && 0 <= a < out@.len() implies count_of(c, t) <= count_of(c, #[trigger] out@[a]) by {
                let m = choose|m: int| 0 <= m < c.len() && #[trigger] c[m].0 == t;
                assert(c.contains(c[m]));
                assert(c.to_multiset().count(c[m]) > 0);
                assert(ranked@.to_multiset().count(c[m]) > 0);
                assert(ranked@.contains(c[m]));
                let b = choose|b: int| 0 <= b < ranked@.len() && ranked@[b] == c[m];
                if b < out@.len() {
                    assert(out@[b] == t);
                }
                assert(count_of(c, ranked@[b].0) == ranked@[b].1);
                assert(count_of(c, ranked@[a].0) == ranked@[a].1);
                assert(ranked@[a].1 >= ranked@[b].1);
            }
        }
        out
    }
}

/// The counters ordered by non-increasing count.
fn ranked(counts: &Vec<(u64, u64)>) -> (ranked: Vec<(u64, u64)>)
    requires
        forall|a: int, b: int| 0 <= a < b < counts@.len() ==> #[trigger] counts@[a].0 != #[trigger] counts@[b].0,
    ensures
        ranked@.len() == counts@.len(),
        ranked@.to_multiset() == counts@.to_multiset(),
        forall|a: int, b: int| 0 <= a < b < ranked@.len() ==> #[trigger] ranked@[a].1 >= #[trigger] ranked@[b].1,
        forall|a: int, b: int| 0 <= a < b < ranked@.len() ==> #[trigger] ranked@[a].0 != #[trigger] ranked@[b].0,
{
    let ghost c = counts@;
    let mut ranked: Vec<(u64, u64)> = Vec::new();
    let mut i: usize = 0;
    proof {
        assert(ranked@ =~= c.subrange(0, 0));
    }
    while i < counts.len()
        invariant
            i <= c.len(),
            c == counts@,
            forall|a: int, b: int| 0 <= a < b < c.len() ==> #[trigger] c[a].0 != #[trigger] c[b].0,
            ranked@.len() == i,
            ranked@.to_multiset() == c.subrange(0, i as int).to_multiset(),
            forall|a: int, b: int| 0 <= a < b < ranked@.len() ==> #[trigger] ranked@[a].1 >= #[trigger] ranked@[b].1,
            forall|a: int, b: int| 0 <= a < b < ranked@.len() ==> #[trigger] ranked@[a].0 != #[trigger] ranked@[b].0,
        decreases c.len() - i,
    {
        let e = counts[i];
        let ghost before = ranked@;
        let j = insert_by_count(&mut ranked, e);
        proof {
            before.to_multiset_ensures();
            c.subrange(0, i as int).to_multiset_ensures();
            assert(c.subrange(0, i + 1) =~= c.subrange(0, i as int).push(e));
            lemma_insert_multiset(before, j as int, e);
            assert forall|a: int| 0 <= a < before.len() implies #[trigger] before[a].0 != e.0 by {
                assert(before.contains(before[a]));
                assert(before.to_multiset().count(before[a]) > 0);
                assert(c.subrange(0, i as int).to_multiset().count(before[a]) > 0);
                assert(c.subrange(0, i as int).contains(before[a]));
                let m = choose|m: int| 0 <= m < i && #[trigger] c.subrange(0, i as int)[m] == before[a];
                assert(c[m] == before[a]);
                assert(c[m].0 != c[i as int].0);
            }
            assert forall|a: int, b: int| 0 <= a < b < ranked@.len() implies #[trigger] ranked@[a].0 != #[trigger] ranked@[b].0 by {
                if a < j && b < j {
                    assert(before[a].0 != before[b].0);
                } else if a < j && b == j {
                    assert(before[a].0 != e.0);
                } else if a < j {
                    assert(before[a].0 != before[b - 1].0);
                } else if a == j {
                    assert(before[b - 1].0 != e.0);
                } else {
                    assert(before[a - 1].0 != before[b - 1].0);
                }
            }
        }
        i = i + 1;
    }
    assert(c.subrange(0, c.len() as int) =~= c);
    ranked
}

proof fn lemma_insert_multiset(s: Seq<(u64, u64)>, j: int, e: (u64, u64))
    requires
        0 <= j <= s.len(),
    ensures
        s.insert(j, e).to_multiset() == s.to_multiset().insert(e),
{
    let l = s.subrange(0, j);
    let r = s.subrange(j, s.len() as int);
    assert(s.insert(j, e) =~= l.push(e) + r);
    assert(s =~= l + r);
    vstd::seq_lib::lemma_multiset_commutative(l.push(e), r);
    vstd::seq_lib::lemma_multiset_commutative(l, r);
    l.to_multiset_ensures();
    assert(s.insert(j, e).to_multiset() =~= s.to_multiset().insert(e));
}

/// Inserts `e` after every entry counted at least as often and returns where.
fn insert_by_count(ranked: &mut Vec<(u64, u64)>, e: (u64, u64)) -> (j: usize)
    requires
        forall|a: int, b: int| 0 <= a < b < old(ranked)@.len() ==> #[trigger] old(ranked)@[a].1 >= #[trigger] old(ranked)@[b].1,
    ensures
        j <= old(ranked)@.len(),
        final(ranked)@ == old(ranked)@.insert(j as int, e),
        forall|a: int, b: int| 0 <= a < b < final(ranked)@.len() ==> #[trigger] final(ranked)@[a].1 >= #[trigger] final(ranked)@[b].1,
{
    let mut j: usize = 0;
    while j < ranked.len() && ranked[j].1 >= e.1
        invariant
            j <= ranked@.len(),
            ranked@ == old(ranked)@,
            forall|a: int| 0 <= a < j ==> #[trigger] ranked@[a].1 >= e.1,
        decreases ranked.len() - j,
    {
        j = j + 1;
    }
    let ghost before = ranked@;
    ranked.insert(j, e);
    proof {
        assert forall|a: int, b: int| 0 <= a < b < ranked@.len() implies #[trigger] ranked@[a].1 >= #[trigger] ranked@[b].1 by {
            if b < j {
                assert(before[a].1 >= before[b].1);
            } else if b == j {
            } else if a < j {
                if j < before.len() {
                    assert(before[a].1 >= e.1);
                }
            } else if a == j {
                assert(!(before[j as int].1 >= e.1));
                if b - 1 > j {
                    assert(before[j as int].1 >= before[b - 1].1);
                }
            } else {
                assert(before[a - 1].1 >= before[b - 1].1);
            }
        }
    }
    j
}

proof fn lemma_count_at(s: Seq<(u64, u64)>, i: int)
    requires
        0 <= i < s.len(),
        forall|a: int, b: int| 0 <= a < b < s.len() ==> #[trigger] s[a].0 != #[trigger] s[b].0,
    ensures
        count_of(s, s[i].0) == s[i].1,
    decreases s.len(),
{
    if i < s.len() - 1 {
        lemma_count_at(s.drop_last(), i);
        assert(s.drop_last()[i] == s[i]);
    }
}

proof fn lemma_count_absent(s: Seq<(u64, u64)>, t: u64)
    requires
        forall|j: int| 0 <= j < s.len() ==> #[trigger] s[j].0 != t,
    ensures
        count_of(s, t) == 0,
    decreases s.len(),
{
    if s.len() > 0 {
        assert forall|j: int| 0 <= j < s.drop_last().len() implies #[trigger] s.drop_last()[j].0 != t by {
            assert(s.drop_last()[j] == s[j]);
        }
        lemma_count_absent(s.drop_last(), t);
    }
}

proof fn lemma_count_set(s: Seq<(u64, u64)>, i: int, e: (u64, u64))
    requires
        0 <= i < s.len(),
        e.0 == s[i].0,
        forall|a: int, b: int| 0 <= a < b < s.len() ==> #[trigger] s[a].0 != #[trigger] s[b].0,
    ensures
        count_of(s.update(i, e), e.0) == e.1,
        forall|q: u64| q != e.0 ==> #[trigger] count_of(s.update(i, e), q) == count_of(s, q),
        forall|a: int, b: int| 0 <= a < b < s.len() ==> #[trigger] s.update(i, e)[a].0 != #[trigger] s.update(i, e)[b].0,
    decreases s.len(),
{
    let t = s.update(i, e);
    if i < s.len() - 1 {
        lemma_count_set(s.drop_last(), i, e);
        assert(t.drop_last() =~= s.drop_last().update(i, e));
        assert(t.last() == s.last());
        assert forall|q: u64| q != e.0 implies #[trigger] count_of(t, q) == count_of(s, q) by {
            assert(count_of(t.drop_last(), q) == count_of(s.drop_last(), q));
        }
    } else {
        assert(t.drop_last() =~= s.drop_last());
    }
    assert forall|a: int, b: int| 0 <= a < b < s.len() implies #[trigger] t[a].0 != #[trigger] t[b].0 by {
        assert(s[a].0 != s[b].0);
    }
}

proof fn lemma_snapshot_last(s: Seq<(u64, Cid)>, t: u64)
    requires
        s.len() > 0,
        s.last().0 == t,
        forall|i: int| 0 <= i < s.len() - 1 ==> #[trigger] s[i].0 != t,
    ensures
        snapshot_at(s, t) == Some(s.last()),
{
    lemma_snapshot_bound(s.drop_last(), t);
    if let Some(e) = snapshot_at(s.drop_last(), t) {
        let i = choose|i: int| 0 <= i < s.drop_last().len() && s.drop_last()[i] == e;
        assert(s[i] == e);
    }
}

proof fn lemma_snapshot_bound(s: Seq<(u64, Cid)>, t: u64)
    ensures
        snapshot_at(s, t) matches Some(e) ==> e.0 <= t && exists|i: int| 0 <= i < s.len() && s[i] == e,
    decreases s.len(),
{
    if s.len() > 0 {
        lemma_snapshot_bound(s.drop_last(), t);
        if let Some(e) = snapshot_at(s.drop_last(), t) {
            let i = choose|i: int| 0 <= i < s.drop_last().len() && s.drop_last()[i] == e;
            assert(s[i] == e);
        }
    }
}

/// Relies on rand::random: a number drawn from the thread-local generator; nothing is known
/// of its value.
#[verifier::external_body]
fn random_draw() -> (r: u64) {
    rand::random::<u64>()
}

/// A way to execute a query.
#[derive(Clone, Debug)]
pub enum QueryPlan {
    PathFirst(Vec<String>),
    TypeFirst(Vec<String>),
    MeetInMiddle(String),
    IndexLookup(String),
}

/// A plan as plain values: its kind and the UTF-8 bytes of its strings.
pub open spec fn plan_view(p: QueryPlan) -> (u8, Seq<Seq<u8>>) {
    match p {
        QueryPlan::PathFirst(v) => (0, v@.map_values(|s: String| encode_utf8(s@))),
        QueryPlan::TypeFirst(v) => (1, v@.map_values(|s: String| encode_utf8(s@))),
        QueryPlan::MeetInMiddle(s) => (2, seq![encode_utf8(s@)]),
        QueryPlan::IndexLookup(s) => (3, seq![encode_utf8(s@)]),
    }
}

/// The key that identifies a plan: its kind, then each string followed by a zero byte.
pub open spec fn plan_key(p: QueryPlan) -> Seq<u8> {
    seq![plan_view(p).0] + terminated(plan_view(p).1)
}

fn copy_strings(v: &Vec<String>) -> (r: Vec<String>)
    ensures
        r@.map_values(|s: String| encode_utf8(s@)) == v@.map_values(|s: String| encode_utf8(s@)),
{
    let mut out: Vec<String> = Vec::new();
    let mut i: usize = 0;
    while i < v.len()
        invariant
            i <= v@.len(),
            out@.map_values(|s: String| encode_utf8(s@)) == v@.subrange(0, i as int).map_values(|s: String| encode_utf8(s@)),
        decreases v.len() - i,
    {
        let s = v[i].clone();
        assert(s@ == v@[i as int]@);
        let ghost before = out@;
        out.push(s);
        assert(out@.map_values(|s: String| encode_utf8(s@)) =~= before.map_values(|s: String| encode_utf8(s@)).push(encode_utf8(v@[i as int]@)));
        assert(v@.subrange(0, i + 1).map_values(|s: String| encode_utf8(s@)) =~= v@.subrange(0, i as int).map_values(|s: String| encode_utf8(s@)).push(encode_utf8(v@[i as int]@)));
        i = i + 1;
    }
    assert(v@.subrange(0, v@.len() as int) =~= v@);
    out
}

impl QueryPlan {
    /// A copy of the plan.
    pub fn copy(&self) -> (r: QueryPlan)
        ensures
            plan_view(r) == plan_view(*self),
    {
        match self {
            QueryPlan::PathFirst(v) => QueryPlan::PathFirst(copy_strings(v)),
            QueryPlan::TypeFirst(v) => QueryPlan::TypeFirst(copy_strings(v)),
            QueryPlan::MeetInMiddle(s) => QueryPlan::MeetInMiddle(s.clone()),
            QueryPlan::IndexLookup(s) => QueryPlan::IndexLookup(s.clone()),
        }
    }

    /// The key that identifies the plan.
    pub fn key(&self) -> (r: Vec<u8>)
        ensures
            r@ == plan_key(*self),
    {
        let mut data: Vec<u8> = Vec::new();
        match self {
            QueryPlan::PathFirst(v) => {
                data.push(0u8);
                push_strings(&mut data, v);
            },
            QueryPlan::TypeFirst(v) => {
                data.push(1u8);
                push_strings(&mut data, v);
            },
            QueryPlan::MeetInMiddle(s) => {
                data.push(2u8);
                let ghost d0 = data@;
                push_terminated(&mut data, s.as_str().as_bytes());
                assert(seq![encode_utf8(s@)].drop_first() =~= Seq::<Seq<u8>>::empty());
                assert(terminated(seq![encode_utf8(s@)]) =~= encode_utf8(s@) + seq![0u8] + terminated(Seq::<Seq<u8>>::empty()));
                assert(data@ =~= plan_key(*self));
            },
            QueryPlan::IndexLookup(s) => {
                data.push(3u8);
                push_terminated(&mut data, s.as_str().as_bytes());
                assert(seq![encode_utf8(s@)].drop_first() =~= Seq::<Seq<u8>>::empty());
                assert(terminated(seq![encode_utf8(s@)]) =~= encode_utf8(s@) + seq![0u8] + terminated(Seq::<Seq<u8>>::empty()));
                assert(data@ =~= plan_key(*self));
            },
        }
        data
    }
}

fn push_strings(data: &mut Vec<u8>, v: &Vec<String>)
    ensures
        final(data)@ == old(data)@ + terminated(v@.map_values(|s: String| encode_utf8(s@))),
{
    let ghost base = data@;
    let mut i: usize = 0;
    while i < v.len()
        invariant
            i <= v@.len(),
            data@ == base + terminated(v@.subrange(0, i as int).map_values(|s: String| encode_utf8(s@))),
        decreases v.len() - i,
    {
        let b = v[i].as_str().as_bytes();
        proof {
            let pre = v@.subrange(0, i as int).map_values(|s: String| encode_utf8(s@));
            assert(v@.subrange(0, i + 1).map_values(|s: String| encode_utf8(s@)) =~= pre.push(b@));
            lemma_terminated_push(pre, b@);
        }
        push_terminated(data, b);
        i = i + 1;
    }
    assert(v@.subrange(0, v@.len() as int) =~= v@);
}

/// One observed execution of a plan.
#[derive(Clone, Debug)]
pub struct PlanStats {
    pub plan: QueryPlan,
    pub execution_time_ms: u64,
    pub result_count: usize,
    pub success: bool,
    pub timestamp: u64,
}

/// The most observations kept per query.
pub const STATS_WINDOW: usize = 100;

/// An observation as plain values: plan key, latency, success.
pub type ObsView = (Seq<u8>, u64, bool);

pub open spec fn obs_views(s: Seq<PlanStats>) -> Seq<ObsView> {
    s.map_values(|o: PlanStats| (plan_key(o.plan), o.execution_time_ms, o.success))
}

/// The summed latency and the number of the successful observations of plan `k`.
pub open spec fn success_totals(obs: Seq<ObsView>, k: Seq<u8>) -> (nat, nat)
    decreases obs.len(),
{
    if obs.len() == 0 {
        (0, 0)
    } else {
        let t = success_totals(obs.drop_last(), k);
        if obs.last().0 == k && obs.last().2 {
            ((t.0 + obs.last().1) as nat, t.1 + 1)
        } else {
            t
        }
    }
}

/// The position of the latest successful observation of plan `k`, or -1.
pub open spec fn last_success(obs: Seq<ObsView>, k: Seq<u8>) -> int
    decreases obs.len(),
{
    if obs.len() == 0 {
        -1
    } else if obs.last().0 == k && obs.last().2 {
        obs.len() - 1
    } else {
        last_success(obs.drop_last(), k)
    }
}

/// Whether plan `a` beats plan `b` on `obs`: it has a successful observation and a lower
/// mean latency than `b` (which beats none where it has none), the later latest success
/// winning between equal means.
pub open spec fn beats(obs: Seq<ObsView>, a: Seq<u8>, b: Seq<u8>) -> bool {
    let (sa, ca) = success_totals(obs, a);
    let (sb, cb) = success_totals(obs, b);
    ca > 0 && (cb == 0 || sa * cb < sb * ca || (sa * cb == sb * ca && last_success(obs, a) > last_success(
        obs,
        b,
    )))
}

proof fn lemma_beats_trans(obs: Seq<ObsView>, a: Seq<u8>, b: Seq<u8>, c: Seq<u8>)
    requires
        beats(obs, a, b),
        beats(obs, b, c),
    ensures
        beats(obs, a, c),
{
    let (sa, ca) = success_totals(obs, a);
    let (sb, cb) = success_totals(obs, b);
    let (sc, cc) = success_totals(obs, c);
    if cc > 0 {
        assert(sa * cb <= sb * ca && sb * cc <= sc * cb ==> sa * cc <= sc * ca) by (nonlinear_arith)
            requires
                ca > 0,
                cb > 0,
                cc > 0,
        ;
        assert((sa * cb < sb * ca && sb * cc <= sc * cb) || (sa * cb <= sb * ca && sb * cc < sc * cb) ==> sa * cc
            < sc * ca) by (nonlinear_arith)
            requires
                ca > 0,
                cb > 0,
                cc > 0,
        ;
    }
}

/// Observations of plan executions, per query.
pub struct PlanSwitcher {
    plan_stats: Vec<(Vec<u8>, Vec<PlanStats>)>,
    epsilon_permille: u64,
    pub plan_timeout_ms: u64,
}

/// Whether `a` and `b` are byte-equal.
fn same_bytes(a: &[u8], b: &[u8]) -> (r: bool)
    ensures
        r == (a@ == b@),
{
    crate::graph::bytes_equal(a, b)
}

impl PlanSwitcher {
    pub closed spec fn wf(&self) -> bool {
        &&& forall|a: int, b: int|
            0 <= a < b < self.plan_stats@.len() ==> #[trigger] self.plan_stats@[a].0@ != #[trigger] self.plan_stats@[b].0@
        &&& forall|a: int| 0 <= a < self.plan_stats@.len() ==> #[trigger] self.plan_stats@[a].1@.len() <= STATS_WINDOW
    }

    /// The observations kept for the query with key bytes `q`, oldest first.
    pub closed spec fn observations(&self, q: Seq<u8>) -> Seq<ObsView> {
        if exists|i: int| 0 <= i < self.plan_stats@.len() && #[trigger] self.plan_stats@[i].0@ == q {
            let i = choose|i: int| 0 <= i < self.plan_stats@.len() && #[trigger] self.plan_stats@[i].0@ == q;
            obs_views(self.plan_stats@[i].1@)
        } else {
            Seq::empty()
        }
    }

    /// The exploration rate, in thousandths.
    pub closed spec fn epsilon(&self) -> u64 {
        self.epsilon_permille
    }

    /// A switcher with no observations that explores one time in ten.
    pub fn new() -> (r: PlanSwitcher)
        ensures
            r.wf(),
            r.epsilon() == 100,
            forall|q: Seq<u8>| #[trigger] r.observations(q) == Seq::<ObsView>::empty(),
    {
        PlanSwitcher { plan_stats: Vec::new(), epsilon_permille: 100, plan_timeout_ms: 1000 }
    }

    /// A switcher with no observations that explores `epsilon_permille` times in a thousand.
    pub fn with_epsilon(epsilon_permille: u64) -> (r: PlanSwitcher)
        ensures
            r.wf(),
            r.epsilon() == epsilon_permille,
            forall|q: Seq<u8>| #[trigger] r.observations(q) == Seq::<ObsView>::empty(),
    {
        PlanSwitcher { plan_stats: Vec::new(), epsilon_permille, plan_timeout_ms: 1000 }
    }

    fn find_query(&self, query_key: &str) -> (r: Option<usize>)
        requires
            self.wf(),
        ensures
            match r {
                Some(i) => i < self.plan_stats@.len() && self.plan_stats@[i as int].0@ == query_key.spec_bytes()
                    && self.observations(query_key.spec_bytes()) == obs_views(self.plan_stats@[i as int].1@),
                None => self.observations(query_key.spec_bytes()) == Seq::<ObsView>::empty()
                    && forall|i: int| 0 <= i < self.plan_stats@.len() ==> #[trigger] self.plan_stats@[i].0@ != query_key.spec_bytes(),
            },
    {
        let qb = query_key.as_bytes();
        let mut i: usize = 0;
        while i < self.plan_stats.len()
            invariant
                i <= self.plan_stats@.len(),
                qb@ == query_key.spec_bytes(),
                self.wf(),
                forall|j: int| 0 <= j < i ==> #[trigger] self.plan_stats@[j].0@ != qb@,
            decreases self.plan_stats.len() - i,
        {
            if same_bytes(self.plan_stats[i].0.as_slice(), qb) {
                proof {
                    let k = choose|k: int| 0 <= k < self.plan_stats@.len() && #[trigger] self.plan_stats@[k].0@ == qb@;
                    if k != i {
                        if k < i {
                            assert(self.plan_stats@[k].0@ != self.plan_stats@[i as int].0@);
                        } else {
                            assert(self.plan_stats@[i as int].0@ != self.plan_stats@[k].0@);
                        }
                    }
                }
                return Some(i);
            }
            i = i + 1;
        }
        None
    }

    /// The index of the plan of `plans` that no other beats on `obs`, the first of those
    /// where several tie.
    fn best_index(obs: &Vec<PlanStats>, plans: &[QueryPlan]) -> (r: usize)
        requires
            plans@.len() > 0,
            obs@.len() <= STATS_WINDOW,
        ensures
            r < plans@.len(),
            forall|j: int| 0 <= j < plans@.len() ==> !beats(obs_views(obs@), plan_key(#[trigger] plans@[j]), plan_key(plans@[r as int])),
            r == 0 || beats(obs_views(obs@), plan_key(plans@[r as int]), plan_key(plans@[0])),
    {
        let ghost ov = obs_views(obs@);
        let mut best: usize = 0;
        let mut best_tot = totals(obs, &plans[0].key());
        let mut i: usize = 1;
        while i < plans.len()
            invariant
                1 <= i <= plans@.len(),
                best < i,
                ov == obs_views(obs@),
                best_tot.0.0 as nat == success_totals(ov, plan_key(plans@[best as int])).0,
                best_tot.0.1 as nat == success_totals(ov, plan_key(plans@[best as int])).1,
                best_tot.1 as int == last_success(ov, plan_key(plans@[best as int])),
                best_tot.0.0 <= 0x1_0000_0000_0000_0000 * 100,
                best_tot.0.1 <= 100,
                obs@.len() <= STATS_WINDOW,
                forall|j: int| 0 <= j < i ==> !beats(ov, plan_key(#[trigger] plans@[j]), plan_key(plans@[best as int])),
                best == 0 || beats(ov, plan_key(plans@[best as int]), plan_key(plans@[0])),
            decreases plans.len() - i,
        {
            let t = totals(obs, &plans[i].key());
            let ((sa, ca), la) = t;
            let ((sb, cb), lb) = best_tot;
            proof {
                assert(sa * (cb as u128) <= 0x1_0000_0000_0000_0000 * 100 * 100) by (nonlinear_arith)
                    requires
                        sa <= 0x1_0000_0000_0000_0000 * 100,
                        cb <= 100,
                ;
                assert(sb * (ca as u128) <= 0x1_0000_0000_0000_0000 * 100 * 100) by (nonlinear_arith)
                    requires
                        sb <= 0x1_0000_0000_0000_0000 * 100,
                        ca <= 100,
                ;
            }
            let lhs: u128 = sa * (cb as u128);
            let rhs: u128 = sb * (ca as u128);
            let better = ca > 0 && (cb == 0 || lhs < rhs || (lhs == rhs && la > lb));
            proof {
                assert(better == beats(ov, plan_key(plans@[i as int]), plan_key(plans@[best as int])));
            }
            if better {
                proof {
                    if best != 0 {
                        lemma_beats_trans(ov, plan_key(plans@[i as int]), plan_key(plans@[best as int]), plan_key(plans@[0]));
                    }
                    assert forall|j: int| 0 <= j <= i implies !beats(ov, plan_key(#[trigger] plans@[j]), plan_key(plans@[i as int])) by {
                        if j < i && beats(ov, plan_key(plans@[j]), plan_key(plans@[i as int])) {
                            lemma_beats_trans(ov, plan_key(plans@[j]), plan_key(plans@[i as int]), plan_key(plans@[best as int]));
                        }
                    }
                }
                best = i;
                best_tot = t;
            }
            i = i + 1;
        }
        best
    }

    /// Picks a plan of `plans` for the query with key `query_key`: where `explore_draw` (in
    /// thousandths) falls below the exploration rate, the plan at `pick` modulo their number;
    /// otherwise the plan that no other beats on the query's observations, the first of
    /// those where several tie.
    pub fn choose_plan(&self, query_key: &str, plans: &[QueryPlan], explore_draw: u64, pick: u64) -> (r: QueryPlan)
        requires
            self.wf(),
            plans@.len() > 0,
        ensures
            exists|i: int| 0 <= i < plans@.len() && plan_view(r) == plan_view(#[trigger] plans@[i]),
            explore_draw % 1000 < self.epsilon() ==> plan_view(r) == plan_view(plans@[(pick % plans@.len() as u64) as int]),
            explore_draw % 1000 >= self.epsilon() ==> forall|j: int|
                0 <= j < plans@.len() ==> !beats(self.observations(query_key.spec_bytes()), plan_key(#[trigger] plans@[j]), plan_key(r)),
            explore_draw % 1000 >= self.epsilon() && self.observations(query_key.spec_bytes()).len() == 0
                ==> plan_view(r) == plan_view(plans@[0]),
    {
        if explore_draw % 1000 < self.epsilon_permille {
            let idx = (pick % plans.len() as u64) as usize;
            return plans[idx].copy();
        }
        let empty: Vec<PlanStats> = Vec::new();
        let b = match self.find_query(query_key) {
            Some(q) => PlanSwitcher::best_index(&self.plan_stats[q].1, plans),
            None => {
                proof {
                    assert(obs_views(empty@) =~= Seq::<ObsView>::empty());
                }
                PlanSwitcher::best_index(&empty, plans)
            },
        };
        let r = plans[b].copy();
        proof {
            assert(plan_key(r) == plan_key(plans@[b as int]));
            let ob = self.observations(query_key.spec_bytes());
            if ob.len() == 0 && b != 0 {
                assert(ob =~= Seq::<ObsView>::empty());
                assert(success_totals(ob, plan_key(plans@[b as int])).1 == 0);
            }
        }
        r
    }

    /// Picks a plan ε-greedily: with the exploration rate a plan at random, otherwise as
    /// `choose_plan` does. With no plans to pick from, an empty path-first plan.
    pub fn select_plan(&self, query_key: &str, available_plans: &[QueryPlan]) -> (r: QueryPlan)
        requires
            self.wf(),
        ensures
            available_plans@.len() > 0 ==> exists|i: int| 0 <= i < available_plans@.len() && plan_view(r) == plan_view(#[trigger] available_plans@[i]),
            available_plans@.len() == 0 ==> plan_view(r) == (0u8, Seq::<Seq<u8>>::empty()),
            available_plans@.len() > 0 && self.epsilon() == 0 ==> forall|j: int|
                0 <= j < available_plans@.len() ==> !beats(self.observations(query_key.spec_bytes()), plan_key(#[trigger] available_plans@[j]), plan_key(r)),
            available_plans@.len() > 0 && self.epsilon() == 0 && self.observations(query_key.spec_bytes()).len() == 0
                ==> plan_view(r) == plan_view(available_plans@[0]),
    {
        if available_plans.len() == 0 {
            let r = QueryPlan::PathFirst(Vec::new());
            assert(plan_view(r).1 =~= Seq::<Seq<u8>>::empty());
            return r;
        }
        let draw = random_draw();
        let pick = random_draw();
        self.choose_plan(query_key, available_plans, draw, pick)
    }

    /// Records an execution of `plan` for the query with key `query_key`, keeping the last
    /// `STATS_WINDOW` observations of that query.
    pub fn record_result(
        &mut self,
        query_key: &str,
        plan: &QueryPlan,
        execution_time_ms: u64,
        result_count: usize,
        success: bool,
        timestamp: u64,
    )
        requires
            old(self).wf(),
        ensures
            final(self).wf(),
            final(self).epsilon() == old(self).epsilon(),
            final(self).observations(query_key.spec_bytes()) == window(
                old(self).observations(query_key.spec_bytes()).push((plan_key(*plan), execution_time_ms, success)),
            ),
            forall|q: Seq<u8>| q != query_key.spec_bytes() ==> #[trigger] final(self).observations(q) == old(self).observations(q),
    {
        let stats = PlanStats { plan: plan.copy(), execution_time_ms, result_count, success, timestamp };
        let ghost ov = (plan_key(*plan), execution_time_ms, success);
        let ghost ps0 = self.plan_stats@;
        match self.find_query(query_key) {
            Some(i) => {
                let (k, mut list) = self.plan_stats.remove(i);
                let ghost l0 = list@;
                list.push(stats);
                assert(obs_views(list@) =~= obs_views(l0).push(ov));
                if list.len() > STATS_WINDOW {
                    let ghost l1 = list@;
                    list.remove(0);
                    assert(obs_views(list@) =~= obs_views(l1).drop_first());
                }
                self.plan_stats.insert(i, (k, list));
                proof {
                    assert(self.plan_stats@.len() == ps0.len());
                    assert forall|a: int| 0 <= a < ps0.len() && a != i implies #[trigger] self.plan_stats@[a] == ps0[a] by {}
                    assert forall|a: int, b: int| 0 <= a < b < self.plan_stats@.len() implies #[trigger] self.plan_stats@[a].0@ != #[trigger] self.plan_stats@[b].0@ by {
                        assert(self.plan_stats@[a].0@ == ps0[a].0@);
                        assert(self.plan_stats@[b].0@ == ps0[b].0@);
                    }
                    assert(self.plan_stats@[i as int].0@ == query_key.spec_bytes());
                    assert forall|q: Seq<u8>| q != query_key.spec_bytes() implies #[trigger] self.observations(q) == old(self).observations(q) by {
                        if exists|a: int| 0 <= a < ps0.len() && #[trigger] ps0[a].0@ == q {
                            let a = choose|a: int| 0 <= a < ps0.len() && #[trigger] ps0[a].0@ == q;
                            assert(self.plan_stats@[a].0@ == q);
                            let c = choose|c: int| 0 <= c < self.plan_stats@.len() && #[trigger] self.plan_stats@[c].0@ == q;
                            if c != a {
                                if c < a { assert(self.plan_stats@[c].0@ != self.plan_stats@[a].0@); } else { assert(self.plan_stats@[a].0@ != self.plan_stats@[c].0@); }
                            }
                        } else {
                            if exists|c: int| 0 <= c < self.plan_stats@.len() && #[trigger] self.plan_stats@[c].0@ == q {
                                let c = choose|c: int| 0 <= c < self.plan_stats@.len() && #[trigger] self.plan_stats@[c].0@ == q;
                                assert(ps0[c].0@ == q);
                            }
                        }
                    }
                    let c = choose|c: int| 0 <= c < self.plan_stats@.len() && #[trigger] self.plan_stats@[c].0@ == query_key.spec_bytes();
                    if c != i {
                        if c < i { assert(self.plan_stats@[c].0@ != self.plan_stats@[i as int].0@); } else { assert(self.plan_stats@[i as int].0@ != self.plan_stats@[c].0@); }
                    }
                }
            },
            None => {
                let mut list: Vec<PlanStats> = Vec::new();
                list.push(stats);
                let key = vstd::slice::slice_to_vec(query_key.as_bytes());
                self.plan_stats.push((key, list));
                proof {
                    assert(obs_views(list@) =~= seq![ov]);
                    assert(seq![ov] =~= Seq::<ObsView>::empty().push(ov));
                    let n = self.plan_stats@.len() - 1;
                    assert(self.plan_stats@[n].0@ == query_key.spec_bytes());
                    assert forall|a: int, b: int| 0 <= a < b < self.plan_stats@.len() implies #[trigger] self.plan_stats@[a].0@ != #[trigger] self.plan_stats@[b].0@ by {
                        if b < n {
                            assert(ps0[a].0@ != ps0[b].0@);
                        } else {
                            assert(ps0[a].0@ != query_key.spec_bytes());
                        }
                    }
                    let c = choose|c: int| 0 <= c < self.plan_stats@.len() && #[trigger] self.plan_stats@[c].0@ == query_key.spec_bytes();
                    if c != n {
                        assert(ps0[c].0@ != query_key.spec_bytes());
                    }
                    assert forall|q: Seq<u8>| q != query_key.spec_bytes() implies #[trigger] self.observations(q) == old(self).observations(q) by {
                        if exists|a: int| 0 <= a < ps0.len() && #[trigger] ps0[a].0@ == q {
                            let a = choose|a: int| 0 <= a < ps0.len() && #[trigger] ps0[a].0@ == q;
                            assert(self.plan_stats@[a].0@ == q);
                            let c = choose|c: int| 0 <= c < self.plan_stats@.len() && #[trigger] self.plan_stats@[c].0@ == q;
                            if c != a {
                                if c < a { assert(self.plan_stats@[c].0@ != self.plan_stats@[a].0@); } else if c < n { assert(self.plan_stats@[a].0@ != self.plan_stats@[c].0@); }
                            }
                        } else {
                            if exists|c: int| 0 <= c < self.plan_stats@.len() && #[trigger] self.plan_stats@[c].0@ == q {
                                let c = choose|c: int| 0 <= c < self.plan_stats@.len() && #[trigger] self.plan_stats@[c].0@ == q;
                                if c < n { assert(ps0[c].0@ == q); }
                            }
                        }
                    }
                }
            },
        }
    }
}

/// The last `STATS_WINDOW` observations.
pub open spec fn window(obs: Seq<ObsView>) -> Seq<ObsView> {
    if obs.len() > STATS_WINDOW {
        obs.drop_first()
    } else {
        obs
    }
}

/// The successful totals and latest success of plan `key` in `obs`, by a scan.
fn totals(obs: &Vec<PlanStats>, key: &Vec<u8>) -> (r: ((u128, u64), i64))
    requires
        obs@.len() <= STATS_WINDOW,
    ensures
        r.0.0 as nat == success_totals(obs_views(obs@), key@).0,
        r.0.1 as nat == success_totals(obs_views(obs@), key@).1,
        r.1 as int == last_success(obs_views(obs@), key@),
        r.0.0 <= 0x1_0000_0000_0000_0000 * 100,
        r.0.1 <= 100,
{
    let mut sum: u128 = 0;
    let mut cnt: u64 = 0;
    let mut last: i64 = -1;
    let mut i: usize = 0;
    while i < obs.len()
        invariant
            i <= obs@.len(),
            sum as nat == success_totals(obs_views(obs@.subrange(0, i as int)), key@).0,
            cnt as nat == success_totals(obs_views(obs@.subrange(0, i as int)), key@).1,
            obs@.len() <= STATS_WINDOW,
            sum <= 0x1_0000_0000_0000_0000 * i,
            cnt <= i,
            last as int == last_success(obs_views(obs@.subrange(0, i as int)), key@),
        decreases obs.len() - i,
    {
        let o = &obs[i];
        let k = o.plan.key();
        proof {
            assert(obs_views(obs@.subrange(0, i + 1)).drop_last() =~= obs_views(obs@.subrange(0, i as int)));
        }
        if o.success && same_bytes(k.as_slice(), key.as_slice()) {
            sum = sum + o.execution_time_ms as u128;
            cnt = cnt + 1;
            last = i as i64;
        }
        i = i + 1;
    }
    assert(obs@.subrange(0, obs@.len() as int) =~= obs@);
    ((sum, cnt), last)
}

/// The cost model: each path step costs two units and each type filter keeps one
/// candidate in ten. Costs are in thousandths of a unit.
pub struct CostEstimator {}

/// `v` divided by ten `t` times (rounding down each time).
pub open spec fn tenths(v: nat, t: nat) -> nat
    decreases t,
{
    if t == 0 {
        v
    } else {
        tenths(v / 10, (t - 1) as nat)
    }
}

/// The cost, in thousandths, of `segments` path steps under `types` type filters:
/// `segments · 2 · 0.1^types`, saturating at the largest `u64`.
pub open spec fn cost_spec(segments: nat, types: nat) -> nat {
    let raw = tenths(segments * 2000, types);
    if raw > u64::MAX { u64::MAX as nat } else { raw }
}

proof fn lemma_tenths_zero(t: nat)
    ensures
        tenths(0, t) == 0,
    decreases t,
{
    if t > 0 {
        lemma_tenths_zero((t - 1) as nat);
    }
}

impl CostEstimator {
    pub fn new() -> (r: CostEstimator) {
        CostEstimator {}
    }

    /// The estimated cost of a path with type filters, in thousandths.
    pub fn estimate_cost(&self, path: &[&str], types: &[&str]) -> (r: u64)
        ensures
            r as nat == cost_spec(path@.len(), types@.len()),
    {
        let mut v: u128 = path.len() as u128 * 2000;
        let t: usize = types.len();
        let mut i: usize = 0;
        while i < t
            invariant
                i <= t,
                t == types@.len(),
                tenths(v as nat, (t - i) as nat) == tenths(path@.len() * 2000, types@.len()),
            decreases t - i,
        {
            if v == 0 {
                proof {
                    lemma_tenths_zero((t - i) as nat);
                }
                return 0;
            }
            v = v / 10;
            i = i + 1;
        }
        assert(tenths(v as nat, 0) == v);
        if v > u64::MAX as u128 {
            u64::MAX
        } else {
            v as u64
        }
    }
}

/// A path split in two around a shared join key.
#[derive(Clone, Debug)]
pub struct QuerySplit {
    pub left_path: Vec<String>,
    pub right_path: Vec<String>,
    pub join_key: String,
    pub estimated_cost: u64,
}

/// Splits long paths where the two halves cost least.
pub struct MeetInMiddle {
    pub max_split_depth: usize,
    pub cost_estimator: CostEstimator,
}

/// The cost, in thousandths, of splitting a path of `n` segments after `k` of them: both
/// halves and one unit for the join.
pub open spec fn split_cost(n: nat, k: nat) -> nat {
    cost_spec(k, 0) + cost_spec((n - k) as nat, 0) + 1000
}

impl MeetInMiddle {
    pub fn new() -> (r: MeetInMiddle) {
        MeetInMiddle { max_split_depth: 5, cost_estimator: CostEstimator::new() }
    }

    /// For a path of three segments or more, the split point with the least `split_cost`
    /// (the first of equals): the two halves, the last segment of the left one as join key,
    /// and the cost. Shorter paths are not split.
    pub fn split_query(&self, query_path: &[&str], query_types: &[&str]) -> (r: Option<QuerySplit>)
        ensures
            query_path@.len() < 3 <==> r is None,
            r matches Some(s) ==> {
                let k = s.left_path@.len();
                &&& 1 <= k < query_path@.len()
                &&& s.left_path@.len() + s.right_path@.len() == query_path@.len()
                &&& forall|i: int| 0 <= i < k ==> #[trigger] s.left_path@[i]@ == query_path@[i]@
                &&& forall|i: int| 0 <= i < s.right_path@.len() ==> #[trigger] s.right_path@[i]@ == query_path@[k + i]@
                &&& s.join_key@ == query_path@[k - 1]@
                &&& s.estimated_cost as nat == if split_cost(query_path@.len(), k) > u64::MAX {
                    u64::MAX as nat
                } else {
                    split_cost(query_path@.len(), k)
                }
                &&& forall|j: nat| 1 <= j < query_path@.len() ==> split_cost(query_path@.len(), k) <= #[trigger] split_cost(query_path@.len(), j)
            },
    {
        let n = query_path.len();
        if n < 3 {
            return None;
        }
        let empty: [&str; 0] = [];
        let mut best_split: usize = 1;
        let mut best_cost: u128 = u128::MAX;
        let mut split_point: usize = 1;
        while split_point < n
            invariant
                1 <= best_split < n,
                1 <= split_point <= n,
                n == query_path@.len(),
                split_point > 1 ==> best_split < split_point && best_cost == split_cost(n as nat, best_split as nat),
                split_point == 1 ==> best_cost == u128::MAX && best_split == 1,
                forall|j: nat| 1 <= j < split_point ==> best_cost <= #[trigger] split_cost(n as nat, j),
            decreases n - split_point,
        {
            let left = vstd::slice::slice_subrange(query_path, 0, split_point);
            let right = vstd::slice::slice_subrange(query_path, split_point, n);
            let lc = self.cost_estimator.estimate_cost(left, &empty);
            let rc = self.cost_estimator.estimate_cost(right, &empty);
            let total: u128 = lc as u128 + rc as u128 + 1000;
            proof {
                assert(left@.len() == split_point);
                assert(right@.len() == n - split_point);
                assert(empty@.len() == 0);
            }
            if total < best_cost {
                best_cost = total;
                best_split = split_point;
            }
            split_point = split_point + 1;
        }
        let mut left_path: Vec<String> = Vec::new();
        let mut i: usize = 0;
        while i < best_split
            invariant
                i <= best_split < n,
                n == query_path@.len(),
                left_path@.len() == i,
                forall|j: int| 0 <= j < i ==> #[trigger] left_path@[j]@ == query_path@[j]@,
            decreases best_split - i,
        {
            left_path.push(query_path[i].to_string());
            i = i + 1;
        }
        let mut right_path: Vec<String> = Vec::new();
        let mut k: usize = best_split;
        while k < n
            invariant
                best_split <= k <= n,
                n == query_path@.len(),
                right_path@.len() == k - best_split,
                forall|j: int| 0 <= j < k - best_split ==> #[trigger] right_path@[j]@ == query_path@[best_split + j]@,
            decreases n - k,
        {
            right_path.push(query_path[k].to_string());
            k = k + 1;
        }
        let join_key = query_path[best_split - 1].to_string();
        let estimated_cost: u64 = if best_cost > u64::MAX as u128 { u64::MAX } else { best_cost as u64 };
        Some(QuerySplit { left_path, right_path, join_key, estimated_cost })
    }
}

} // verus!
