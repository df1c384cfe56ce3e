//! The manifest: the live table from query key to result digest, changed only by diffs.

use crate::cid::{Cid, QKey, QKeyView};
use vstd::prelude::*;

verus! {

broadcast use vstd::seq_lib::group_seq_properties;

/// A cached result and its use.
#[derive(Clone, Copy, Debug)]
pub struct ManifestEntry {
    pub qkey: QKey,
    pub result_cid: Cid,
    pub last_accessed: u64,
    pub access_count: u64,
}

/// One change of the manifest: entries added, keys removed, results replaced.
#[derive(Clone, Debug)]
pub struct ManifestDiff {
    pub version: u64,
    pub timestamp: u64,
    pub added: Vec<ManifestEntry>,
    pub removed: Vec<QKey>,
    pub updated: Vec<(QKey, Cid)>,
}

/// The results that a list of entries maps keys to; a later entry for a key hides an
/// earlier one.
pub open spec fn results(s: Seq<ManifestEntry>) -> Map<QKeyView, Seq<u8>>
    decreases s.len(),
{
    if s.len() == 0 {
        Map::empty()
    } else {
        results(s.drop_last()).insert(s.last().qkey@, s.last().result_cid@)
    }
}

/// No two entries share a key.
pub open spec fn unique_keys(s: Seq<ManifestEntry>) -> bool {
    forall|i: int, j: int| 0 <= i < j < s.len() ==> #[trigger] s[i].qkey@ != #[trigger] s[j].qkey@
}

/// The map after removing each key of `ks`.
pub open spec fn remove_all(m: Map<QKeyView, Seq<u8>>, ks: Seq<QKeyView>) -> Map<QKeyView, Seq<u8>>
    decreases ks.len(),
{
    if ks.len() == 0 {
        m
    } else {
        remove_all(m, ks.drop_last()).remove(ks.last())
    }
}

/// The map after replacing the result of each present key of `us`.
pub open spec fn update_all(m: Map<QKeyView, Seq<u8>>, us: Seq<(QKeyView, Seq<u8>)>) -> Map<QKeyView, Seq<u8>>
    decreases us.len(),
{
    if us.len() == 0 {
        m
    } else {
        let prev = update_all(m, us.drop_last());
        if prev.contains_key(us.last().0) {
            prev.insert(us.last().0, us.last().1)
        } else {
            prev
        }
    }
}

/// The map after inserting each entry of `es`.
pub open spec fn add_all(m: Map<QKeyView, Seq<u8>>, es: Seq<ManifestEntry>) -> Map<QKeyView, Seq<u8>>
    decreases es.len(),
{
    if es.len() == 0 {
        m
    } else {
        add_all(m, es.drop_last()).insert(es.last().qkey@, es.last().result_cid@)
    }
}

/// The entries whose key `m` lacks.
pub open spec fn absent_from(m: Map<QKeyView, Seq<u8>>) -> spec_fn(ManifestEntry) -> bool {
    |e: ManifestEntry| !m.contains_key(e.qkey@)
}

/// The entries whose key `m` maps to another result.
pub open spec fn changed_in(m: Map<QKeyView, Seq<u8>>) -> spec_fn(ManifestEntry) -> bool {
    |e: ManifestEntry| m.contains_key(e.qkey@) && m[e.qkey@] != e.result_cid@
}

/// An entry's key with the result that `m` gives it.
pub open spec fn result_in(m: Map<QKeyView, Seq<u8>>) -> spec_fn(ManifestEntry) -> (QKeyView, Seq<u8>) {
    |e: ManifestEntry| (e.qkey@, m[e.qkey@])
}

pub open spec fn entry_key() -> spec_fn(ManifestEntry) -> QKeyView {
    |e: ManifestEntry| e.qkey@
}

pub open spec fn key_views(ks: Seq<QKey>) -> Seq<QKeyView> {
    ks.map_values(|k: QKey| k@)
}

pub open spec fn update_views(us: Seq<(QKey, Cid)>) -> Seq<(QKeyView, Seq<u8>)> {
    us.map_values(|u: (QKey, Cid)| (u.0@, u.1@))
}

/// The live table after a diff: removals first, then replacements, then additions.
pub open spec fn apply_spec(m: Map<QKeyView, Seq<u8>>, d: ManifestDiff) -> Map<QKeyView, Seq<u8>> {
    add_all(update_all(remove_all(m, key_views(d.removed@)), update_views(d.updated@)), d.added@)
}

proof fn lemma_results_absent(s: Seq<ManifestEntry>, k: QKeyView)
    ensures
        results(s).contains_key(k) <==> exists|i: int| 0 <= i < s.len() && s[i].qkey@ == k,
    decreases s.len(),
{
    if s.len() > 0 {
        lemma_results_absent(s.drop_last(), k);
        if results(s.drop_last()).contains_key(k) {
            let i = choose|i: int| 0 <= i < s.drop_last().len() && s.drop_last()[i].qkey@ == k;
            assert(s[i].qkey@ == k);
        }
        if exists|i: int| 0 <= i < s.len() && s[i].qkey@ == k {
            let i = choose|i: int| 0 <= i < s.len() && s[i].qkey@ == k;
            if i < s.len() - 1 {
                assert(s.drop_last()[i].qkey@ == k);
            }
        }
    }
}

proof fn lemma_results_at(s: Seq<ManifestEntry>, i: int)
    requires
        unique_keys(s),
        0 <= i < s.len(),
    ensures
        results(s).contains_key(s[i].qkey@),
        results(s)[s[i].qkey@] == s[i].result_cid@,
    decreases s.len(),
{
    if i < s.len() - 1 {
        lemma_results_at(s.drop_last(), i);
        assert(s.drop_last()[i] == s[i]);
    }
}

proof fn lemma_results_update(s: Seq<ManifestEntry>, i: int, e: ManifestEntry)
    requires
        unique_keys(s),
        0 <= i < s.len(),
        e.qkey@ == s[i].qkey@,
    ensures
        results(s.update(i, e)) == results(s).insert(e.qkey@, e.result_cid@),
        unique_keys(s.update(i, e)),
    decreases s.len(),
{
    let t = s.update(i, e);
    if i == s.len() - 1 {
        assert(t.drop_last() =~= s.drop_last());
        assert(results(t) =~= results(s).insert(e.qkey@, e.result_cid@));
    } else {
        lemma_results_update(s.drop_last(), i, e);
        assert(t.drop_last() =~= s.drop_last().update(i, e));
        assert(results(t) =~= results(s).insert(e.qkey@, e.result_cid@));
    }
}

proof fn lemma_results_remove(s: Seq<ManifestEntry>, i: int)
    requires
        unique_keys(s),
        0 <= i < s.len(),
    ensures
        results(s.remove(i)) == results(s).remove(s[i].qkey@),
        unique_keys(s.remove(i)),
    decreases s.len(),
{
    let t = s.remove(i);
    let k = s[i].qkey@;
    if i == s.len() - 1 {
        assert(t =~= s.drop_last());
        lemma_results_absent(s.drop_last(), k);
        assert(results(t) =~= results(s).remove(k));
    } else {
        lemma_results_remove(s.drop_last(), i);
        assert(t.drop_last() =~= s.drop_last().remove(i));
        assert(t.last() == s.last());
        assert(results(t) =~= results(s).remove(k));
    }
}

proof fn lemma_remove_all(m: Map<QKeyView, Seq<u8>>, ks: Seq<QKeyView>, k: QKeyView)
    ensures
        remove_all(m, ks).contains_key(k) == (m.contains_key(k) && !ks.contains(k)),
        remove_all(m, ks).contains_key(k) ==> remove_all(m, ks)[k] == m[k],
    decreases ks.len(),
{
    if ks.len() > 0 {
        lemma_remove_all(m, ks.drop_last(), k);
        if ks.drop_last().contains(k) {
            let i = choose|i: int| 0 <= i < ks.drop_last().len() && ks.drop_last()[i] == k;
            assert(ks[i] == k);
        }
        if ks.contains(k) {
            let i = choose|i: int| 0 <= i < ks.len() && ks[i] == k;
            if i < ks.len() - 1 {
                assert(ks.drop_last()[i] == k);
            }
        }
        if ks.last() == k {
            assert(ks[ks.len() - 1] == k);
        }
    }
}

proof fn lemma_update_all(m: Map<QKeyView, Seq<u8>>, us: Seq<(QKeyView, Seq<u8>)>, g: Map<QKeyView, Seq<u8>>, k: QKeyView)
    requires
        forall|i: int| 0 <= i < us.len() ==> m.contains_key(#[trigger] us[i].0) && us[i].1 == g[us[i].0],
    ensures
        update_all(m, us).contains_key(k) == m.contains_key(k),
        update_all(m, us).contains_key(k) ==> update_all(m, us)[k] == if exists|i: int| 0 <= i < us.len() && #[trigger] us[i].0 == k {
            g[k]
        } else {
            m[k]
        },
    decreases us.len(),
{
    if us.len() > 0 {
        let p = us.drop_last();
        assert forall|i: int| 0 <= i < p.len() implies m.contains_key(#[trigger] p[i].0) && p[i].1 == g[p[i].0] by {
            assert(p[i] == us[i]);
        }
        lemma_update_all(m, p, g, k);
        lemma_update_all(m, p, g, us.last().0);
        assert(m.contains_key(us[us.len() - 1].0));
        if exists|i: int| 0 <= i < p.len() && #[trigger] p[i].0 == k {
            let i = choose|i: int| 0 <= i < p.len() && #[trigger] p[i].0 == k;
            assert(us[i].0 == k);
        }
        if exists|i: int| 0 <= i < us.len() && #[trigger] us[i].0 == k {
            let i = choose|i: int| 0 <= i < us.len() && #[trigger] us[i].0 == k;
            if i < us.len() - 1 {
                assert(p[i].0 == k);
            }
        }
        if us.last().0 == k {
            assert(us[us.len() - 1].0 == k);
        }
    }
}

proof fn lemma_add_all(m: Map<QKeyView, Seq<u8>>, es: Seq<ManifestEntry>, g: Map<QKeyView, Seq<u8>>, k: QKeyView)
    requires
        forall|i: int| 0 <= i < es.len() ==> (#[trigger] es[i]).result_cid@ == g[es[i].qkey@],
    ensures
        add_all(m, es).contains_key(k) == (m.contains_key(k) || exists|i: int| 0 <= i < es.len() && #[trigger] es[i].qkey@ == k),
        add_all(m, es).contains_key(k) ==> add_all(m, es)[k] == if exists|i: int| 0 <= i < es.len() && #[trigger] es[i].qkey@ == k {
            g[k]
        } else {
            m[k]
        },
    decreases es.len(),
{
    if es.len() > 0 {
        let p = es.drop_last();
        assert forall|i: int| 0 <= i < p.len() implies (#[trigger] p[i]).result_cid@ == g[p[i].qkey@] by {
            assert(p[i] == es[i]);
        }
        lemma_add_all(m, p, g, k);
        assert(es[es.len() - 1].result_cid@ == g[es[es.len() - 1].qkey@]);
        if exists|i: int| 0 <= i < p.len() && #[trigger] p[i].qkey@ == k {
            let i = choose|i: int| 0 <= i < p.len() && #[trigger] p[i].qkey@ == k;
            assert(es[i].qkey@ == k);
        }
        if exists|i: int| 0 <= i < es.len() && #[trigger] es[i].qkey@ == k {
            let i = choose|i: int| 0 <= i < es.len() && #[trigger] es[i].qkey@ == k;
            if i < es.len() - 1 {
                assert(p[i].qkey@ == k);
            }
        }
        if es.last().qkey@ == k {
            assert(es[es.len() - 1].qkey@ == k);
        }
    }
}

/// Applying the diff that `create_diff` makes from a live table toward a proposed table
/// leaves exactly the results of the proposed table.
pub proof fn lemma_diff_reaches_target(live: Seq<ManifestEntry>, n: Seq<ManifestEntry>, d: ManifestDiff)
    requires
        unique_keys(live),
        unique_keys(n),
        d.added@ == n.filter(absent_from(results(live))),
        key_views(d.removed@) == live.filter(absent_from(results(n))).map_values(entry_key()),
        update_views(d.updated@) == live.filter(changed_in(results(n))).map_values(result_in(results(n))),
    ensures
        apply_spec(results(live), d) == results(n),
{
    let lm = results(live);
    let nm = results(n);
    let ks = key_views(d.removed@);
    let us = update_views(d.updated@);
    let es = d.added@;
    let gone = live.filter(absent_from(nm));
    let changed = live.filter(changed_in(nm));
    let r1 = remove_all(lm, ks);
    let r2 = update_all(r1, us);
    let f = add_all(r2, es);
    assert forall|i: int| 0 <= i < us.len() implies r1.contains_key(#[trigger] us[i].0) && us[i].1 == nm[us[i].0] by {
        let e = changed[i];
        assert(changed_in(nm)(e)) by {
            live.lemma_filter_pred(changed_in(nm), i);
        }
        assert(us[i] == result_in(nm)(e));
        assert(live.filter(changed_in(nm)).contains(e));
        live.lemma_filter_contains_rev(changed_in(nm), e);
        let j = choose|j: int| 0 <= j < live.len() && live[j] == e;
        lemma_results_absent(live, e.qkey@);
        lemma_remove_all(lm, ks, e.qkey@);
        if ks.contains(e.qkey@) {
            let a = choose|a: int| 0 <= a < ks.len() && ks[a] == e.qkey@;
            assert(ks[a] == entry_key()(gone[a]));
            live.lemma_filter_pred(absent_from(nm), a);
        }
    }
    assert forall|i: int| 0 <= i < es.len() implies (#[trigger] es[i]).result_cid@ == nm[es[i].qkey@] by {
        assert(n.filter(absent_from(lm)).contains(es[i]));
        n.lemma_filter_contains_rev(absent_from(lm), es[i]);
        let j = choose|j: int| 0 <= j < n.len() && n[j] == es[i];
        lemma_results_at(n, j);
    }
    assert forall|k: QKeyView| #[trigger] f.contains_key(k) == nm.contains_key(k) && (f.contains_key(k) ==> f[k] == nm[k]) by {
        lemma_results_absent(live, k);
        lemma_results_absent(n, k);
        lemma_remove_all(lm, ks, k);
        lemma_update_all(r1, us, nm, k);
        lemma_add_all(r2, es, nm, k);
        // which keys are removed
        if lm.contains_key(k) && !nm.contains_key(k) {
            let j = choose|j: int| 0 <= j < live.len() && live[j].qkey@ == k;
            live.lemma_filter_contains(absent_from(nm), j);
            let a = choose|a: int| 0 <= a < gone.len() && gone[a] == live[j];
            assert(ks[a] == k);
        }
        if ks.contains(k) {
            let a = choose|a: int| 0 <= a < ks.len() && ks[a] == k;
            live.lemma_filter_pred(absent_from(nm), a);
            assert(gone.contains(gone[a]));
            live.lemma_filter_contains_rev(absent_from(nm), gone[a]);
        }
        // which keys are added
        if exists|i: int| 0 <= i < es.len() && #[trigger] es[i].qkey@ == k {
            let i = choose|i: int| 0 <= i < es.len() && #[trigger] es[i].qkey@ == k;
            n.lemma_filter_pred(absent_from(lm), i);
            assert(n.filter(absent_from(lm)).contains(es[i]));
            n.lemma_filter_contains_rev(absent_from(lm), es[i]);
        }
        if nm.contains_key(k) && !lm.contains_key(k) {
            let j = choose|j: int| 0 <= j < n.len() && n[j].qkey@ == k;
            n.lemma_filter_contains(absent_from(lm), j);
            let i = choose|i: int| 0 <= i < es.len() && es[i] == n[j];
            assert(es[i].qkey@ == k);
        }
        // which keys are updated
        if lm.contains_key(k) && nm.contains_key(k) {
            let j = choose|j: int| 0 <= j < live.len() && live[j].qkey@ == k;
            lemma_results_at(live, j);
            if lm[k] != nm[k] {
                live.lemma_filter_contains(changed_in(nm), j);
                let i = choose|i: int| 0 <= i < changed.len() && changed[i] == live[j];
                assert(us[i].0 == k);
            } else {
                if exists|i: int| 0 <= i < us.len() && #[trigger] us[i].0 == k {
                    let i = choose|i: int| 0 <= i < us.len() && #[trigger] us[i].0 == k;
                    assert(us[i].1 == nm[k]);
                }
            }
        }
    }
    assert(f =~= nm);
}

/// The index of the entry with key `k`, if there is one.
fn find_key(s: &Vec<ManifestEntry>, k: &QKey) -> (r: Option<usize>)
    ensures
        match r {
            Some(i) => i < s@.len() && s@[i as int].qkey@ == k@,
            None => forall|i: int| 0 <= i < s@.len() ==> s@[i].qkey@ != k@,
        },
{
    let mut i: usize = 0;
    while i < s.len()
        invariant
            i <= s@.len(),
            forall|j: int| 0 <= j < i ==> s@[j].qkey@ != k@,
        decreases s.len() - i,
    {
        if s[i].qkey.same(k) {
            return Some(i);
        }
        i = i + 1;
    }
    None
}

/// The live table of cached results with the diffs that made it.
#[derive(Clone, Debug)]
pub struct Manifest {
    pub base_version: u64,
    pub entries: Vec<ManifestEntry>,
    pub diffs: Vec<ManifestDiff>,
}

impl Manifest {
    /// No two live entries share a key.
    pub open spec fn wf(&self) -> bool {
        unique_keys(self.entries@)
    }

    /// The live table: each key to its result digest.
    pub open spec fn live(&self) -> Map<QKeyView, Seq<u8>> {
        results(self.entries@)
    }

    pub fn new() -> (r: Manifest)
        ensures
            r.wf(),
            r.live() == Map::<QKeyView, Seq<u8>>::empty(),
            r.base_version == 0,
            r.diffs@.len() == 0,
    {
        Manifest { base_version: 0, entries: Vec::new(), diffs: Vec::new() }
    }

    /// Applies a diff: removes its removed keys, replaces the results of its updated keys
    /// that are present, inserts its added entries, and appends it to the log.
    pub fn apply_diff(&mut self, diff: ManifestDiff)
        requires
            old(self).wf(),
        ensures
            final(self).wf(),
            final(self).live() == apply_spec(old(self).live(), diff),
            final(self).diffs@ == old(self).diffs@.push(diff),
            final(self).base_version == old(self).base_version,
    {
        let ghost m0 = self.live();
        let ghost d0 = self.diffs@;
        let ghost b0 = self.base_version;
        let mut i: usize = 0;
        while i < diff.removed.len()
            invariant
                i <= diff.removed@.len(),
                unique_keys(self.entries@),
                self.diffs@ == d0,
                self.base_version == b0,
                results(self.entries@) == remove_all(m0, key_views(diff.removed@.subrange(0, i as int))),
            decreases diff.removed.len() - i,
        {
            let k = &diff.removed[i];
            proof {
                assert(key_views(diff.removed@.subrange(0, i + 1)).drop_last() =~= key_views(diff.removed@.subrange(0, i as int)));
            }
            match find_key(&self.entries, k) {
                Some(idx) => {
                    proof {
                        lemma_results_remove(self.entries@, idx as int);
                    }
                    self.entries.remove(idx);
                },
                None => {
                    proof {
                        lemma_results_absent(self.entries@, k@);
                        assert(results(self.entries@).remove(k@) =~= results(self.entries@));
                    }
                },
            }
            i = i + 1;
        }
        assert(diff.removed@.subrange(0, diff.removed@.len() as int) =~= diff.removed@);
        let ghost m1 = results(self.entries@);
        let mut j: usize = 0;
        while j < diff.updated.len()
            invariant
                j <= diff.updated@.len(),
                unique_keys(self.entries@),
                self.diffs@ == d0,
                self.base_version == b0,
                results(self.entries@) == update_all(m1, update_views(diff.updated@.subrange(0, j as int))),
            decreases diff.updated.len() - j,
        {
            let (k, d) = diff.updated[j];
            proof {
                assert(update_views(diff.updated@.subrange(0, j + 1)).drop_last() =~= update_views(diff.updated@.subrange(0, j as int)));
            }
            match find_key(&self.entries, &k) {
                Some(idx) => {
                    let mut e = self.entries[idx];
                    e.result_cid = d;
                    proof {
                        lemma_results_update(self.entries@, idx as int, e);
                        lemma_results_absent(self.entries@, k@);
                    }
                    self.entries.set(idx, e);
                },
                None => {
                    proof {
                        lemma_results_absent(self.entries@, k@);
                    }
                },
            }
            j = j + 1;
        }
        assert(diff.updated@.subrange(0, diff.updated@.len() as int) =~= diff.updated@);
        let ghost m2 = results(self.entries@);
        let mut a: usize = 0;
        while a < diff.added.len()
            invariant
                a <= diff.added@.len(),
                unique_keys(self.entries@),
                self.diffs@ == d0,
                self.base_version == b0,
                results(self.entries@) == add_all(m2, diff.added@.subrange(0, a as int)),
            decreases diff.added.len() - a,
        {
            let e = diff.added[a];
            proof {
                assert(diff.added@.subrange(0, a + 1).drop_last() =~= diff.added@.subrange(0, a as int));
            }
            match find_key(&self.entries, &e.qkey) {
                Some(idx) => {
                    proof {
                        lemma_results_update(self.entries@, idx as int, e);
                    }
                    self.entries.set(idx, e);
                },
                None => {
                    let ghost before = self.entries@;
                    self.entries.push(e);
                    proof {
                        assert(self.entries@.drop_last() =~= before);
                    }
                },
            }
            a = a + 1;
        }
        assert(diff.added@.subrange(0, diff.added@.len() as int) =~= diff.added@);
        self.diffs.push(diff);
    }

    /// The diff that turns the live table into the table of `new_entries`: the entries
    /// whose key is not live are added, the live keys that `new_entries` lacks are removed,
    /// and the live keys whose result differs get the new result. It is numbered one past
    /// the last diff and stamped with `timestamp`.
    pub fn create_diff(&self, new_entries: &Vec<ManifestEntry>, timestamp: u64) -> (r: ManifestDiff)
        requires
            self.wf(),
            unique_keys(new_entries@),
            self.base_version + self.diffs@.len() + 1 <= u64::MAX,
        ensures
            r.version == self.base_version + self.diffs@.len() + 1,
            r.timestamp == timestamp,
            r.added@ == new_entries@.filter(absent_from(self.live())),
            key_views(r.removed@) == self.entries@.filter(absent_from(results(new_entries@))).map_values(
                entry_key(),
            ),
            update_views(r.updated@) == self.entries@.filter(changed_in(results(new_entries@))).map_values(
                result_in(results(new_entries@)),
            ),
    {
        let ghost n = new_entries@;
        let mut added: Vec<ManifestEntry> = Vec::new();
        let mut i: usize = 0;
        while i < new_entries.len()
            invariant
                i <= n.len(),
                n == new_entries@,
                self.wf(),
                added@ == n.subrange(0, i as int).filter(absent_from(self.live())),
            decreases new_entries.len() - i,
        {
            let e = new_entries[i];
            proof {
                assert(n.subrange(0, i + 1) =~= n.subrange(0, i as int).push(e));
                n.subrange(0, i as int).lemma_filter_push(e, absent_from(self.live()));
                lemma_results_absent(self.entries@, e.qkey@);
            }
            let found = find_key(&self.entries, &e.qkey);
            let ghost a0 = added@;
            if found.is_none() {
                assert(forall|k: int| 0 <= k < self.entries@.len() ==> self.entries@[k].qkey@ != e.qkey@);
                assert(!results(self.entries@).contains_key(e.qkey@));
                assert(absent_from(self.live())(e));
                added.push(e);
                assert(added@ == n.subrange(0, i + 1).filter(absent_from(self.live())));
            } else {
                assert(!absent_from(self.live())(e));
                assert(added@ == n.subrange(0, i + 1).filter(absent_from(self.live())));
            }
            i = i + 1;
        }
        assert(n.subrange(0, n.len() as int) =~= n);
        let ghost s = self.entries@;
        let mut removed: Vec<QKey> = Vec::new();
        let mut updated: Vec<(QKey, Cid)> = Vec::new();
        let mut j: usize = 0;
        while j < self.entries.len()
            invariant
                j <= s.len(),
                s == self.entries@,
                n == new_entries@,
                unique_keys(n),
                key_views(removed@) == s.subrange(0, j as int).filter(absent_from(results(n))).map_values(entry_key()),
                update_views(updated@) == s.subrange(0, j as int).filter(changed_in(results(n))).map_values(
                    result_in(results(n)),
                ),
            decreases self.entries.len() - j,
        {
            let old_entry = self.entries[j];
            proof {
                assert(s.subrange(0, j + 1) =~= s.subrange(0, j as int).push(old_entry));
                s.subrange(0, j as int).lemma_filter_push(old_entry, absent_from(results(n)));
                s.subrange(0, j as int).lemma_filter_push(old_entry, changed_in(results(n)));
                lemma_results_absent(n, old_entry.qkey@);
            }
            let ghost (r0, u0) = (removed@, updated@);
            let ghost f = entry_key();
            let ghost g = result_in(results(n));
            let ghost pg = s.subrange(0, j as int).filter(absent_from(results(n)));
            let ghost pc = s.subrange(0, j as int).filter(changed_in(results(n)));
            proof {
                assert(pg.push(old_entry).map_values(f) =~= pg.map_values(f).push(f(old_entry)));
                assert(pc.push(old_entry).map_values(g) =~= pc.map_values(g).push(g(old_entry)));
            }
            match find_key(new_entries, &old_entry.qkey) {
                Some(k) => {
                    proof {
                        lemma_results_at(n, k as int);
                    }
                    let new_cid = new_entries[k].result_cid;
                    if !old_entry.result_cid.same(&new_cid) {
                        updated.push((old_entry.qkey, new_cid));
                        proof {
                            assert(update_views(updated@) =~= update_views(u0).push((old_entry.qkey@, new_cid@)));
                        }
                    }
                },
                None => {
                    removed.push(old_entry.qkey);
                    proof {
                        assert(key_views(removed@) =~= key_views(r0).push(old_entry.qkey@));
                    }
                },
            }
            j = j + 1;
        }
        assert(s.subrange(0, s.len() as int) =~= s);
        let version = self.base_version + self.diffs.len() as u64 + 1;
        ManifestDiff { version, timestamp, added, removed, updated }
    }

    /// Evicts entries until at most `capacity` are live: each time the entry used least
    /// often, the least recently used among equals, the first among those.
    pub fn evict_to(&mut self, capacity: usize)
        requires
            old(self).wf(),
        ensures
            final(self).wf(),
            final(self).entries@.len() == if old(self).entries@.len() > capacity { capacity as int } else { old(self).entries@.len() as int },
            forall|k: QKeyView| #[trigger] final(self).live().contains_key(k) ==> old(self).live().contains_key(k) && final(self).live()[k] == old(self).live()[k],
            final(self).diffs@ == old(self).diffs@,
            final(self).base_version == old(self).base_version,
    {
        while self.entries.len() > capacity
            invariant
                self.wf(),
                self.entries@.len() <= old(self).entries@.len(),
                old(self).entries@.len() > capacity ==> self.entries@.len() >= capacity,
                old(self).entries@.len() <= capacity ==> self.entries@ == old(self).entries@,
                forall|k: QKeyView| #[trigger] self.live().contains_key(k) ==> old(self).live().contains_key(k) && self.live()[k] == old(self).live()[k],
                self.diffs@ == old(self).diffs@,
                self.base_version == old(self).base_version,
            decreases self.entries.len(),
        {
            let mut victim: usize = 0;
            let mut i: usize = 1;
            while i < self.entries.len()
                invariant
                    victim < self.entries@.len(),
                    1 <= i <= self.entries@.len(),
                decreases self.entries.len() - i,
            {
                let e = self.entries[i];
                let v = self.entries[victim];
                if e.access_count < v.access_count || (e.access_count == v.access_count && e.last_accessed < v.last_accessed) {
                    victim = i;
                }
                i = i + 1;
            }
            let ghost before = self.entries@;
            proof {
                lemma_results_remove(before, victim as int);
            }
            let ghost m0 = results(before);
            assert(m0 == self.live());
            assert(forall|k: QKeyView| #[trigger] m0.contains_key(k) ==> old(self).live().contains_key(k) && m0[k] == old(self).live()[k]);
            self.entries.remove(victim);
            proof {
                assert forall|k: QKeyView| #[trigger] self.live().contains_key(k) implies old(self).live().contains_key(k) && self.live()[k] == old(self).live()[k] by {
                    assert(m0.contains_key(k));
                }
            }
        }
    }

    /// The result digest cached for `qkey`, if any.
    pub fn get_result(&self, qkey: &QKey) -> (r: Option<Cid>)
        requires
            self.wf(),
        ensures
            match r {
                Some(d) => self.live().contains_key(qkey@) && self.live()[qkey@] == d@,
                None => !self.live().contains_key(qkey@),
            },
    {
        proof {
            lemma_results_absent(self.entries@, qkey@);
        }
        match find_key(&self.entries, qkey) {
            Some(i) => {
                proof {
                    lemma_results_at(self.entries@, i as int);
                }
                Some(self.entries[i].result_cid)
            },
            None => None,
        }
    }
}

} // verus!
