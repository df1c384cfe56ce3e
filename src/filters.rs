//! The three-level Bloom hierarchy: one global filter, one per pack, one per shard
//! (type partition and time bucket). A filter may answer yes for a digest never inserted,
//! never no for one that was.

use ::bloom::{BloomFilter, ASMS};
use std::collections::hash_map::RandomState;
use vstd::prelude::*;

verus! {

#[verifier::external_type_specification]
#[verifier::external_body]
#[verifier::reject_recursive_types(R)]
#[verifier::reject_recursive_types(S)]
pub struct ExBloomFilter<R, S>(::bloom::BloomFilter<R, S>);

/// The items inserted into a filter since it was made.
pub uninterp spec fn bloom_members(f: BloomFilter<RandomState, RandomState>) -> Set<Seq<u8>>;

/// Relies on bloom::BloomFilter::with_size: a filter of `num_bits` bits and `num_hashes`
/// hash functions that holds nothing yet.
#[verifier::external_body]
fn new_filter(num_bits: usize, num_hashes: u32) -> (r: BloomFilter<RandomState, RandomState>)
    requires
        num_bits > 0,
    ensures
        bloom_members(r) == Set::<Seq<u8>>::empty(),
{
    BloomFilter::with_size(num_bits, num_hashes)
}

/// Relies on bloom's ASMS::insert for BloomFilter: the item is a member afterwards.
#[verifier::external_body]
fn filter_insert(f: &mut BloomFilter<RandomState, RandomState>, item: &[u8; 32])
    ensures
        bloom_members(*final(f)) == bloom_members(*old(f)).insert(item@),
{
    f.insert(item);
}

/// Relies on bloom's ASMS::contains for BloomFilter: it never answers no for a member.
#[verifier::external_body]
fn filter_contains(f: &BloomFilter<RandomState, RandomState>, item: &[u8; 32]) -> (r: bool)
    ensures
        bloom_members(*f).contains(item@) ==> r,
{
    f.contains(item)
}

/// Bits and hash functions of the global filter: a million digests at one false positive in
/// a million.
pub const GLOBAL_BITS: usize = 28_755_176;

pub const GLOBAL_HASHES: u32 = 20;

/// Bits and hash functions of a pack filter: a hundred thousand digests at one in ten million.
pub const PACK_BITS: usize = 3_354_771;

pub const PACK_HASHES: u32 = 23;

/// Bits and hash functions of a shard filter: ten thousand digests at one in a hundred million.
pub const SHARD_BITS: usize = 383_403;

pub const SHARD_HASHES: u32 = 27;

/// One more, saturating.
pub open spec fn sat_inc(x: u64) -> u64 {
    if x < u64::MAX { (x + 1) as u64 } else { x }
}

/// A digest's place in the hierarchy: its pack and its shard.
pub type Placement = (Seq<u8>, u32, (u16, u64));

/// The filter hierarchy.
pub struct BloomFilters {
    global: BloomFilter<RandomState, RandomState>,
    pack_filters: Vec<(u32, BloomFilter<RandomState, RandomState>)>,
    shard_filters: Vec<((u16, u64), BloomFilter<RandomState, RandomState>)>,
    pack_bits: usize,
    shard_bits: usize,
    /// False positives recorded per level since the last adaptation: global, pack, shard.
    false_positives: (u64, u64, u64),
    /// Every insertion so far, with where it went.
    placements: Ghost<Set<Placement>>,
}

impl BloomFilters {
    /// The global filter holds every inserted digest; the filter of its pack and the filter
    /// of its shard exist and hold it too.
    pub closed spec fn wf(&self) -> bool {
        &&& self.pack_bits > 0
        &&& self.shard_bits > 0
        &&& forall|p: Placement| #[trigger]
            self.placements@.contains(p) ==> bloom_members(self.global).contains(p.0)
        &&& forall|p: Placement| #[trigger]
            self.placements@.contains(p) ==> exists|i: int|
                0 <= i < self.pack_filters@.len() && self.pack_filters@[i].0 == p.1
                    && bloom_members(self.pack_filters@[i].1).contains(p.0)
        &&& forall|p: Placement| #[trigger]
            self.placements@.contains(p) ==> exists|i: int|
                0 <= i < self.shard_filters@.len() && self.shard_filters@[i].0 == p.2
                    && bloom_members(self.shard_filters@[i].1).contains(p.0)
        &&& forall|i: int, j: int|
            0 <= i < j < self.pack_filters@.len() ==> #[trigger] self.pack_filters@[i].0
                != #[trigger] self.pack_filters@[j].0
        &&& forall|i: int, j: int|
            0 <= i < j < self.shard_filters@.len() ==> #[trigger] self.shard_filters@[i].0
                != #[trigger] self.shard_filters@[j].0
    }

    /// False positives recorded per level: global, pack, shard.
    pub closed spec fn fp_counts(&self) -> (u64, u64, u64) {
        self.false_positives
    }

    /// False positives recorded per level: global, pack, shard.
    pub fn false_positive_counts(&self) -> (r: (u64, u64, u64))
        ensures
            r == self.fp_counts(),
    {
        self.false_positives
    }

    /// Every insertion so far, with where it went.
    pub closed spec fn placed(&self) -> Set<Placement> {
        self.placements@
    }

    /// Whether some insertion of `d` matches the pack and shard asked about.
    pub open spec fn placed_at(&self, d: Seq<u8>, pack_id: Option<u32>, shard: Option<(u16, u64)>) -> bool {
        exists|p: Placement| #[trigger]
            self.placed().contains(p) && p.0 == d && (pack_id matches Some(q) ==> p.1 == q) && (
            shard matches Some(s) ==> p.2 == s)
    }

    /// Whether `d` was ever inserted.
    pub open spec fn holds(&self, d: Seq<u8>) -> bool {
        self.placed_at(d, None, None)
    }

    pub fn new() -> (r: BloomFilters)
        ensures
            r.wf(),
            r.placed() == Set::<Placement>::empty(),
            r.fp_counts() == (0u64, 0u64, 0u64),
    {
        BloomFilters::with_sizes(GLOBAL_BITS, PACK_BITS, SHARD_BITS)
    }

    /// An empty hierarchy whose global filter has `global_bits` bits and whose pack and shard
    /// filters will have `pack_bits` and `shard_bits` (at least 64 each).
    pub fn with_sizes(global_bits: usize, pack_bits: usize, shard_bits: usize) -> (r: BloomFilters)
        ensures
            r.wf(),
            r.placed() == Set::<Placement>::empty(),
            r.fp_counts() == (0u64, 0u64, 0u64),
    {
        BloomFilters {
            global: new_filter(if global_bits < 64 { 64 } else { global_bits }, GLOBAL_HASHES),
            pack_filters: Vec::new(),
            shard_filters: Vec::new(),
            pack_bits: if pack_bits < 64 { 64 } else { pack_bits },
            shard_bits: if shard_bits < 64 { 64 } else { shard_bits },
            false_positives: (0, 0, 0),
            placements: Ghost(Set::empty()),
        }
    }

    /// Records a false positive at each level that was asked about: the global level always,
    /// the pack and shard levels where given (counts saturate).
    pub fn record_fp(&mut self, pack_id: Option<u32>, shard: Option<(u16, u64)>)
        requires
            old(self).wf(),
        ensures
            final(self).wf(),
            final(self).placed() == old(self).placed(),
            final(self).fp_counts().0 == sat_inc(old(self).fp_counts().0),
            final(self).fp_counts().1 == if pack_id is Some { sat_inc(old(self).fp_counts().1) } else { old(self).fp_counts().1 },
            final(self).fp_counts().2 == if shard is Some { sat_inc(old(self).fp_counts().2) } else { old(self).fp_counts().2 },
    {
        let (g, p, s) = self.false_positives;
        let g2 = if g < u64::MAX { g + 1 } else { g };
        let p2 = if pack_id.is_some() && p < u64::MAX { p + 1 } else { p };
        let s2 = if shard.is_some() && s < u64::MAX { s + 1 } else { s };
        self.false_positives = (g2, p2, s2);
        assert(self.global == old(self).global && self.pack_filters@ == old(self).pack_filters@
            && self.shard_filters@ == old(self).shard_filters@ && self.placements@ == old(self).placements@);
        assert(self.wf());
    }

    /// Inserts a digest into the global filter, the filter of its pack and the filter of its
    /// shard, making the last two where they do not exist yet.
    pub fn insert(&mut self, cid: &crate::cid::Cid, pack_id: u32, type_part: u16, time_bucket: u64)
        requires
            old(self).wf(),
        ensures
            final(self).wf(),
            final(self).placed() == old(self).placed().insert((cid@, pack_id, (type_part, time_bucket))),
    {
        let ghost newp: Placement = (cid@, pack_id, (type_part, time_bucket));
        let ghost g0 = self.global;
        let ghost pf0 = self.pack_filters@;
        let ghost sf0 = self.shard_filters@;
        filter_insert(&mut self.global, &cid.0);
        let mut i: usize = 0;
        while i < self.pack_filters.len() && self.pack_filters[i].0 != pack_id
            invariant
                i <= self.pack_filters@.len(),
                self.pack_filters@ == pf0,
                forall|k: int| 0 <= k < i ==> self.pack_filters@[k].0 != pack_id,
            decreases self.pack_filters.len() - i,
        {
            i = i + 1;
        }
        if i == self.pack_filters.len() {
            let mut f = new_filter(self.pack_bits, PACK_HASHES);
            filter_insert(&mut f, &cid.0);
            self.pack_filters.push((pack_id, f));
        } else {
            let (id, mut f) = self.pack_filters.remove(i);
            filter_insert(&mut f, &cid.0);
            self.pack_filters.insert(i, (id, f));
        }
        let ghost pf1 = self.pack_filters@;
        proof {
            assert(forall|k: int| 0 <= k < pf1.len() && k != i ==> pf1[k] == pf0[k]);
            assert(pf1.len() >= pf0.len());
        }
        let shard: (u16, u64) = (type_part, time_bucket);
        let mut j: usize = 0;
        while j < self.shard_filters.len() && (self.shard_filters[j].0.0 != type_part || self.shard_filters[j].0.1 != time_bucket)
            invariant
                j <= self.shard_filters@.len(),
                self.shard_filters@ == sf0,
                forall|k: int| 0 <= k < j ==> self.shard_filters@[k].0 != shard,
                shard == (type_part, time_bucket),
            decreases self.shard_filters.len() - j,
        {
            assert(self.shard_filters@[j as int].0 != shard);
            j = j + 1;
        }
        if j == self.shard_filters.len() {
            let mut f = new_filter(self.shard_bits, SHARD_HASHES);
            filter_insert(&mut f, &cid.0);
            self.shard_filters.push((shard, f));
        } else {
            let (key, mut f) = self.shard_filters.remove(j);
            filter_insert(&mut f, &cid.0);
            self.shard_filters.insert(j, (key, f));
        }
        let ghost sf1 = self.shard_filters@;
        proof {
            assert(bloom_members(self.global) == bloom_members(g0).insert(cid@));
            assert forall|a: int, b: int| 0 <= a < b < pf1.len() implies #[trigger] pf1[a].0 != #[trigger] pf1[b].0 by {
                if b == pf0.len() {
                    assert(pf0[a].0 != pack_id);
                } else if a != i && b != i {
                    assert(pf0[a].0 != pf0[b].0);
                } else {
                    assert(pf0[a].0 != pf0[b].0);
                }
            }
            assert forall|a: int, b: int| 0 <= a < b < sf1.len() implies #[trigger] sf1[a].0 != #[trigger] sf1[b].0 by {
                if b == sf0.len() {
                    assert(sf0[a].0 != shard);
                } else {
                    assert(sf0[a].0 != sf0[b].0);
                }
            }
            assert(forall|k: int| 0 <= k < sf1.len() && k != j ==> sf1[k] == sf0[k]);
            let ghost old_placed = self.placements@;
            assert forall|p: Placement| #[trigger] old_placed.insert(newp).contains(p) implies
                bloom_members(self.global).contains(p.0) by {
                if p != newp {
                    assert(bloom_members(g0).contains(p.0));
                }
            }
            assert forall|p: Placement| #[trigger] old_placed.insert(newp).contains(p) implies
                exists|k: int| 0 <= k < pf1.len() && pf1[k].0 == p.1 && bloom_members(pf1[k].1).contains(p.0) by {
                if p == newp {
                    assert(pf1[i as int].0 == p.1);
                } else {
                    let k = choose|k: int| 0 <= k < pf0.len() && pf0[k].0 == p.1 && bloom_members(pf0[k].1).contains(p.0);
                    assert(pf1[k].0 == p.1);
                }
            }
            assert forall|p: Placement| #[trigger] old_placed.insert(newp).contains(p) implies
                exists|k: int| 0 <= k < sf1.len() && sf1[k].0 == p.2 && bloom_members(sf1[k].1).contains(p.0) by {
                if p == newp {
                    assert(sf1[j as int].0 == p.2);
                } else {
                    let k = choose|k: int| 0 <= k < sf0.len() && sf0[k].0 == p.2 && bloom_members(sf0[k].1).contains(p.0);
                    assert(sf1[k].0 == p.2);
                }
            }
        }
        self.placements = Ghost(self.placements@.insert(newp));
        assert(self.wf());
    }

    /// Asks the global filter, then the filter of `pack_id`, then the filter of `shard`
    /// (a level that is not asked about, or has no filter, is passed). Never answers no for a
    /// digest inserted with that pack and shard.
    pub fn contains(&self, cid: &crate::cid::Cid, pack_id: Option<u32>, shard: Option<(u16, u64)>) -> (r: bool)
        requires
            self.wf(),
        ensures
            self.placed_at(cid@, pack_id, shard) ==> r,
    {
        if !filter_contains(&self.global, &cid.0) {
            return false;
        }
        if let Some(p) = pack_id {
            let mut i: usize = 0;
            while i < self.pack_filters.len()
                invariant
                    i <= self.pack_filters@.len(),
                    self.wf(),
                    pack_id == Some(p),
                    forall|k: int| 0 <= k < i ==> self.pack_filters@[k].0 != p,
                decreases self.pack_filters.len() - i,
            {
                if self.pack_filters[i].0 == p {
                    if !filter_contains(&self.pack_filters[i].1, &cid.0) {
                        proof {
                            if self.placed_at(cid@, pack_id, shard) {
                                let pp = choose|pp: Placement| #[trigger]
                                    self.placed().contains(pp) && pp.0 == cid@ && (pack_id matches Some(q) ==> pp.1 == q) && (
                                    shard matches Some(s) ==> pp.2 == s);
                                let k = choose|k: int| 0 <= k < self.pack_filters@.len() && self.pack_filters@[k].0 == pp.1
                                    && bloom_members(self.pack_filters@[k].1).contains(pp.0);
                                if k < i {
                                    assert(self.pack_filters@[k].0 != self.pack_filters@[i as int].0);
                                } else if k > i {
                                    assert(self.pack_filters@[i as int].0 != self.pack_filters@[k].0);
                                }
                            }
                        }
                        return false;
                    }
                    break;
                }
                i = i + 1;
            }
        }
        if let Some(s) = shard {
            let mut j: usize = 0;
            while j < self.shard_filters.len()
                invariant
                    j <= self.shard_filters@.len(),
                    self.wf(),
                    shard == Some(s),
                    forall|k: int| 0 <= k < j ==> self.shard_filters@[k].0 != s,
                decreases self.shard_filters.len() - j,
            {
                if self.shard_filters[j].0.0 == s.0 && self.shard_filters[j].0.1 == s.1 {
                    if !filter_contains(&self.shard_filters[j].1, &cid.0) {
                        proof {
                            if self.placed_at(cid@, pack_id, shard) {
                                let pp = choose|pp: Placement| #[trigger]
                                    self.placed().contains(pp) && pp.0 == cid@ && (pack_id matches Some(q) ==> pp.1 == q) && (
                                    shard matches Some(s) ==> pp.2 == s);
                                let k = choose|k: int| 0 <= k < self.shard_filters@.len() && self.shard_filters@[k].0 == pp.2
                                    && bloom_members(self.shard_filters@[k].1).contains(pp.0);
                                if k < j {
                                    assert(self.shard_filters@[k].0 != self.shard_filters@[j as int].0);
                                } else if k > j {
                                    assert(self.shard_filters@[j as int].0 != self.shard_filters@[k].0);
                                }
                            }
                        }
                        return false;
                    }
                    break;
                }
                assert(self.shard_filters@[j as int].0 != s);
                j = j + 1;
            }
        }
        true
    }
}

} // verus!
