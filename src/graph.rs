//! The property graph over the pack store: nodes with timelines of digests, forward and
//! reverse adjacency, and text postings.

use crate::cas::{CasError, PackBand, PackCAS, PACK_SIZE_MAX};
use crate::cid::{blake3_of, Cid};
use vstd::prelude::*;
use vstd::set_lib::{lemma_int_range, lemma_len_subset, set_int_range};
use vstd::utf8::{decode_utf8, encode_utf8, valid_utf8};

verus! {

broadcast use vstd::seq_lib::group_seq_properties;

/// Resource identifier of a node.
#[derive(Clone, Copy, Debug, PartialEq, Eq, Structural, Hash, PartialOrd, Ord)]
pub struct Rid(pub u64);

impl Rid {
    pub fn new(id: u64) -> (r: Rid)
        ensures
            r.0 == id,
    {
        Rid(id)
    }

    pub fn as_u64(&self) -> (r: u64)
        ensures
            r == self.0,
    {
        self.0
    }
}

/// Edge label.
#[derive(Clone, Copy, Debug, PartialEq, Eq, Structural, Hash)]
pub struct LabelId(pub u32);

impl LabelId {
    pub fn new(id: u32) -> (r: LabelId)
        ensures
            r.0 == id,
    {
        LabelId(id)
    }
}

/// Relies on std::time::SystemTime::now: the current wall-clock time; nothing is known of it.
#[verifier::external_body]
fn micros_since_epoch() -> (r: u64) {
    match std::time::SystemTime::now().duration_since(std::time::UNIX_EPOCH) {
        Ok(d) => d.as_micros() as u64,
        Err(_) => 0,
    }
}

/// A point in time, in microseconds or on a logical clock.
#[derive(Clone, Copy, Debug, PartialEq, Eq, Structural, Hash, PartialOrd, Ord)]
pub struct Timestamp(pub u64);

impl Timestamp {
    /// The current wall-clock time in microseconds since the epoch.
    pub fn now() -> (r: Timestamp) {
        Timestamp(micros_since_epoch())
    }

    pub fn as_u64(&self) -> (r: u64)
        ensures
            r == self.0,
    {
        self.0
    }
}

/// An edge as a whole.
#[derive(Clone, Copy, Debug)]
pub struct Edge {
    pub from: Rid,
    pub to: Rid,
    pub label: LabelId,
    pub properties: Cid,
    pub created_at: Timestamp,
    pub deleted_at: Option<Timestamp>,
}

/// An entry of an adjacency list: the node at the other end, the label, the digest of the
/// edge's properties and the time of creation.
#[derive(Clone, Copy, Debug)]
pub struct AdjEntry {
    pub target: Rid,
    pub label: LabelId,
    pub properties: Cid,
    pub timestamp: Timestamp,
}

/// One occurrence of a term in a node's text.
#[derive(Clone, Debug)]
pub struct Posting {
    pub term: String,
    pub rid: Rid,
    pub positions: Vec<u32>,
    pub timestamp: Timestamp,
}

/// A node's digest over a span of time.
#[derive(Clone, Copy, Debug)]
pub struct RidMapping {
    pub rid: Rid,
    pub cid: Cid,
    pub valid_from: Timestamp,
    pub valid_to: Option<Timestamp>,
}

/// Why a graph operation failed.
#[derive(Clone, Copy, Debug, PartialEq, Eq, Structural)]
pub enum GraphError {
    NodeNotFound,
    Storage(CasError),
}

/// The words of a text, split at white space.
pub uninterp spec fn words_of(text: Seq<char>) -> Seq<Seq<char>>;

/// A text folded to lower case.
pub uninterp spec fn lower_of(text: Seq<char>) -> Seq<char>;

/// Relies on str::split_whitespace: the words of `text`, in order, a function of the text.
#[verifier::external_body]
fn split_words(text: &str) -> (r: Vec<String>)
    ensures
        r@.map_values(|w: String| w@) == words_of(text@),
{
    text.split_whitespace().map(|w| w.to_string()).collect()
}

/// Relies on str::to_lowercase: the lower-case form of `text`, a function of the text.
#[verifier::external_body]
fn lowercase(text: &str) -> (r: String)
    ensures
        r@ == lower_of(text@),
{
    text.to_lowercase()
}

/// Relies on std::str::from_utf8: the text that `bytes` encode, where they are valid UTF-8.
#[verifier::external_body]
fn utf8_text(bytes: &[u8]) -> (r: Option<String>)
    ensures
        match r {
            Some(s) => valid_utf8(bytes@) && s@ == decode_utf8(bytes@),
            None => !valid_utf8(bytes@),
        },
{
    match std::str::from_utf8(bytes) {
        Ok(s) => Some(s.to_string()),
        Err(_) => None,
    }
}

/// The digest that a timeline gives at time `t`: the entry with the largest time not after
/// `t`, the later entry where two have the same time.
pub open spec fn timeline_at(tl: Seq<(u64, Seq<u8>)>, t: u64) -> Option<(u64, Seq<u8>)>
    decreases tl.len(),
{
    if tl.len() == 0 {
        None
    } else {
        let rest = timeline_at(tl.drop_last(), t);
        let last = tl.last();
        if last.0 <= t && (rest matches Some(e) ==> e.0 <= last.0) {
            Some(last)
        } else {
            rest
        }
    }
}

/// With updates at `t1 < t2` after all earlier ones, a read at a time in `[t1, t2)` sees
/// the first update and a read at `t2` or later sees the second.
pub proof fn lemma_timeline_two_updates(
    tl: Seq<(u64, Seq<u8>)>,
    t1: u64,
    d1: Seq<u8>,
    t2: u64,
    d2: Seq<u8>,
    t: u64,
)
    requires
        t1 < t2,
        forall|i: int| 0 <= i < tl.len() ==> #[trigger] tl[i].0 <= t1,
    ensures
        t1 <= t < t2 ==> timeline_at(tl.push((t1, d1)).push((t2, d2)), t) == Some((t1, d1)),
        t2 <= t ==> timeline_at(tl.push((t1, d1)).push((t2, d2)), t) == Some((t2, d2)),
{
    let a = tl.push((t1, d1));
    let b = a.push((t2, d2));
    assert(b.drop_last() == a);
    assert(a.drop_last() == tl);
    lemma_timeline_bound(tl, t);
    if let Some(e) = timeline_at(tl, t) {
        let i = choose|i: int| 0 <= i < tl.len() && tl[i] == e;
        assert(tl[i].0 <= t1);
    }
    if t1 <= t {
        assert(timeline_at(a, t) == Some((t1, d1)));
    }
}

proof fn lemma_timeline_bound(tl: Seq<(u64, Seq<u8>)>, t: u64)
    ensures
        timeline_at(tl, t) matches Some(e) ==> exists|i: int| 0 <= i < tl.len() && tl[i] == e,
    decreases tl.len(),
{
    if tl.len() > 0 {
        lemma_timeline_bound(tl.drop_last(), t);
        if let Some(e) = timeline_at(tl.drop_last(), t) {
            let i = choose|i: int| 0 <= i < tl.drop_last().len() && tl.drop_last()[i] == e;
            assert(tl[i] == e);
        }
    }
}

pub open spec fn tl_view(tl: Seq<(u64, Cid)>) -> Seq<(u64, Seq<u8>)> {
    tl.map_values(|e: (u64, Cid)| (e.0, e.1@))
}

/// The entry that `timeline_at` picks, found by a scan.
fn timeline_lookup(tl: &Vec<(u64, Cid)>, t: u64) -> (r: Option<(u64, Cid)>)
    ensures
        match r {
            Some(e) => timeline_at(tl_view(tl@), t) == Some((e.0, e.1@)),
            None => timeline_at(tl_view(tl@), t) is None,
        },
{
    let mut best: Option<(u64, Cid)> = None;
    let mut i: usize = 0;
    while i < tl.len()
        invariant
            i <= tl@.len(),
            match best {
                Some(e) => timeline_at(tl_view(tl@.subrange(0, i as int)), t) == Some((e.0, e.1@)),
                None => timeline_at(tl_view(tl@.subrange(0, i as int)), t) is None,
            },
        decreases tl.len() - i,
    {
        let e = tl[i];
        proof {
            assert(tl_view(tl@.subrange(0, i + 1)).drop_last() =~= tl_view(tl@.subrange(0, i as int)));
            assert(tl_view(tl@.subrange(0, i + 1)).last() == (e.0, e.1@));
        }
        if e.0 <= t {
            match best {
                Some(b) => {
                    if b.0 <= e.0 {
                        best = Some(e);
                    }
                },
                None => {
                    best = Some(e);
                },
            }
        }
        i = i + 1;
    }
    assert(tl@.subrange(0, tl@.len() as int) =~= tl@);
    best
}

/// The terms that indexing a node's bytes yields: where they are UTF-8 text, its words in
/// lower case, in order; else none.
pub open spec fn index_terms(data: Seq<u8>) -> Seq<Seq<char>> {
    if valid_utf8(data) {
        words_of(decode_utf8(data)).map_values(|w: Seq<char>| lower_of(w))
    } else {
        Seq::empty()
    }
}

/// A posting as plain values: term, node, time.
pub open spec fn posting_view(p: Posting) -> (Seq<char>, u64, u64) {
    (p.term@, p.rid.0, p.timestamp.0)
}

/// An adjacency entry as plain values: the other node, label, property digest, time.
pub open spec fn adj_view(e: AdjEntry) -> (u64, u32, Seq<u8>, u64) {
    (e.target.0, e.label.0, e.properties@, e.timestamp.0)
}

pub open spec fn adj_views(es: Seq<AdjEntry>) -> Seq<(u64, u32, Seq<u8>, u64)> {
    es.map_values(|e: AdjEntry| adj_view(e))
}

/// Whether an edge passes a traversal's filters: created no later than `as_of`, and
/// labelled with one of `labels`; an absent filter passes every edge.
pub open spec fn edge_passes(e: (u64, u32, Seq<u8>, u64), labels: Option<Seq<LabelId>>, as_of: Option<u64>) -> bool {
    &&& (as_of matches Some(t) ==> e.3 <= t)
    &&& (labels matches Some(ls) ==> exists|k: int| 0 <= k < ls.len() && #[trigger] ls[k].0 == e.1)
}

fn has_label(labels: &[LabelId], l: u32) -> (r: bool)
    ensures
        r == exists|k: int| 0 <= k < labels@.len() && #[trigger] labels@[k].0 == l,
{
    let mut k: usize = 0;
    while k < labels.len()
        invariant
            k <= labels@.len(),
            forall|j: int| 0 <= j < k ==> labels@[j].0 != l,
        decreases labels.len() - k,
    {
        if labels[k].0 == l {
            return true;
        }
        k = k + 1;
    }
    false
}

fn has_rid(found: &Vec<(Rid, usize)>, rid: Rid) -> (r: bool)
    ensures
        r == exists|k: int| 0 <= k < found@.len() && #[trigger] found@[k].0 == rid,
{
    let mut k: usize = 0;
    while k < found.len()
        invariant
            k <= found@.len(),
            forall|j: int| 0 <= j < k ==> found@[j].0 != rid,
        decreases found.len() - k,
    {
        if found[k].0.0 == rid.0 {
            return true;
        }
        k = k + 1;
    }
    false
}

pub open spec fn opt_labels(labels: Option<&[LabelId]>) -> Option<Seq<LabelId>> {
    match labels {
        Some(ls) => Some(ls@),
        None => None,
    }
}

pub open spec fn opt_time(t: Option<Timestamp>) -> Option<u64> {
    match t {
        Some(x) => Some(x.0),
        None => None,
    }
}

/// Whether two texts have the same UTF-8 bytes.
pub open spec fn same_text(a: Seq<char>, b: Seq<char>) -> bool {
    encode_utf8(a) == encode_utf8(b)
}

pub(crate) fn bytes_equal(a: &[u8], b: &[u8]) -> (r: bool)
    ensures
        r == (a@ == b@),
{
    if a.len() != b.len() {
        return false;
    }
    let mut i: usize = 0;
    while i < a.len()
        invariant
            i <= a@.len(),
            a@.len() == b@.len(),
            forall|j: int| 0 <= j < i ==> a@[j] == b@[j],
        decreases a.len() - i,
    {
        if a[i] != b[i] {
            return false;
        }
        i = i + 1;
    }
    assert(a@ =~= b@);
    true
}

/// How many postings of `ps` are for node `rid` with a term spelled as `term`.
pub open spec fn term_count(ps: Seq<(Seq<char>, u64, u64)>, term: Seq<char>, rid: u64) -> nat
    decreases ps.len(),
{
    if ps.len() == 0 {
        0
    } else {
        term_count(ps.drop_last(), term, rid) + if same_text(ps.last().0, term) && ps.last().1 == rid {
            1nat
        } else {
            0nat
        }
    }
}

/// The order of search results: higher score first, then lower node id.
pub open spec fn ranks_before(a: (Rid, u64), b: (Rid, u64)) -> bool {
    a.1 > b.1 || (a.1 == b.1 && a.0.0 <= b.0.0)
}

/// Orders search results by `ranks_before`, keeping what holds of each entry.
fn rank_results(items: Vec<(Rid, u64)>, ps: Ghost<Seq<(Seq<char>, u64, u64)>>, term: Ghost<Seq<char>>) -> (r: Vec<(Rid, u64)>)
    requires
        forall|a: int| 0 <= a < items@.len() ==> #[trigger] items@[a].1 as nat == term_count(ps@, term@, items@[a].0.0) && items@[a].1 > 0,
        forall|a: int, b: int| 0 <= a < b < items@.len() ==> #[trigger] items@[a].0 != #[trigger] items@[b].0,
        forall|q: u64| term_count(ps@, term@, q) > 0 ==> exists|a: int| 0 <= a < items@.len() && #[trigger] items@[a].0.0 == q,
    ensures
        forall|i: int| 0 <= i < r@.len() ==> #[trigger] r@[i].1 as nat == term_count(ps@, term@, r@[i].0.0) && r@[i].1 > 0,
        forall|i: int, j: int| 0 <= i < j < r@.len() ==> #[trigger] r@[i].0 != #[trigger] r@[j].0,
        forall|i: int, j: int| 0 <= i < j < r@.len() ==> ranks_before(#[trigger] r@[i], #[trigger] r@[j]),
        forall|q: u64| term_count(ps@, term@, q) > 0 ==> exists|i: int| 0 <= i < r@.len() && #[trigger] r@[i].0.0 == q,
{
    let mut rest = items;
    let mut out: Vec<(Rid, u64)> = Vec::new();
    while rest.len() > 0
        invariant
            forall|a: int| 0 <= a < rest@.len() ==> #[trigger] rest@[a].1 as nat == term_count(ps@, term@, rest@[a].0.0) && rest@[a].1 > 0,
            forall|a: int| 0 <= a < out@.len() ==> #[trigger] out@[a].1 as nat == term_count(ps@, term@, out@[a].0.0) && out@[a].1 > 0,
            forall|a: int, b: int| 0 <= a < b < rest@.len() ==> #[trigger] rest@[a].0 != #[trigger] rest@[b].0,
            forall|a: int, b: int| 0 <= a < b < out@.len() ==> #[trigger] out@[a].0 != #[trigger] out@[b].0,
            forall|a: int, b: int| 0 <= a < out@.len() && 0 <= b < rest@.len() ==> #[trigger] out@[a].0 != #[trigger] rest@[b].0,
            forall|a: int, b: int| 0 <= a < b < out@.len() ==> ranks_before(#[trigger] out@[a], #[trigger] out@[b]),
            forall|q: u64| term_count(ps@, term@, q) > 0 ==> (exists|a: int| 0 <= a < out@.len() && #[trigger] out@[a].0.0 == q) || (exists|b: int| 0 <= b < rest@.len() && #[trigger] rest@[b].0.0 == q),
        decreases rest.len(),
    {
        let ghost r0 = rest@;
        let x = rest.pop().unwrap();
        proof {
            assert(r0 =~= rest@.push(x));
        }
        let mut j: usize = 0;
        while j < out.len() && (out[j].1 > x.1 || (out[j].1 == x.1 && out[j].0.0 <= x.0.0))
            invariant
                j <= out@.len(),
                forall|k: int| 0 <= k < j ==> ranks_before(#[trigger] out@[k], x),
            decreases out.len() - j,
        {
            j = j + 1;
        }
        let ghost before = out@;
        out.insert(j, x);
        proof {
            assert(out@ =~= before.insert(j as int, x));
            assert forall|a: int, b: int| 0 <= a < b < out@.len() implies ranks_before(#[trigger] out@[a], #[trigger] out@[b]) by {
                if b < j {
                    assert(ranks_before(before[a], before[b]));
                } else if b == j {
                    assert(out@[a] == before[a]);
                } else if a < j {
                    assert(out@[b] == before[b - 1]);
                    if j as int != b - 1 {
                        assert(ranks_before(before[j as int], before[b - 1]));
                    }
                } else if a == j {
                    if j as int != b - 1 {
                        assert(ranks_before(before[j as int], before[b - 1]));
                    }
                } else {
                    assert(ranks_before(before[a - 1], before[b - 1]));
                }
            }
            assert forall|a: int, b: int| 0 <= a < b < out@.len() implies #[trigger] out@[a].0 != #[trigger] out@[b].0 by {
                if a < j && b < j {
                    assert(before[a].0 != before[b].0);
                } else if a < j && b == j {
                    assert(before[a].0 != r0[r0.len() - 1].0);
                } else if a < j {
                    assert(before[a].0 != before[b - 1].0);
                } else if a == j {
                    assert(before[b - 1].0 != r0[r0.len() - 1].0);
                } else {
                    assert(before[a - 1].0 != before[b - 1].0);
                }
            }
            assert forall|a: int, b: int| 0 <= a < out@.len() && 0 <= b < rest@.len() implies #[trigger] out@[a].0 != #[trigger] rest@[b].0 by {
                assert(rest@[b] == r0[b]);
                if a < j {
                    assert(before[a].0 != r0[b].0);
                } else if a == j {
                    assert(r0[b].0 != r0[r0.len() - 1].0);
                } else {
                    assert(before[a - 1].0 != r0[b].0);
                }
            }
            assert forall|a: int| 0 <= a < out@.len() implies #[trigger] out@[a].1 as nat == term_count(ps@, term@, out@[a].0.0) && out@[a].1 > 0 by {
                if a < j {
                    assert(out@[a] == before[a]);
                } else if a == j {
                    assert(out@[a] == r0[r0.len() - 1]);
                } else {
                    assert(out@[a] == before[a - 1]);
                }
            }
            assert forall|a: int| 0 <= a < rest@.len() implies #[trigger] rest@[a].1 as nat == term_count(ps@, term@, rest@[a].0.0) && rest@[a].1 > 0 by {
                assert(rest@[a] == r0[a]);
            }
            assert forall|a: int, b: int| 0 <= a < b < rest@.len() implies #[trigger] rest@[a].0 != #[trigger] rest@[b].0 by {
                assert(r0[a].0 != r0[b].0);
            }
            assert forall|q: u64| term_count(ps@, term@, q) > 0 implies (exists|a: int| 0 <= a < out@.len() && #[trigger] out@[a].0.0 == q) || (exists|b: int| 0 <= b < rest@.len() && #[trigger] rest@[b].0.0 == q) by {
                if exists|a: int| 0 <= a < before.len() && #[trigger] before[a].0.0 == q {
                    let a = choose|a: int| 0 <= a < before.len() && #[trigger] before[a].0.0 == q;
                    if a < j {
                        assert(out@[a].0.0 == q);
                    } else {
                        assert(out@[a + 1].0.0 == q);
                    }
                } else {
                    let b = choose|b: int| 0 <= b < r0.len() && #[trigger] r0[b].0.0 == q;
                    if b == r0.len() - 1 {
                        assert(out@[j as int].0.0 == q);
                    } else {
                        assert(rest@[b].0.0 == q);
                    }
                }
            }
        }
    }
    out
}

/// The bytes stored under every digest but `d` are the same in `b` as in `a`.
pub open spec fn store_keeps(a: PackCAS, b: PackCAS, d: Seq<u8>) -> bool {
    forall|e: Seq<u8>| e != d ==> #[trigger] b.stored(e) == a.stored(e)
}

/// The bytes stored under every digest are the same in `b` as in `a`.
pub open spec fn store_same(a: PackCAS, b: PackCAS) -> bool {
    forall|e: Seq<u8>| #[trigger] b.stored(e) == a.stored(e)
}

/// The graph store.
pub struct GraphDB {
    cas: PackCAS,
    current: Vec<Cid>,
    timelines: Vec<Vec<(u64, Cid)>>,
    adjacency: Vec<Vec<AdjEntry>>,
    reverse_adjacency: Vec<Vec<AdjEntry>>,
    postings: Vec<Posting>,
    clock: u64,
}

impl GraphDB {
    pub closed spec fn wf(&self) -> bool {
        &&& self.cas.wf()
        &&& self.current@.len() == self.timelines@.len()
        &&& self.current@.len() == self.adjacency@.len()
        &&& self.current@.len() == self.reverse_adjacency@.len()
        &&& self.current@.len() < u64::MAX
        &&& forall|i: int, k: int|
            0 <= i < self.adjacency@.len() && 0 <= k < self.adjacency@[i]@.len() ==> 1 <= (
            #[trigger] self.adjacency@[i]@[k]).target.0 <= self.current@.len()
    }

    /// The number of nodes; node ids run from 1 to it.
    pub closed spec fn node_count(&self) -> nat {
        self.current@.len()
    }

    pub open spec fn has_node(&self, rid: u64) -> bool {
        1 <= rid <= self.node_count()
    }

    /// The timeline of node `rid`: (time, digest) in the order of the updates.
    pub closed spec fn timeline(&self, rid: u64) -> Seq<(u64, Seq<u8>)> {
        tl_view(self.timelines@[rid - 1]@)
    }

    /// The current digest of node `rid`.
    pub closed spec fn current_digest(&self, rid: u64) -> Seq<u8> {
        self.current@[rid - 1]@
    }

    /// The outgoing edges of node `rid`, in the order of creation.
    pub closed spec fn out_edges(&self, rid: u64) -> Seq<(u64, u32, Seq<u8>, u64)> {
        adj_views(self.adjacency@[rid - 1]@)
    }

    /// The incoming edges of node `rid` (the other end being the origin).
    pub closed spec fn in_edges(&self, rid: u64) -> Seq<(u64, u32, Seq<u8>, u64)> {
        adj_views(self.reverse_adjacency@[rid - 1]@)
    }

    pub closed spec fn postings_view(&self) -> Seq<(Seq<char>, u64, u64)> {
        self.postings@.map_values(|p: Posting| posting_view(p))
    }

    /// The store that holds the node and edge payloads.
    pub closed spec fn store(&self) -> PackCAS {
        self.cas
    }

    /// The time that the next write is stamped with.
    pub closed spec fn now(&self) -> u64 {
        self.clock
    }

    /// An empty graph over `cas`, its clock at `ts`.
    pub fn new(cas: PackCAS, ts: Timestamp) -> (r: GraphDB)
        requires
            cas.wf(),
        ensures
            r.wf(),
            r.node_count() == 0,
            r.now() == ts.0,
            r.store() == cas,
            r.postings_view().len() == 0,
    {
        GraphDB {
            cas,
            current: Vec::new(),
            timelines: Vec::new(),
            adjacency: Vec::new(),
            reverse_adjacency: Vec::new(),
            postings: Vec::new(),
            clock: ts.0,
        }
    }

    /// Sets the time that later writes are stamped with.
    pub fn set_timestamp(&mut self, ts: Timestamp)
        requires
            old(self).wf(),
        ensures
            final(self).wf(),
            final(self).now() == ts.0,
            final(self).node_count() == old(self).node_count(),
            forall|r: u64| #[trigger] final(self).timeline(r) == old(self).timeline(r),
            forall|r: u64| #[trigger] final(self).out_edges(r) == old(self).out_edges(r),
            forall|r: u64| #[trigger] final(self).in_edges(r) == old(self).in_edges(r),
            forall|r: u64| #[trigger] final(self).current_digest(r) == old(self).current_digest(r),
            final(self).postings_view() == old(self).postings_view(),
            final(self).store() == old(self).store(),
    {
        self.clock = ts.0;
    }

    /// The time that the next write is stamped with.
    pub fn timestamp(&self) -> (r: Timestamp)
        ensures
            r.0 == self.now(),
    {
        Timestamp(self.clock)
    }

    /// Stores `data` in the pack store, where there is room for a pack more.
    fn store_bytes(&mut self, data: &[u8], kind: u8) -> (r: Result<Cid, GraphError>)
        requires
            old(self).wf(),
        ensures
            final(self).wf(),
            final(self).current@ == old(self).current@,
            final(self).timelines@ == old(self).timelines@,
            final(self).adjacency@ == old(self).adjacency@,
            final(self).reverse_adjacency@ == old(self).reverse_adjacency@,
            final(self).postings@ == old(self).postings@,
            final(self).clock == old(self).clock,
            final(self).cas.verifies() == old(self).cas.verifies(),
            match r {
                Ok(d) => d@ == blake3_of(data@) && final(self).cas.stored(d@) is Some && (old(
                    self,
                ).cas.stored(d@) is None ==> final(self).cas.stored(d@) == Some(data@)) && store_keeps(
                    old(self).cas,
                    final(self).cas,
                    d@,
                ),
                Err(e) => e == GraphError::Storage(CasError::PackFull) && (data@.len() > PACK_SIZE_MAX
                    || old(self).cas.pack_count() >= 0xFFFF_FFF0) && store_same(old(self).cas, final(self).cas),
            },
    {
        if self.cas.num_packs() >= 0xFFFF_FFF0 {
            return Err(GraphError::Storage(CasError::PackFull));
        }
        let ghost before = self.cas;
        match self.cas.put(data, kind, PackBand::Small) {
            Ok(d) => {
                proof {
                    assert forall|e: Seq<u8>| e != d@ implies #[trigger] self.cas.stored(e) == before.stored(e) by {}
                }
                Ok(d)
            },
            Err(e) => {
                proof {
                    assert(self.cas.records() == before.records() && self.cas.pack_images() == before.pack_images());
                }
                Err(GraphError::Storage(e))
            },
        }
    }

    /// Creates node `node_count + 1` holding `data`: the bytes go to the store, the node's
    /// timeline starts with (now, digest), and the text of the bytes is indexed.
    pub fn create_node(&mut self, data: &[u8]) -> (r: Result<Rid, GraphError>)
        requires
            old(self).wf(),
        ensures
            final(self).wf(),
            final(self).now() == old(self).now(),
            final(self).store().verifies() == old(self).store().verifies(),
            match r {
                Ok(rid) => {
                    &&& rid.0 == old(self).node_count() + 1
                    &&& final(self).node_count() == old(self).node_count() + 1
                    &&& final(self).timeline(rid.0) == seq![(old(self).now(), blake3_of(data@))]
                    &&& final(self).current_digest(rid.0) == blake3_of(data@)
                    &&& final(self).out_edges(rid.0).len() == 0
                    &&& final(self).store().stored(blake3_of(data@)) is Some
                    &&& (old(self).store().stored(blake3_of(data@)) is None ==> final(self).store().stored(
                        blake3_of(data@),
                    ) == Some(data@))
                    &&& forall|q: u64| #![trigger final(self).timeline(q)] old(self).has_node(q) ==> final(self).timeline(q) == old(self).timeline(q)
                    &&& forall|q: u64| #![trigger final(self).out_edges(q)] old(self).has_node(q) ==> final(self).out_edges(q) == old(self).out_edges(q)
                    &&& forall|q: u64| #![trigger final(self).in_edges(q)] old(self).has_node(q) ==> final(self).in_edges(q) == old(self).in_edges(q)
                    &&& final(self).in_edges(rid.0).len() == 0
                    &&& forall|q: u64| #![trigger final(self).current_digest(q)] old(self).has_node(q) ==> final(self).current_digest(q) == old(self).current_digest(q)
                    &&& store_keeps(old(self).store(), final(self).store(), blake3_of(data@))
                    &&& final(self).postings_view() == old(self).postings_view() + index_terms(data@).map_values(
                        |t: Seq<char>| (t, rid.0, old(self).now()),
                    )
                },
                Err(e) => e == GraphError::Storage(CasError::PackFull) && (data@.len() > PACK_SIZE_MAX
                    || old(self).store().pack_count() >= 0xFFFF_FFF0 || old(self).node_count() >= 0xFFFF_FFFF_FFFF_FFF0)
                    && final(self).node_count() == old(self).node_count() && store_same(old(self).store(), final(self).store()),
            },
    {
        if self.current.len() as u64 >= 0xFFFF_FFFF_FFFF_FFF0 {
            return Err(GraphError::Storage(CasError::PackFull));
        }
        let cid = match self.store_bytes(data, 0) {
            Ok(c) => c,
            Err(e) => return Err(e),
        };
        let rid = Rid(self.current.len() as u64 + 1);
        let ghost t0 = self.timelines@;
        let ghost a0 = self.adjacency@;
        let mut tl: Vec<(u64, Cid)> = Vec::new();
        tl.push((self.clock, cid));
        self.current.push(cid);
        self.timelines.push(tl);
        self.adjacency.push(Vec::new());
        self.reverse_adjacency.push(Vec::new());
        proof {
            assert(tl_view(tl@) =~= seq![(self.clock, cid@)]);
            assert(adj_views(Seq::<AdjEntry>::empty()) =~= Seq::empty());
            assert forall|q: u64| old(self).has_node(q) implies #[trigger] self.timeline(q) == old(self).timeline(q) by {
                assert(self.timelines@[q - 1] == t0[q - 1]);
            }
            assert forall|q: u64| old(self).has_node(q) implies #[trigger] self.out_edges(q) == old(self).out_edges(q) by {
                assert(self.adjacency@[q - 1] == a0[q - 1]);
            }
        }
        self.index_text(rid, data);
        Ok(rid)
    }

    /// Gives node `rid` the bytes `data`: they go to the store, (now, digest) is appended to
    /// the node's timeline, and their text is indexed. `NodeNotFound` where there is no such
    /// node.
    pub fn update_node(&mut self, rid: Rid, data: &[u8]) -> (r: Result<(), GraphError>)
        requires
            old(self).wf(),
        ensures
            final(self).wf(),
            final(self).now() == old(self).now(),
            final(self).node_count() == old(self).node_count(),
            final(self).store().verifies() == old(self).store().verifies(),
            match r {
                Ok(()) => {
                    &&& old(self).has_node(rid.0)
                    &&& final(self).timeline(rid.0) == old(self).timeline(rid.0).push((old(self).now(), blake3_of(data@)))
                    &&& final(self).current_digest(rid.0) == blake3_of(data@)
                    &&& final(self).store().stored(blake3_of(data@)) is Some
                    &&& (old(self).store().stored(blake3_of(data@)) is None ==> final(self).store().stored(
                        blake3_of(data@),
                    ) == Some(data@))
                    &&& forall|q: u64| #![trigger final(self).timeline(q)] q != rid.0 && old(self).has_node(q) ==> final(self).timeline(q) == old(self).timeline(q)
                    &&& forall|q: u64| #![trigger final(self).out_edges(q)] final(self).out_edges(q) == old(self).out_edges(q)
                    &&& forall|q: u64| #![trigger final(self).in_edges(q)] final(self).in_edges(q) == old(self).in_edges(q)
                    &&& forall|q: u64| #![trigger final(self).current_digest(q)] q != rid.0 && old(self).has_node(q) ==> final(self).current_digest(q) == old(self).current_digest(q)
                    &&& store_keeps(old(self).store(), final(self).store(), blake3_of(data@))
                    &&& final(self).postings_view() == old(self).postings_view() + index_terms(data@).map_values(
                        |t: Seq<char>| (t, rid.0, old(self).now()),
                    )
                },
                Err(GraphError::NodeNotFound) => !old(self).has_node(rid.0) && store_same(old(self).store(), final(self).store()),
                Err(e) => e == GraphError::Storage(CasError::PackFull) && (data@.len() > PACK_SIZE_MAX
                    || old(self).store().pack_count() >= 0xFFFF_FFF0) && store_same(old(self).store(), final(self).store()),
            },
    {
        if rid.0 == 0 || rid.0 > self.current.len() as u64 {
            return Err(GraphError::NodeNotFound);
        }
        let cid = match self.store_bytes(data, 0) {
            Ok(c) => c,
            Err(e) => return Err(e),
        };
        let idx = (rid.0 - 1) as usize;
        let ghost t0 = self.timelines@;
        let mut tl = self.timelines.remove(idx);
        let ghost tv = tl@;
        tl.push((self.clock, cid));
        self.timelines.insert(idx, tl);
        self.current.set(idx, cid);
        proof {
            assert(tl_view(tl@) =~= tl_view(tv).push((self.clock, cid@)));
            assert forall|q: u64| q != rid.0 && old(self).has_node(q) implies #[trigger] self.timeline(q) == old(self).timeline(q) by {
                assert(self.timelines@[q - 1] == t0[q - 1]);
            }
        }
        self.index_text(rid, data);
        Ok(())
    }

    /// The current bytes of node `rid`; `None` where there is no such node.
    pub fn get_node(&self, rid: Rid) -> (r: Result<Option<Vec<u8>>, GraphError>)
        requires
            self.wf(),
        ensures
            !self.has_node(rid.0) ==> r == Ok::<Option<Vec<u8>>, GraphError>(None),
            self.has_node(rid.0) ==> match r {
                Ok(Some(v)) => self.store().read(self.current_digest(rid.0)) == Ok::<Seq<u8>, CasError>(v@),
                Ok(None) => false,
                Err(GraphError::Storage(e)) => self.store().read(self.current_digest(rid.0)) == Err::<Seq<u8>, CasError>(e),
                Err(GraphError::NodeNotFound) => false,
            },
    {
        if rid.0 == 0 || rid.0 > self.current.len() as u64 {
            return Ok(None);
        }
        let cid = self.current[(rid.0 - 1) as usize];
        match self.cas.get(&cid) {
            Ok(v) => Ok(Some(v)),
            Err(e) => Err(GraphError::Storage(e)),
        }
    }

    /// The bytes of node `rid` as of time `as_of`: those of the timeline entry that
    /// `timeline_at` picks; `None` where there is no such node or no entry that early.
    pub fn get_node_at(&self, rid: Rid, as_of: Timestamp) -> (r: Result<Option<Vec<u8>>, GraphError>)
        requires
            self.wf(),
        ensures
            !self.has_node(rid.0) ==> r == Ok::<Option<Vec<u8>>, GraphError>(None),
            self.has_node(rid.0) ==> match timeline_at(self.timeline(rid.0), as_of.0) {
                None => r == Ok::<Option<Vec<u8>>, GraphError>(None),
                Some(e) => match r {
                    Ok(Some(v)) => self.store().read(e.1) == Ok::<Seq<u8>, CasError>(v@),
                    Err(GraphError::Storage(x)) => self.store().read(e.1) == Err::<Seq<u8>, CasError>(x),
                    _ => false,
                },
            },
    {
        if rid.0 == 0 || rid.0 > self.current.len() as u64 {
            return Ok(None);
        }
        match timeline_lookup(&self.timelines[(rid.0 - 1) as usize], as_of.0) {
            None => Ok(None),
            Some((_, cid)) => match self.cas.get(&cid) {
                Ok(v) => Ok(Some(v)),
                Err(e) => Err(GraphError::Storage(e)),
            },
        }
    }

    /// Creates an edge: the property bytes go to the store, an entry (to, label, digest,
    /// now) is appended to the outgoing list of `from` and (from, label, digest, now) to the
    /// incoming list of `to`. `NodeNotFound` where either end is not a node.
    pub fn create_edge(&mut self, from: Rid, to: Rid, label: LabelId, properties: &[u8]) -> (r: Result<(), GraphError>)
        requires
            old(self).wf(),
        ensures
            final(self).wf(),
            final(self).now() == old(self).now(),
            final(self).node_count() == old(self).node_count(),
            forall|q: u64| #![trigger final(self).timeline(q)] final(self).timeline(q) == old(self).timeline(q),
            forall|q: u64| #![trigger final(self).current_digest(q)] final(self).current_digest(q) == old(self).current_digest(q),
            final(self).store().verifies() == old(self).store().verifies(),
            final(self).postings_view() == old(self).postings_view(),
            match r {
                Ok(()) => {
                    &&& old(self).has_node(from.0) && old(self).has_node(to.0)
                    &&& final(self).out_edges(from.0) == old(self).out_edges(from.0).push(
                        (to.0, label.0, blake3_of(properties@), old(self).now()),
                    )
                    &&& final(self).in_edges(to.0) == old(self).in_edges(to.0).push(
                        (from.0, label.0, blake3_of(properties@), old(self).now()),
                    )
                    &&& forall|q: u64| #![trigger final(self).out_edges(q)] q != from.0 && old(self).has_node(q) ==> final(self).out_edges(q) == old(self).out_edges(q)
                    &&& forall|q: u64| #![trigger final(self).in_edges(q)] q != to.0 && old(self).has_node(q) ==> final(self).in_edges(q) == old(self).in_edges(q)
                    &&& final(self).store().stored(blake3_of(properties@)) is Some
                    &&& (old(self).store().stored(blake3_of(properties@)) is None ==> final(self).store().stored(
                        blake3_of(properties@),
                    ) == Some(properties@))
                    &&& store_keeps(old(self).store(), final(self).store(), blake3_of(properties@))
                },
                Err(GraphError::NodeNotFound) => !(old(self).has_node(from.0) && old(self).has_node(to.0)) && forall|q: u64| #![trigger final(self).out_edges(q)]
                    final(self).out_edges(q) == old(self).out_edges(q) && store_same(old(self).store(), final(self).store()),
                Err(e) => e == GraphError::Storage(CasError::PackFull) && (properties@.len() > PACK_SIZE_MAX
                    || old(self).store().pack_count() >= 0xFFFF_FFF0) && store_same(old(self).store(), final(self).store())
                    && forall|q: u64| #![trigger final(self).out_edges(q)] final(self).out_edges(q) == old(self).out_edges(q),
            },
    {
        let n = self.current.len() as u64;
        if from.0 == 0 || from.0 > n || to.0 == 0 || to.0 > n {
            return Err(GraphError::NodeNotFound);
        }
        let prop_cid = match self.store_bytes(properties, 1) {
            Ok(c) => c,
            Err(e) => return Err(e),
        };
        let ts = Timestamp(self.clock);
        let fi = (from.0 - 1) as usize;
        let ti = (to.0 - 1) as usize;
        let ghost a0 = self.adjacency@;
        let ghost r0 = self.reverse_adjacency@;
        let mut out = self.adjacency.remove(fi);
        let ghost ov = out@;
        out.push(AdjEntry { target: to, label, properties: prop_cid, timestamp: ts });
        self.adjacency.insert(fi, out);
        let mut inc = self.reverse_adjacency.remove(ti);
        let ghost iv = inc@;
        inc.push(AdjEntry { target: from, label, properties: prop_cid, timestamp: ts });
        self.reverse_adjacency.insert(ti, inc);
        proof {
            assert(adj_views(out@) =~= adj_views(ov).push((to.0, label.0, prop_cid@, self.clock)));
            assert(adj_views(inc@) =~= adj_views(iv).push((from.0, label.0, prop_cid@, self.clock)));
            assert forall|q: u64| q != from.0 && old(self).has_node(q) implies #[trigger] self.out_edges(q) == old(self).out_edges(q) by {
                assert(self.adjacency@[q - 1] == a0[q - 1]);
            }
        }
        Ok(())
    }

    /// The ids of all nodes, ascending.
    pub fn list_rids(&self) -> (r: Vec<Rid>)
        requires
            self.wf(),
        ensures
            r@.len() == self.node_count(),
            forall|i: int| 0 <= i < r@.len() ==> #[trigger] r@[i].0 == i + 1,
    {
        let mut out: Vec<Rid> = Vec::new();
        let n = self.current.len();
        let mut i: usize = 0;
        while i < n
            invariant
                i <= n,
                n == self.node_count(),
                self.wf(),
                out@.len() == i,
                forall|k: int| 0 <= k < i ==> #[trigger] out@[k].0 == k + 1,
            decreases n - i,
        {
            out.push(Rid(i as u64 + 1));
            i = i + 1;
        }
        out
    }

    /// The outgoing edges of node `rid`, in the order of creation; none where there is no
    /// such node.
    pub fn get_edges_from(&self, rid: Rid) -> (r: Vec<AdjEntry>)
        requires
            self.wf(),
        ensures
            self.has_node(rid.0) ==> adj_views(r@) == self.out_edges(rid.0),
            !self.has_node(rid.0) ==> r@.len() == 0,
    {
        if rid.0 == 0 || rid.0 > self.current.len() as u64 {
            return Vec::new();
        }
        let edges = &self.adjacency[(rid.0 - 1) as usize];
        let mut out: Vec<AdjEntry> = Vec::new();
        let mut i: usize = 0;
        while i < edges.len()
            invariant
                i <= edges@.len(),
                out@ == edges@.subrange(0, i as int),
            decreases edges.len() - i,
        {
            out.push(edges[i]);
            assert(out@ =~= edges@.subrange(0, i + 1));
            i = i + 1;
        }
        assert(edges@.subrange(0, edges@.len() as int) =~= edges@);
        out
    }

    /// Whether `(r, d)` in `found` is reached from an earlier entry one level up by an edge
    /// that passes the filters.
    pub open spec fn reached(
        &self,
        found: Seq<(Rid, usize)>,
        i: int,
        labels: Option<Seq<LabelId>>,
        as_of: Option<u64>,
    ) -> bool {
        exists|j: int, k: int|
            0 <= j < i && found[j].1 + 1 == found[i].1 && self.has_node(found[j].0.0) && 0 <= k
                < self.out_edges(found[j].0.0).len() && #[trigger] self.out_edges(found[j].0.0)[k].0
                == found[i].0.0 && edge_passes(self.out_edges(found[j].0.0)[k], labels, as_of)
    }

    /// Breadth-first traversal from `start` along outgoing edges that pass the filters, to at
    /// most `max_depth` levels: each node once, with its level, in the order reached (edges
    /// in the order of creation). The start comes first, at level 0.
    /// Whether a node of id `rid` appears in `found` at level `depth` or less.
    pub open spec fn found_within(found: Seq<(Rid, usize)>, rid: u64, depth: int) -> bool {
        exists|j: int| 0 <= j < found.len() && #[trigger] found[j].0.0 == rid && found[j].1 <= depth
    }

    /// Whether the `i`-th entry of `found` has been expanded: where it is a node below
    /// `max_depth`, every outgoing edge that passes the filters leads to an entry at most one
    /// level deeper.
    pub open spec fn expanded(
        &self,
        found: Seq<(Rid, usize)>,
        i: int,
        labels: Option<Seq<LabelId>>,
        as_of: Option<u64>,
        max_depth: usize,
    ) -> bool {
        found[i].1 < max_depth && self.has_node(found[i].0.0) ==> forall|k: int|
            0 <= k < self.out_edges(found[i].0.0).len() && edge_passes(
                #[trigger] self.out_edges(found[i].0.0)[k],
                labels,
                as_of,
            ) ==> Self::found_within(found, self.out_edges(found[i].0.0)[k].0, found[i].1 + 1)
    }

    /// Breadth-first traversal from `start` along outgoing edges that pass the filters, to at
    /// most `max_depth` levels: each node once, with its level, in the order reached (edges
    /// in the order of creation). The start comes first, at level 0; every node reached is
    /// one level below an earlier entry, every passing edge out of an entry above the last
    /// level leads to an entry at most one level deeper, and levels never decrease along the
    /// result, so each level is the length of a shortest path.
    pub fn traverse(&self, start: Rid, labels: Option<&[LabelId]>, max_depth: usize, as_of: Option<Timestamp>) -> (r: Vec<(Rid, usize)>)
        requires
            self.wf(),
        ensures
            r@.len() >= 1,
            r@[0] == (start, 0usize),
            forall|i: int| 0 <= i < r@.len() ==> #[trigger] r@[i].1 <= max_depth,
            forall|i: int, j: int| 0 <= i < j < r@.len() ==> #[trigger] r@[i].0 != #[trigger] r@[j].0,
            forall|i: int| 0 < i < r@.len() ==> #[trigger] self.reached(r@, i, opt_labels(labels), opt_time(as_of)),
            forall|i: int| 0 <= i < r@.len() ==> #[trigger] self.expanded(r@, i, opt_labels(labels), opt_time(as_of), max_depth),
            forall|i: int, j: int| 0 <= i < j < r@.len() ==> #[trigger] r@[i].1 <= #[trigger] r@[j].1,
    {
        let ghost ls = opt_labels(labels);
        let ghost at = opt_time(as_of);
        let mut result: Vec<(Rid, usize)> = Vec::new();
        result.push((start, 0));
        let n: usize = self.current.len();
        let ghost allowed = set_int_range(1, n + 1).insert(start.0 as int);
        let ghost mut seen: Set<int> = set![start.0 as int];
        proof {
            lemma_int_range(1, n + 1);
            assert(seen.len() == 1) by {
                assert(seen =~= Set::<int>::empty().insert(start.0 as int));
            }
            assert forall|x: int| #[trigger] seen.contains(x) implies exists|j: int| 0 <= j < result@.len() && result@[j].0.0 as int == x by {
                assert(result@[0].0.0 as int == x);
            }
            assert(seen.subset_of(allowed));
        }
        let mut h: usize = 0;
        while h < result.len()
            invariant
                result@.len() >= 1,
                result@[0] == (start, 0usize),
                n == self.node_count(),
                h <= result@.len(),
                self.wf(),
                ls == opt_labels(labels),
                at == opt_time(as_of),
                allowed == set_int_range(1, n + 1).insert(start.0 as int),
                allowed.finite(),
                allowed.len() <= n + 1,
                seen.finite(),
                seen.len() == result@.len(),
                seen.subset_of(allowed),
                forall|j: int| 0 <= j < result@.len() ==> seen.contains(#[trigger] result@[j].0.0 as int),
                forall|x: int| #[trigger] seen.contains(x) ==> exists|j: int| 0 <= j < result@.len() && result@[j].0.0 as int == x,
                forall|i: int| 0 <= i < result@.len() ==> #[trigger] result@[i].1 <= max_depth,
                forall|i: int, j: int| 0 <= i < j < result@.len() ==> #[trigger] result@[i].0 != #[trigger] result@[j].0,
                forall|i: int| 0 < i < result@.len() ==> #[trigger] self.reached(result@, i, ls, at),
                forall|i: int, j: int| 0 <= i < j < result@.len() ==> #[trigger] result@[i].1 <= #[trigger] result@[j].1,
                h < result@.len() ==> result@[result@.len() - 1].1 <= result@[h as int].1 + 1,
                forall|i: int| 0 <= i < h ==> #[trigger] self.expanded(result@, i, ls, at, max_depth),
            decreases n + 1 - h,
        {
            proof {
                lemma_len_subset(seen, allowed);
            }
            let (cur, depth) = result[h];
            if depth < max_depth && cur.0 >= 1 && cur.0 <= n as u64 {
                let edges = &self.adjacency[(cur.0 - 1) as usize];
                proof {
                    assert(adj_views(edges@) == self.out_edges(cur.0));
                }
                let mut k: usize = 0;
                while k < edges.len()
                    invariant
                        h < result@.len(),
                        result@[h as int] == (cur, depth),
                        depth < max_depth,
                        self.has_node(cur.0),
                        adj_views(edges@) == self.out_edges(cur.0),
                        edges@ == self.adjacency@[cur.0 - 1]@,
                        ls == opt_labels(labels),
                        at == opt_time(as_of),
                        n == self.node_count(),
                        self.wf(),
                        result@.len() >= 1,
                        result@[0] == (start, 0usize),
                        k <= edges@.len(),
                        allowed == set_int_range(1, n + 1).insert(start.0 as int),
                        allowed.finite(),
                        seen.finite(),
                        seen.len() == result@.len(),
                        seen.subset_of(allowed),
                        forall|j: int| 0 <= j < result@.len() ==> seen.contains(#[trigger] result@[j].0.0 as int),
                        forall|x: int| #[trigger] seen.contains(x) ==> exists|j: int| 0 <= j < result@.len() && result@[j].0.0 as int == x,
                        forall|i: int| 0 <= i < result@.len() ==> #[trigger] result@[i].1 <= max_depth,
                        forall|i: int, j: int| 0 <= i < j < result@.len() ==> #[trigger] result@[i].0 != #[trigger] result@[j].0,
                        forall|i: int| 0 < i < result@.len() ==> #[trigger] self.reached(result@, i, ls, at),
                        forall|i: int, j: int| 0 <= i < j < result@.len() ==> #[trigger] result@[i].1 <= #[trigger] result@[j].1,
                        result@[result@.len() - 1].1 <= depth + 1,
                        forall|i: int| 0 <= i < h ==> #[trigger] self.expanded(result@, i, ls, at, max_depth),
                        forall|kk: int| 0 <= kk < k && edge_passes(#[trigger] self.out_edges(cur.0)[kk], ls, at)
                            ==> Self::found_within(result@, self.out_edges(cur.0)[kk].0, depth + 1),
                    decreases edges.len() - k,
                {
                    let e = edges[k];
                    proof {
                        assert(self.out_edges(cur.0)[k as int] == adj_view(e));
                        assert(1 <= self.adjacency@[cur.0 - 1]@[k as int].target.0 <= n);
                    }
                    let time_ok = match as_of {
                        Some(t) => e.timestamp.0 <= t.0,
                        None => true,
                    };
                    let label_ok = match labels {
                        Some(l) => has_label(l, e.label.0),
                        None => true,
                    };
                    proof {
                        if let Some(l) = labels {
                            assert(ls == Some(l@));
                            if label_ok {
                                let kk = choose|kk: int| 0 <= kk < l@.len() && #[trigger] l@[kk].0 == e.label.0;
                                assert(ls.unwrap()[kk].0 == adj_view(e).1);
                            }
                        }
                        if let Some(t) = as_of {
                            assert(at == Some(t.0));
                        }
                        assert((time_ok && label_ok) == edge_passes(self.out_edges(cur.0)[k as int], ls, at));
                    }
                    if time_ok && label_ok {
                        if !has_rid(&result, e.target) {
                            let ghost before = result@;
                            result.push((e.target, depth + 1));
                            proof {
                                let t = e.target.0 as int;
                                assert(!seen.contains(t)) by {
                                    if seen.contains(t) {
                                        let j = choose|j: int| 0 <= j < before.len() && before[j].0.0 as int == t;
                                        assert(before[j].0 == e.target);
                                    }
                                }
                                seen = seen.insert(t);
                                assert(allowed.contains(t));
                                assert forall|j: int| 0 <= j < result@.len() implies seen.contains(#[trigger] result@[j].0.0 as int) by {
                                    if j < before.len() {
                                        assert(result@[j] == before[j]);
                                    }
                                }
                                assert forall|x: int| #[trigger] seen.contains(x) implies exists|j: int| 0 <= j < result@.len() && result@[j].0.0 as int == x by {
                                    if x == t {
                                        assert(result@[before.len() as int].0.0 as int == x);
                                    } else {
                                        let j = choose|j: int| 0 <= j < before.len() && before[j].0.0 as int == x;
                                        assert(result@[j] == before[j]);
                                    }
                                }
                                assert forall|i: int| 0 < i < result@.len() implies #[trigger] self.reached(result@, i, ls, at) by {
                                    if i < before.len() {
                                        assert(self.reached(before, i, ls, at));
                                        let (j, kk) = choose|j: int, kk: int|
                                            0 <= j < i && before[j].1 + 1 == before[i].1 && self.has_node(before[j].0.0) && 0 <= kk
                                                < self.out_edges(before[j].0.0).len() && #[trigger] self.out_edges(before[j].0.0)[kk].0
                                                == before[i].0.0 && edge_passes(self.out_edges(before[j].0.0)[kk], ls, at);
                                        assert(result@[j] == before[j]);
                                        assert(result@[i] == before[i]);
                                    } else {
                                        assert(result@[h as int] == (cur, depth));
                                        assert(self.out_edges(result@[h as int].0.0)[k as int].0 == result@[i].0.0);
                                    }
                                }
                                assert forall|a: int, b: int| 0 <= a < b < result@.len() implies #[trigger] result@[a].1 <= #[trigger] result@[b].1 by {
                                    if b < before.len() {
                                        assert(before[a].1 <= before[b].1);
                                    } else if a < before.len() - 1 {
                                        assert(before[a].1 <= before[before.len() - 1].1);
                                    }
                                }
                                assert forall|x: u64, d: int| #[trigger] Self::found_within(before, x, d) implies Self::found_within(result@, x, d) by {
                                    let j = choose|j: int| 0 <= j < before.len() && #[trigger] before[j].0.0 == x && before[j].1 <= d;
                                    assert(result@[j] == before[j]);
                                }
                                assert(Self::found_within(result@, e.target.0, depth + 1)) by {
                                    assert(result@[before.len() as int].0.0 == e.target.0);
                                }
                                assert forall|i: int| 0 <= i < h implies #[trigger] self.expanded(result@, i, ls, at, max_depth) by {
                                    assert(self.expanded(before, i, ls, at, max_depth));
                                    assert(result@[i] == before[i]);
                                }
                            }
                        } else {
                            proof {
                                let j = choose|j: int| 0 <= j < result@.len() && #[trigger] result@[j].0 == e.target;
                                assert(result@[j].1 <= result@[result@.len() - 1].1) by {
                                    if j < result@.len() - 1 {
                                        assert(result@[j].1 <= result@[result@.len() - 1].1);
                                    }
                                }
                                assert(Self::found_within(result@, e.target.0, depth + 1));
                            }
                        }
                    }
                    k = k + 1;
                }
                proof {
                    assert(self.expanded(result@, h as int, ls, at, max_depth));
                }
            } else {
                proof {
                    assert(self.expanded(result@, h as int, ls, at, max_depth));
                }
            }
            proof {
                if h + 1 < result@.len() {
                    assert(result@[h as int].1 <= result@[h + 1].1);
                }
                lemma_len_subset(seen, allowed);
            }
            h = h + 1;
        }
        result
    }

    /// The nodes whose text holds `query` (folded to lower case), each with the number of
    /// times it does, the highest count first and ties by ascending node id.
    pub fn search(&self, query: &str) -> (r: Vec<(Rid, u64)>)
        ensures
            forall|i: int| 0 <= i < r@.len() ==> #[trigger] r@[i].1 as nat == term_count(self.postings_view(), lower_of(query@), r@[i].0.0) && r@[i].1 > 0,
            forall|i: int, j: int| 0 <= i < j < r@.len() ==> #[trigger] r@[i].0 != #[trigger] r@[j].0,
            forall|i: int, j: int| 0 <= i < j < r@.len() ==> ranks_before(#[trigger] r@[i], #[trigger] r@[j]),
            forall|q: u64| term_count(self.postings_view(), lower_of(query@), q) > 0 ==> exists|i: int| 0 <= i < r@.len() && #[trigger] r@[i].0.0 == q,
    {
        let low = lowercase(query);
        let qb = low.as_str().as_bytes();
        let ghost term = lower_of(query@);
        let ghost ps = self.postings_view();
        let mut counts: Vec<(Rid, u64)> = Vec::new();
        let mut i: usize = 0;
        while i < self.postings.len()
            invariant
                i <= self.postings@.len(),
                ps == self.postings_view(),
                qb@ == encode_utf8(term),
                forall|a: int| 0 <= a < counts@.len() ==> #[trigger] counts@[a].1 as nat == term_count(ps.subrange(0, i as int), term, counts@[a].0.0) && counts@[a].1 > 0 && counts@[a].1 <= i,
                forall|a: int, b: int| 0 <= a < b < counts@.len() ==> #[trigger] counts@[a].0 != #[trigger] counts@[b].0,
                forall|q: u64| term_count(ps.subrange(0, i as int), term, q) > 0 ==> exists|a: int| 0 <= a < counts@.len() && #[trigger] counts@[a].0.0 == q,
            decreases self.postings.len() - i,
        {
            let p = &self.postings[i];
            let ghost pre = ps.subrange(0, i as int);
            let ghost post = ps.subrange(0, i + 1);
            proof {
                assert(post.drop_last() =~= pre);
                assert(post.last() == posting_view(self.postings@[i as int]));
            }
            if bytes_equal(p.term.as_str().as_bytes(), qb) {
                let mut a: usize = 0;
                while a < counts.len() && counts[a].0.0 != p.rid.0
                    invariant
                        a <= counts@.len(),
                        forall|b: int| 0 <= b < a ==> counts@[b].0.0 != p.rid.0,
                    decreases counts.len() - a,
                {
                    a = a + 1;
                }
                let ghost c0 = counts@;
                if a < counts.len() {
                    let (rid, c) = counts[a];
                    counts.set(a, (rid, c + 1));
                    proof {
                        assert forall|b: int| 0 <= b < counts@.len() implies #[trigger] counts@[b].1 as nat == term_count(post, term, counts@[b].0.0) && counts@[b].1 > 0 && counts@[b].1 <= i + 1 by {
                            if b != a {
                                assert(c0[b].0.0 != p.rid.0) by {
                                    if c0[b].0.0 == p.rid.0 {
                                        if b < a {} else { assert(c0[a as int].0 != c0[b].0); }
                                    }
                                }
                            }
                        }
                        assert forall|q: u64| term_count(post, term, q) > 0 implies exists|b: int| 0 <= b < counts@.len() && #[trigger] counts@[b].0.0 == q by {
                            if q == p.rid.0 {
                                assert(counts@[a as int].0.0 == q);
                            } else {
                                assert(term_count(post, term, q) == term_count(pre, term, q));
                                let b = choose|b: int| 0 <= b < c0.len() && #[trigger] c0[b].0.0 == q;
                                assert(counts@[b].0.0 == q);
                            }
                        }
                        assert forall|x: int, y: int| 0 <= x < y < counts@.len() implies #[trigger] counts@[x].0 != #[trigger] counts@[y].0 by {
                            assert(c0[x].0 != c0[y].0);
                        }
                    }
                } else {
                    counts.push((p.rid, 1));
                    proof {
                        assert(term_count(pre, term, p.rid.0) == 0) by {
                            if term_count(pre, term, p.rid.0) > 0 {
                                let b = choose|b: int| 0 <= b < c0.len() && #[trigger] c0[b].0.0 == p.rid.0;
                            }
                        }
                        assert forall|b: int| 0 <= b < counts@.len() implies #[trigger] counts@[b].1 as nat == term_count(post, term, counts@[b].0.0) && counts@[b].1 > 0 && counts@[b].1 <= i + 1 by {
                            if b < c0.len() {
                                assert(counts@[b] == c0[b]);
                                assert(c0[b].0.0 != p.rid.0);
                            }
                        }
                        assert forall|q: u64| term_count(post, term, q) > 0 implies exists|b: int| 0 <= b < counts@.len() && #[trigger] counts@[b].0.0 == q by {
                            if q == p.rid.0 {
                                assert(counts@[c0.len() as int].0.0 == q);
                            } else {
                                assert(term_count(post, term, q) == term_count(pre, term, q));
                                let b = choose|b: int| 0 <= b < c0.len() && #[trigger] c0[b].0.0 == q;
                                assert(counts@[b].0.0 == q);
                            }
                        }
                        assert forall|x: int, y: int| 0 <= x < y < counts@.len() implies #[trigger] counts@[x].0 != #[trigger] counts@[y].0 by {
                            if y < c0.len() {
                                assert(c0[x].0 != c0[y].0);
                            } else {
                                assert(c0[x].0.0 != p.rid.0);
                            }
                        }
                    }
                }
            } else {
                proof {
                    assert forall|q: u64| #![auto] term_count(post, term, q) == term_count(pre, term, q) by {}
                }
            }
            i = i + 1;
        }
        assert(ps.subrange(0, ps.len() as int) =~= ps);
        rank_results(counts, Ghost(ps), Ghost(term))
    }

    /// Appends the postings of `data` for node `rid`: where the bytes are UTF-8 text, one
    /// posting per word, its term folded to lower case and its position the word's ordinal.
    fn index_text(&mut self, rid: Rid, data: &[u8])
        ensures
            final(self).postings_view() == old(self).postings_view() + index_terms(data@).map_values(
                |t: Seq<char>| (t, rid.0, old(self).clock),
            ),
            final(self).cas == old(self).cas,
            final(self).current@ == old(self).current@,
            final(self).timelines@ == old(self).timelines@,
            final(self).adjacency@ == old(self).adjacency@,
            final(self).reverse_adjacency@ == old(self).reverse_adjacency@,
            final(self).clock == old(self).clock,
    {
        let ghost f = |t: Seq<char>| (t, rid.0, old(self).clock);
        match utf8_text(data) {
            None => {
                assert(index_terms(data@).map_values(f) =~= Seq::empty());
                assert(self.postings_view() =~= self.postings_view() + Seq::empty());
            },
            Some(text) => {
                let words = split_words(text.as_str());
                let ghost base = self.postings_view();
                let ghost ws = words@.map_values(|w: String| w@);
                let mut i: usize = 0;
                while i < words.len()
                    invariant
                        i <= words@.len(),
                        ws == words@.map_values(|w: String| w@),
                        self.clock == old(self).clock,
                        self.cas == old(self).cas,
                        self.current@ == old(self).current@,
                        self.timelines@ == old(self).timelines@,
                        self.adjacency@ == old(self).adjacency@,
                        self.reverse_adjacency@ == old(self).reverse_adjacency@,
                        self.postings_view() == base + ws.subrange(0, i as int).map_values(|w: Seq<char>| lower_of(w)).map_values(
                            |t: Seq<char>| (t, rid.0, self.clock),
                        ),
                    decreases words.len() - i,
                {
                    let term = lowercase(words[i].as_str());
                    let mut positions: Vec<u32> = Vec::new();
                    positions.push(if i < 0xFFFF_FFFF { i as u32 } else { 0xFFFF_FFFF });
                    let ghost pv = self.postings_view();
                    self.postings.push(Posting { term, rid, positions, timestamp: Timestamp(self.clock) });
                    proof {
                        assert(self.postings_view() =~= pv.push((lower_of(ws[i as int]), rid.0, self.clock)));
                        assert(ws.subrange(0, i + 1).map_values(|w: Seq<char>| lower_of(w)).map_values(
                            |t: Seq<char>| (t, rid.0, self.clock),
                        ) =~= ws.subrange(0, i as int).map_values(|w: Seq<char>| lower_of(w)).map_values(
                            |t: Seq<char>| (t, rid.0, self.clock),
                        ).push((lower_of(ws[i as int]), rid.0, self.clock)));
                    }
                    i = i + 1;
                }
                proof {
                    assert(ws.subrange(0, ws.len() as int) =~= ws);
                    assert(ws == words_of(text@));
                    assert(ws.map_values(|w: Seq<char>| lower_of(w)).map_values(
                        |t: Seq<char>| (t, rid.0, self.clock),
                    ) =~= index_terms(data@).map_values(f));
                }
            },
        }
    }
}

} // verus!
