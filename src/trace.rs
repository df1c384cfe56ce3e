//! Operation traces and their normal form: node creations ordered by node, edge creations
//! by (origin, target), property updates by (node, key), digested in that order.

use crate::cid::{blake3_of, le_bytes, push_le, Cid, Monoid};
use crate::signature::{bytes_le, lemma_lex_refl, lemma_lex_total, lemma_lex_trans, lex_le};
use vstd::prelude::*;
use vstd::relations::sorted_by;
use vstd::utf8::encode_utf8;

verus! {

broadcast use vstd::seq_lib::group_seq_properties;

/// One operation of a trace.
#[derive(Clone, Debug)]
pub enum TraceOp {
    NodeCreate { id: u64, data: Cid },
    EdgeCreate { from: u64, to: u64, label: u32, props: Cid },
    PropertyUpdate { node: u64, key: String, value: Cid },
}

/// An operation as plain values; a property key is seen as its UTF-8 bytes.
pub enum OpView {
    Node(u64, Seq<u8>),
    Edge(u64, u64, u32, Seq<u8>),
    Prop(u64, Seq<u8>, Seq<u8>),
}

impl View for TraceOp {
    type V = OpView;

    open spec fn view(&self) -> OpView {
        match self {
            TraceOp::NodeCreate { id, data } => OpView::Node(*id, data@),
            TraceOp::EdgeCreate { from, to, label, props } => OpView::Edge(*from, *to, *label, props@),
            TraceOp::PropertyUpdate { node, key, value } => OpView::Prop(*node, encode_utf8(key@), value@),
        }
    }
}

/// The group of an operation: node creations, edge creations, property updates.
pub open spec fn group_of(o: OpView) -> nat {
    match o {
        OpView::Node(..) => 0,
        OpView::Edge(..) => 1,
        OpView::Prop(..) => 2,
    }
}

/// The order of the normal form: by group, then by node; by origin and target; by node and key.
pub open spec fn op_le(a: OpView, b: OpView) -> bool {
    match (a, b) {
        (OpView::Node(i, _), OpView::Node(j, _)) => i <= j,
        (OpView::Edge(f, t, _, _), OpView::Edge(g, u, _, _)) => f < g || (f == g && t <= u),
        (OpView::Prop(n, k, _), OpView::Prop(m, l, _)) => n < m || (n == m && lex_le(k, l)),
        _ => group_of(a) <= group_of(b),
    }
}

pub open spec fn op_order() -> spec_fn(OpView, OpView) -> bool {
    |a: OpView, b: OpView| op_le(a, b)
}

pub open spec fn views(ops: Seq<TraceOp>) -> Seq<OpView> {
    ops.map_values(|o: TraceOp| o@)
}

/// The operations of group `g`, in the order given.
pub open spec fn in_group(ops: Seq<OpView>, g: nat) -> Seq<OpView> {
    ops.filter(|o: OpView| group_of(o) == g)
}

/// The canonical bytes of one operation.
pub open spec fn op_bytes(o: OpView) -> Seq<u8> {
    match o {
        OpView::Node(id, data) => seq![0u8] + le_bytes(id as nat, 8) + data,
        OpView::Edge(from, to, label, props) => seq![1u8] + le_bytes(from as nat, 8) + le_bytes(to as nat, 8)
            + le_bytes(label as nat, 4) + props,
        OpView::Prop(node, key, value) => seq![2u8] + le_bytes(node as nat, 8) + le_bytes(key.len(), 8) + key
            + value,
    }
}

/// The canonical bytes of a sequence of operations.
pub open spec fn ops_bytes(ops: Seq<OpView>) -> Seq<u8>
    decreases ops.len(),
{
    if ops.len() == 0 {
        Seq::empty()
    } else {
        ops_bytes(ops.drop_last()) + op_bytes(ops.last())
    }
}

/// The canonical bytes of the three groups of a normal form, in order.
pub open spec fn groups_bytes(groups: Seq<Seq<OpView>>) -> Seq<u8> {
    ops_bytes(groups[0]) + ops_bytes(groups[1]) + ops_bytes(groups[2])
}

/// A sequence of operations with the time of the latest.
#[derive(Clone, Debug)]
pub struct Trace {
    pub ops: Vec<TraceOp>,
    pub timestamp: u64,
}

impl Trace {
    pub fn new(timestamp: u64) -> (r: Trace)
        ensures
            r.ops@.len() == 0,
            r.timestamp == timestamp,
    {
        Trace { ops: Vec::new(), timestamp }
    }

    pub fn add_op(&mut self, op: TraceOp)
        ensures
            final(self).ops@ == old(self).ops@.push(op),
            final(self).timestamp == old(self).timestamp,
    {
        self.ops.push(op);
    }
}

impl Monoid for Trace {
    fn empty() -> (r: Trace) {
        Trace::new(0)
    }

    fn combine(self, other: Trace) -> (r: Trace) {
        concat_traces(self, other)
    }
}

/// The operations of `a` followed by those of `b`, stamped with the later of the two times.
pub fn concat_traces(a: Trace, b: Trace) -> (r: Trace)
    ensures
        r.ops@ == a.ops@ + b.ops@,
        r.timestamp == if a.timestamp >= b.timestamp { a.timestamp } else { b.timestamp },
{
    let mut ops = a.ops;
    let mut other = b.ops;
    ops.append(&mut other);
    let timestamp = if a.timestamp >= b.timestamp { a.timestamp } else { b.timestamp };
    Trace { ops, timestamp }
}

/// Combining traces is associative.
pub proof fn lemma_concat_associative(a: Seq<TraceOp>, b: Seq<TraceOp>, c: Seq<TraceOp>)
    ensures
        (a + b) + c == a + (b + c),
{
    assert((a + b) + c =~= a + (b + c));
}

/// The empty trace is an identity for combination.
pub proof fn lemma_concat_identity(a: Seq<TraceOp>)
    ensures
        Seq::<TraceOp>::empty() + a == a,
        a + Seq::<TraceOp>::empty() == a,
{
    assert(Seq::<TraceOp>::empty() + a =~= a);
    assert(a + Seq::<TraceOp>::empty() =~= a);
}

/// A copy of an operation.
fn copy_op(op: &TraceOp) -> (r: TraceOp)
    ensures
        r@ == op@,
{
    match op {
        TraceOp::NodeCreate { id, data } => TraceOp::NodeCreate { id: *id, data: *data },
        TraceOp::EdgeCreate { from, to, label, props } => TraceOp::EdgeCreate {
            from: *from,
            to: *to,
            label: *label,
            props: *props,
        },
        TraceOp::PropertyUpdate { node, key, value } => TraceOp::PropertyUpdate {
            node: *node,
            key: key.clone(),
            value: *value,
        },
    }
}

fn op_le_exec(a: &TraceOp, b: &TraceOp) -> (r: bool)
    ensures
        r == op_le(a@, b@),
{
    match (a, b) {
        (TraceOp::NodeCreate { id: i, .. }, TraceOp::NodeCreate { id: j, .. }) => *i <= *j,
        (TraceOp::EdgeCreate { from: f, to: t, .. }, TraceOp::EdgeCreate { from: g, to: u, .. }) => *f < *g || (
        *f == *g && *t <= *u),
        (TraceOp::PropertyUpdate { node: n, key: k, .. }, TraceOp::PropertyUpdate { node: m, key: l, .. }) => *n
            < *m || (*n == *m && bytes_le(k.as_str().as_bytes(), l.as_str().as_bytes())),
        _ => group_index(a) <= group_index(b),
    }
}

fn group_index(op: &TraceOp) -> (r: u8)
    ensures
        r as nat == group_of(op@),
{
    match op {
        TraceOp::NodeCreate { .. } => 0,
        TraceOp::EdgeCreate { .. } => 1,
        TraceOp::PropertyUpdate { .. } => 2,
    }
}

proof fn lemma_op_total(a: OpView, b: OpView)
    ensures
        op_le(a, b) || op_le(b, a),
{
    if let (OpView::Prop(_, k, _), OpView::Prop(_, l, _)) = (a, b) {
        lemma_lex_total(k, l);
    }
}

proof fn lemma_op_trans(a: OpView, b: OpView, c: OpView)
    requires
        op_le(a, b),
        op_le(b, c),
    ensures
        op_le(a, c),
{
    if let (OpView::Prop(_, k, _), OpView::Prop(_, l, _), OpView::Prop(_, m, _)) = (a, b, c) {
        if lex_le(k, l) && lex_le(l, m) {
            lemma_lex_trans(k, l, m);
        }
    }
}

/// The operations of `items` ordered by the normal form's order.
fn sort_ops(items: Vec<TraceOp>) -> (r: Vec<TraceOp>)
    ensures
        sorted_by(views(r@), op_order()),
        views(r@).to_multiset() == views(items@).to_multiset(),
{
    let ghost orig = views(items@);
    let mut rest = items;
    let mut out: Vec<TraceOp> = Vec::new();
    proof {
        assert(views(out@) =~= Seq::<OpView>::empty());
        vstd::seq_lib::lemma_multiset_commutative(views(out@), views(rest@));
        assert(views(out@) + views(rest@) =~= orig);
    }
    while rest.len() > 0
        invariant
            sorted_by(views(out@), op_order()),
            views(out@).to_multiset().add(views(rest@).to_multiset()) == orig.to_multiset(),
        decreases rest.len(),
    {
        let ghost pre = rest@;
        let x = rest.pop().unwrap();
        let ghost old_rest = views(pre);
        proof {
            assert(pre =~= rest@.push(x));
            assert(old_rest =~= views(rest@).push(x@));
            views(rest@).to_multiset_ensures();
        }
        let mut j: usize = 0;
        while j < out.len() && op_le_exec(&out[j], &x)
            invariant
                j <= out@.len(),
                forall|k: int| 0 <= k < j ==> op_le(#[trigger] out@[k]@, x@),
            decreases out.len() - j,
        {
            j = j + 1;
        }
        let ghost before = views(out@);
        proof {
            if j < out.len() {
                lemma_op_total(out@[j as int]@, x@);
            }
        }
        out.insert(j, x);
        proof {
            let now = views(out@);
            assert(now =~= before.insert(j as int, x@));
            assert forall|a: int, b: int| 0 <= a < b < now.len() implies #[trigger] op_order()(now[a], now[b]) by {
                if b < j {
                    assert(op_order()(before[a], before[b]));
                } else if b == j {
                    assert(now[a] == before[a]);
                } else if a < j {
                    assert(now[b] == before[b - 1]);
                    assert(op_le(before[a], x@));
                    assert(op_le(x@, before[j as int]));
                    lemma_op_trans(before[a], x@, before[j as int]);
                    if j as int != b - 1 {
                        assert(op_order()(before[j as int], before[b - 1]));
                        lemma_op_trans(before[a], before[j as int], before[b - 1]);
                    }
                } else if a == j {
                    assert(op_le(x@, before[j as int]));
                    if j as int != b - 1 {
                        assert(op_order()(before[j as int], before[b - 1]));
                        lemma_op_trans(x@, before[j as int], before[b - 1]);
                    }
                } else {
                    assert(op_order()(before[a - 1], before[b - 1]));
                }
            }
            assert(before.insert(j as int, x@) =~= before.subrange(0, j as int).push(x@) + before.subrange(j as int, before.len() as int));
            vstd::seq_lib::lemma_multiset_commutative(before.subrange(0, j as int).push(x@), before.subrange(j as int, before.len() as int));
            vstd::seq_lib::lemma_multiset_commutative(before.subrange(0, j as int), before.subrange(j as int, before.len() as int));
            assert(before =~= before.subrange(0, j as int) + before.subrange(j as int, before.len() as int));
            before.subrange(0, j as int).to_multiset_ensures();
            assert(now.to_multiset() =~= before.to_multiset().insert(x@));
            assert(old_rest.to_multiset() =~= views(rest@).to_multiset().insert(x@));
            assert(now.to_multiset().add(views(rest@).to_multiset()) =~= before.to_multiset().add(old_rest.to_multiset()));
        }
    }
    proof {
        assert(views(rest@) =~= Seq::<OpView>::empty());
        assert(views(rest@).to_multiset() =~= vstd::multiset::Multiset::empty());
    }
    out
}

/// Appends the canonical bytes of `op`.
fn push_op_bytes(data: &mut Vec<u8>, op: &TraceOp)
    ensures
        final(data)@ == old(data)@ + op_bytes(op@),
{
    let ghost start = data@;
    match op {
        TraceOp::NodeCreate { id, data: d } => {
            data.push(0u8);
            push_le(data, *id, 8);
            push_digest(data, d);
            assert(data@ =~= start + op_bytes(op@));
        },
        TraceOp::EdgeCreate { from, to, label, props } => {
            data.push(1u8);
            push_le(data, *from, 8);
            push_le(data, *to, 8);
            push_le(data, *label as u64, 4);
            push_digest(data, props);
            assert(data@ =~= start + op_bytes(op@));
        },
        TraceOp::PropertyUpdate { node, key, value } => {
            let kb = key.as_str().as_bytes();
            data.push(2u8);
            push_le(data, *node, 8);
            push_le(data, kb.len() as u64, 8);
            let mut i: usize = 0;
            let ghost base = data@;
            while i < kb.len()
                invariant
                    i <= kb@.len(),
                    data@ == base + kb@.subrange(0, i as int),
                decreases kb.len() - i,
            {
                data.push(kb[i]);
                assert(data@ =~= base + kb@.subrange(0, i + 1));
                i = i + 1;
            }
            assert(kb@.subrange(0, kb@.len() as int) =~= kb@);
            push_digest(data, value);
            assert(data@ =~= start + op_bytes(op@));
        },
    }
}

/// Appends the 32 bytes of a digest.
pub(crate) fn push_digest(data: &mut Vec<u8>, d: &Cid)
    ensures
        final(data)@ == old(data)@ + d@,
{
    let mut i: usize = 0;
    let ghost base = data@;
    while i < 32
        invariant
            i <= 32,
            d@.len() == 32,
            data@ == base + d@.subrange(0, i as int),
        decreases 32 - i,
    {
        data.push(d.0[i]);
        assert(data@ =~= base + d@.subrange(0, i + 1));
        i = i + 1;
    }
    assert(d@.subrange(0, 32) =~= d@);
}

/// Whether `groups` is a normal form of `ops`: three groups, each ordered by the normal
/// form's order and holding exactly the operations of its kind.
pub open spec fn is_normal_form(ops: Seq<OpView>, groups: Seq<Seq<OpView>>) -> bool {
    &&& groups.len() == 3
    &&& forall|g: int|
        0 <= g < 3 ==> sorted_by(#[trigger] groups[g], op_order()) && groups[g].to_multiset() == in_group(
            ops,
            g as nat,
        ).to_multiset()
}

pub open spec fn group_views(groups: Seq<Vec<TraceOp>>) -> Seq<Seq<OpView>> {
    groups.map_values(|g: Vec<TraceOp>| views(g@))
}

/// The normal form of a trace and the digest that stands for it.
pub struct TraceNF {
    pub canonical_form: Cid,
    pub commutative_groups: Vec<Vec<TraceOp>>,
}

fn push_ops_bytes(data: &mut Vec<u8>, ops: &Vec<TraceOp>)
    ensures
        final(data)@ == old(data)@ + ops_bytes(views(ops@)),
{
    let mut i: usize = 0;
    let ghost base = data@;
    while i < ops.len()
        invariant
            i <= ops@.len(),
            data@ == base + ops_bytes(views(ops@.subrange(0, i as int))),
        decreases ops.len() - i,
    {
        push_op_bytes(data, &ops[i]);
        proof {
            let s = views(ops@.subrange(0, i + 1));
            assert(s.drop_last() =~= views(ops@.subrange(0, i as int)));
            assert(s.last() == ops@[i as int]@);
            assert(data@ =~= base + ops_bytes(s));
        }
        i = i + 1;
    }
    assert(ops@.subrange(0, ops@.len() as int) =~= ops@);
}

impl TraceNF {
    /// The normal form of `trace`: its node creations, edge creations and property
    /// updates, each group ordered by its key, and the digest of their canonical bytes.
    pub fn from_trace(trace: &Trace) -> (r: TraceNF)
        ensures
            is_normal_form(views(trace.ops@), group_views(r.commutative_groups@)),
            r.canonical_form@ == blake3_of(groups_bytes(group_views(r.commutative_groups@))),
    {
        let mut node_ops: Vec<TraceOp> = Vec::new();
        let mut edge_ops: Vec<TraceOp> = Vec::new();
        let mut prop_ops: Vec<TraceOp> = Vec::new();
        let ghost all = views(trace.ops@);
        let mut i: usize = 0;
        while i < trace.ops.len()
            invariant
                i <= trace.ops@.len(),
                all == views(trace.ops@),
                views(node_ops@) == in_group(all.subrange(0, i as int), 0),
                views(edge_ops@) == in_group(all.subrange(0, i as int), 1),
                views(prop_ops@) == in_group(all.subrange(0, i as int), 2),
            decreases trace.ops.len() - i,
        {
            let op = copy_op(&trace.ops[i]);
            let g = group_index(&op);
            proof {
                assert(all.subrange(0, i + 1) =~= all.subrange(0, i as int).push(op@));
                all.subrange(0, i as int).lemma_filter_push(op@, |o: OpView| group_of(o) == 0);
                all.subrange(0, i as int).lemma_filter_push(op@, |o: OpView| group_of(o) == 1);
                all.subrange(0, i as int).lemma_filter_push(op@, |o: OpView| group_of(o) == 2);
            }
            let ghost (nodes0, edges0, props0) = (node_ops@, edge_ops@, prop_ops@);
            if g == 0 {
                node_ops.push(op);
                assert(views(node_ops@) =~= views(nodes0).push(op@));
            } else if g == 1 {
                edge_ops.push(op);
                assert(views(edge_ops@) =~= views(edges0).push(op@));
            } else {
                prop_ops.push(op);
                assert(views(prop_ops@) =~= views(props0).push(op@));
            }
            i = i + 1;
        }
        assert(all.subrange(0, all.len() as int) =~= all);
        let node_sorted = sort_ops(node_ops);
        let edge_sorted = sort_ops(edge_ops);
        let prop_sorted = sort_ops(prop_ops);
        let mut data: Vec<u8> = Vec::new();
        push_ops_bytes(&mut data, &node_sorted);
        push_ops_bytes(&mut data, &edge_sorted);
        push_ops_bytes(&mut data, &prop_sorted);
        let ghost (a, b, c) = (node_sorted@, edge_sorted@, prop_sorted@);
        let groups = vec![node_sorted, edge_sorted, prop_sorted];
        proof {
            let gv = group_views(groups@);
            assert(gv[0] == views(a));
            assert(gv[1] == views(b));
            assert(gv[2] == views(c));
            assert(data@ =~= groups_bytes(gv));
        }
        TraceNF { canonical_form: Cid::hash(data.as_slice()), commutative_groups: groups }
    }
}

proof fn lemma_filter_multiset(s: Seq<OpView>, g: nat)
    ensures
        in_group(s, g).to_multiset() =~= s.to_multiset().filter(|o: OpView| group_of(o) == g),
    decreases s.len(),
{
    let p = |o: OpView| group_of(o) == g;
    if s.len() == 0 {
        assert(in_group(s, g) =~= Seq::<OpView>::empty());
        assert(s.to_multiset() =~= vstd::multiset::Multiset::empty());
    } else {
        let t = s.drop_last();
        let x = s.last();
        lemma_filter_multiset(t, g);
        assert(s =~= t.push(x));
        t.lemma_filter_push(x, p);
        t.to_multiset_ensures();
        in_group(t, g).to_multiset_ensures();
        assert forall|v: OpView| #[trigger] in_group(s, g).to_multiset().count(v) == s.to_multiset().filter(p).count(v) by {}
    }
}

/// A normal form of a trace is a normal form of every reordering of its operations, so
/// traces that differ only in the order of their operations can share one digest.
pub proof fn lemma_reordering_keeps_normal_form(ops1: Seq<OpView>, ops2: Seq<OpView>, groups: Seq<Seq<OpView>>)
    requires
        ops1.to_multiset() == ops2.to_multiset(),
        is_normal_form(ops1, groups),
    ensures
        is_normal_form(ops2, groups),
{
    assert forall|g: int| 0 <= g < 3 implies sorted_by(#[trigger] groups[g], op_order()) && groups[g].to_multiset()
        == in_group(ops2, g as nat).to_multiset() by {
        lemma_filter_multiset(ops1, g as nat);
        lemma_filter_multiset(ops2, g as nat);
    }
}

/// The digest of a trace depends on its normal form alone: two traces with the same
/// normal form have the same digest.
pub proof fn lemma_normal_form_determines_key(g1: Seq<Seq<OpView>>, g2: Seq<Seq<OpView>>)
    requires
        g1.len() == 3,
        g2.len() == 3,
        forall|g: int| 0 <= g < 3 ==> #[trigger] g1[g] == g2[g],
    ensures
        blake3_of(groups_bytes(g1)) == blake3_of(groups_bytes(g2)),
{
    assert(g1[0] == g2[0] && g1[1] == g2[1] && g1[2] == g2[2]);
}

} // verus!
