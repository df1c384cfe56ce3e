//! Path and class signatures: the digests that name a query's path and its set of classes.

use crate::cid::{blake3_of, Cid, QKey};
use vstd::multiset::Multiset;
use vstd::prelude::*;
use vstd::relations::{sorted_by, total_ordering};
use vstd::string::StringSliceAdditionalSpecFns;

verus! {

broadcast use vstd::seq_lib::group_seq_properties;

/// Each segment followed by a zero byte, all concatenated.
pub open spec fn terminated(segs: Seq<Seq<u8>>) -> Seq<u8>
    decreases segs.len(),
{
    if segs.len() == 0 {
        Seq::empty()
    } else {
        segs[0] + seq![0u8] + terminated(segs.drop_first())
    }
}

/// The UTF-8 bytes of each string.
pub open spec fn str_bytes(parts: Seq<&str>) -> Seq<Seq<u8>> {
    parts.map_values(|s: &str| s.spec_bytes())
}

/// Lexicographic order on byte strings (a proper prefix comes first).
pub open spec fn lex_le(a: Seq<u8>, b: Seq<u8>) -> bool
    decreases a.len(),
{
    if a.len() == 0 {
        true
    } else if b.len() == 0 {
        false
    } else if a[0] != b[0] {
        a[0] < b[0]
    } else {
        lex_le(a.drop_first(), b.drop_first())
    }
}

pub open spec fn lex_order() -> spec_fn(Seq<u8>, Seq<u8>) -> bool {
    |a: Seq<u8>, b: Seq<u8>| lex_le(a, b)
}

/// The byte strings in lexicographic order.
pub open spec fn sorted_lex(s: Seq<Seq<u8>>) -> Seq<Seq<u8>> {
    s.sort_by(lex_order())
}

/// The signature of a path: the digest of its segments, each terminated by a zero byte.
pub open spec fn path_sig_of(path: Seq<&str>) -> Seq<u8> {
    blake3_of(terminated(str_bytes(path)))
}

/// The signature of a set of classes: the digest of the classes in lexicographic order,
/// each terminated by a zero byte.
pub open spec fn class_sig_of(classes: Seq<&str>) -> Seq<u8> {
    blake3_of(terminated(sorted_lex(str_bytes(classes))))
}

pub(crate) proof fn lemma_terminated_push(segs: Seq<Seq<u8>>, x: Seq<u8>)
    ensures
        terminated(segs.push(x)) == terminated(segs) + x + seq![0u8],
    decreases segs.len(),
{
    if segs.len() == 0 {
        assert(segs.push(x).drop_first() =~= Seq::<Seq<u8>>::empty());
        assert(terminated(segs.push(x)) =~= terminated(segs) + x + seq![0u8]);
    } else {
        assert(segs.push(x).drop_first() =~= segs.drop_first().push(x));
        lemma_terminated_push(segs.drop_first(), x);
        assert(terminated(segs.push(x)) =~= terminated(segs) + x + seq![0u8]);
    }
}

pub(crate) proof fn lemma_lex_refl(a: Seq<u8>)
    ensures
        lex_le(a, a),
    decreases a.len(),
{
    if a.len() > 0 {
        lemma_lex_refl(a.drop_first());
    }
}

pub(crate) proof fn lemma_lex_antisym(a: Seq<u8>, b: Seq<u8>)
    requires
        lex_le(a, b),
        lex_le(b, a),
    ensures
        a == b,
    decreases a.len(),
{
    if a.len() > 0 {
        lemma_lex_antisym(a.drop_first(), b.drop_first());
        assert(a[0] == b[0]);
        assert(b.len() > 0);
        assert(a.drop_first().len() == b.drop_first().len());
        assert(a.len() == b.len());
        assert forall|i: int| 0 <= i < a.len() implies a[i] == b[i] by {
            if i > 0 {
                assert(a[i] == a.drop_first()[i - 1]);
                assert(b[i] == b.drop_first()[i - 1]);
            }
        }
        assert(a =~= b);
    }
}

pub(crate) proof fn lemma_lex_trans(a: Seq<u8>, b: Seq<u8>, c: Seq<u8>)
    requires
        lex_le(a, b),
        lex_le(b, c),
    ensures
        lex_le(a, c),
    decreases a.len(),
{
    if a.len() > 0 && b.len() > 0 && c.len() > 0 && a[0] == b[0] && b[0] == c[0] {
        lemma_lex_trans(a.drop_first(), b.drop_first(), c.drop_first());
    }
}

pub(crate) proof fn lemma_lex_total(a: Seq<u8>, b: Seq<u8>)
    ensures
        lex_le(a, b) || lex_le(b, a),
    decreases a.len(),
{
    if a.len() > 0 && b.len() > 0 && a[0] == b[0] {
        lemma_lex_total(a.drop_first(), b.drop_first());
    }
}

proof fn lemma_lex_total_ordering()
    ensures
        total_ordering(lex_order()),
{
    assert forall|a: Seq<u8>| #[trigger] lex_order()(a, a) by {
        lemma_lex_refl(a);
    }
    assert forall|a: Seq<u8>, b: Seq<u8>|
        #[trigger] lex_order()(a, b) && #[trigger] lex_order()(b, a) implies a == b by {
        lemma_lex_antisym(a, b);
    }
    assert forall|a: Seq<u8>, b: Seq<u8>, c: Seq<u8>|
        #[trigger] lex_order()(a, b) && #[trigger] lex_order()(b, c) implies lex_order()(a, c) by {
        lemma_lex_trans(a, b, c);
    }
    assert forall|a: Seq<u8>, b: Seq<u8>|
        #[trigger] lex_order()(a, b) || #[trigger] lex_order()(b, a) by {
        lemma_lex_total(a, b);
    }
}

/// Two sequences sorted by one total order that hold the same elements are equal.
proof fn lemma_sorted_unique(a: Seq<Seq<u8>>, b: Seq<Seq<u8>>)
    requires
        sorted_by(a, lex_order()),
        sorted_by(b, lex_order()),
        a.to_multiset() == b.to_multiset(),
    ensures
        a == b,
    decreases a.len(),
{
    lemma_lex_total_ordering();
    a.to_multiset_ensures();
    b.to_multiset_ensures();
    if a.len() > 0 {
        assert(a.contains(a[0])) by {
            assert(a[0] == a[0]);
        }
        assert(a.to_multiset().count(a[0]) > 0);
        assert(b.len() > 0);
        assert(b.contains(b[0])) by {
            assert(b[0] == b[0]);
        }
        assert(b.to_multiset().count(b[0]) > 0);
        assert(b.contains(a[0]));
        assert(a.contains(b[0]));
        let j = choose|j: int| 0 <= j < b.len() && b[j] == a[0];
        let k = choose|k: int| 0 <= k < a.len() && a[k] == b[0];
        if j > 0 {
            assert(lex_order()(b[0], b[j]));
        }
        if k > 0 {
            assert(lex_order()(a[0], a[k]));
        }
        lemma_lex_refl(a[0]);
        assert(lex_le(b[0], a[0]));
        assert(lex_le(a[0], b[0]));
        lemma_lex_antisym(a[0], b[0]);
        assert(a.remove(0) =~= a.drop_first());
        assert(b.remove(0) =~= b.drop_first());
        assert(a.drop_first().to_multiset() == b.drop_first().to_multiset());
        assert(sorted_by(a.drop_first(), lex_order())) by {
            assert forall|i: int, l: int| 0 <= i < l < a.drop_first().len() implies
                #[trigger] lex_order()(a.drop_first()[i], a.drop_first()[l]) by {
                assert(lex_order()(a[i + 1], a[l + 1]));
            }
        }
        assert(sorted_by(b.drop_first(), lex_order())) by {
            assert forall|i: int, l: int| 0 <= i < l < b.drop_first().len() implies
                #[trigger] lex_order()(b.drop_first()[i], b.drop_first()[l]) by {
                assert(lex_order()(b[i + 1], b[l + 1]));
            }
        }
        lemma_sorted_unique(a.drop_first(), b.drop_first());
        assert(a =~= seq![a[0]] + a.drop_first());
        assert(b =~= seq![b[0]] + b.drop_first());
    } else {
        assert(a =~= b);
    }
}

/// Whether `a` comes no later than `b` in lexicographic order.
pub(crate) fn bytes_le(a: &[u8], b: &[u8]) -> (r: bool)
    ensures
        r == lex_le(a@, b@),
{
    let mut i: usize = 0;
    assert(a@.subrange(0, a@.len() as int) =~= a@);
    assert(b@.subrange(0, b@.len() as int) =~= b@);
    while i < a.len() && i < b.len() && a[i] == b[i]
        invariant
            i <= a.len(),
            i <= b.len(),
            lex_le(a@, b@) == lex_le(a@.subrange(i as int, a@.len() as int), b@.subrange(i as int, b@.len() as int)),
        decreases a.len() - i,
    {
        assert(a@.subrange(i as int, a@.len() as int).drop_first() =~= a@.subrange(i + 1, a@.len() as int));
        assert(b@.subrange(i as int, b@.len() as int).drop_first() =~= b@.subrange(i + 1, b@.len() as int));
        i = i + 1;
    }
    if i == a.len() {
        true
    } else if i == b.len() {
        false
    } else {
        a[i] < b[i]
    }
}

/// Appends the bytes of `seg` and a zero byte.
pub(crate) fn push_terminated(data: &mut Vec<u8>, seg: &[u8])
    ensures
        final(data)@ == old(data)@ + seg@ + seq![0u8],
{
    let mut i: usize = 0;
    while i < seg.len()
        invariant
            i <= seg@.len(),
            data@ == old(data)@ + seg@.subrange(0, i as int),
        decreases seg.len() - i,
    {
        data.push(seg[i]);
        assert(seg@.subrange(0, i + 1) =~= seg@.subrange(0, i as int).push(seg@[i as int]));
        i = i + 1;
    }
    assert(seg@.subrange(0, seg@.len() as int) =~= seg@);
    data.push(0u8);
}

/// The signature of a path. It depends on the order of the segments.
pub fn compute_path_sig(path: &[&str]) -> (r: Cid)
    ensures
        r@ == path_sig_of(path@),
{
    let mut data: Vec<u8> = Vec::new();
    let mut i: usize = 0;
    while i < path.len()
        invariant
            i <= path@.len(),
            data@ == terminated(str_bytes(path@.subrange(0, i as int))),
        decreases path.len() - i,
    {
        let seg: &str = path[i];
        let bytes = seg.as_bytes();
        proof {
            assert(str_bytes(path@.subrange(0, i + 1)) =~= str_bytes(path@.subrange(0, i as int)).push(bytes@));
            lemma_terminated_push(str_bytes(path@.subrange(0, i as int)), bytes@);
        }
        push_terminated(&mut data, bytes);
        i = i + 1;
    }
    assert(path@.subrange(0, path@.len() as int) =~= path@);
    Cid::hash(data.as_slice())
}

pub open spec fn vec_views(v: Seq<Vec<u8>>) -> Seq<Seq<u8>> {
    v.map_values(|x: Vec<u8>| x@)
}

/// The byte strings of `items` in lexicographic order.
fn sort_lex(items: Vec<Vec<u8>>) -> (r: Vec<Vec<u8>>)
    ensures
        sorted_by(vec_views(r@), lex_order()),
        vec_views(r@).to_multiset() == vec_views(items@).to_multiset(),
{
    let ghost orig = vec_views(items@);
    let mut rest = items;
    let mut out: Vec<Vec<u8>> = Vec::new();
    proof {
        lemma_lex_total_ordering();
        assert(vec_views(out@) =~= Seq::<Seq<u8>>::empty());
        vstd::seq_lib::lemma_multiset_commutative(vec_views(out@), vec_views(rest@));
        assert(vec_views(out@) + vec_views(rest@) =~= orig);
    }
    while rest.len() > 0
        invariant
            total_ordering(lex_order()),
            sorted_by(vec_views(out@), lex_order()),
            vec_views(out@).to_multiset().add(vec_views(rest@).to_multiset()) == orig.to_multiset(),
        decreases rest.len(),
    {
        let ghost pre = rest@;
        let x = rest.pop().unwrap();
        let ghost old_rest = vec_views(pre);
        proof {
            assert(pre =~= rest@.push(x));
            assert(old_rest =~= vec_views(rest@).push(x@));
            vec_views(rest@).to_multiset_ensures();
        }
        let mut j: usize = 0;
        while j < out.len() && bytes_le(out[j].as_slice(), x.as_slice())
            invariant
                j <= out@.len(),
                forall|k: int| 0 <= k < j ==> lex_le(#[trigger] out@[k]@, x@),
            decreases out.len() - j,
        {
            j = j + 1;
        }
        let ghost before = vec_views(out@);
        proof {
            if j < out.len() {
                lemma_lex_total(out@[j as int]@, x@);
            }
        }
        out.insert(j, x);
        proof {
            let now = vec_views(out@);
            assert(now =~= before.insert(j as int, x@));
            assert forall|a: int, b: int| 0 <= a < b < now.len() implies #[trigger] lex_order()(now[a], now[b]) by {
                if b < j {
                    assert(lex_order()(before[a], before[b]));
                } else if b == j {
                    assert(now[a] == before[a]);
                } else if a < j {
                    assert(now[b] == before[b - 1]);
                    assert(lex_order()(before[j as int], before[b - 1]) || j == b - 1);
                    if j as int != b - 1 {
                        assert(lex_order()(before[a], before[j as int]));
                    }
                    assert(lex_le(before[a], x@));
                    assert(lex_le(x@, before[j as int]));
                    lemma_lex_trans(before[a], x@, before[j as int]);
                    if j as int != b - 1 {
                        lemma_lex_trans(before[a], before[j as int], before[b - 1]);
                    }
                } else if a == j {
                    assert(lex_le(x@, before[j as int]));
                    if j as int != b - 1 {
                        assert(lex_order()(before[j as int], before[b - 1]));
                        lemma_lex_trans(x@, before[j as int], before[b - 1]);
                    }
                } else {
                    assert(lex_order()(before[a - 1], before[b - 1]));
                }
            }
            assert(before.insert(j as int, x@) =~= before.subrange(0, j as int).push(x@) + before.subrange(j as int, before.len() as int));
            vstd::seq_lib::lemma_multiset_commutative(before.subrange(0, j as int).push(x@), before.subrange(j as int, before.len() as int));
            vstd::seq_lib::lemma_multiset_commutative(before.subrange(0, j as int), before.subrange(j as int, before.len() as int));
            assert(before =~= before.subrange(0, j as int) + before.subrange(j as int, before.len() as int));
            before.subrange(0, j as int).to_multiset_ensures();
            let l = before.subrange(0, j as int);
            let rr = before.subrange(j as int, before.len() as int);
            assert(now.to_multiset() =~= before.to_multiset().insert(x@));
            assert(old_rest.to_multiset() =~= vec_views(rest@).to_multiset().insert(x@));
            assert(now.to_multiset().add(vec_views(rest@).to_multiset()) =~= before.to_multiset().add(old_rest.to_multiset()));
        }
    }
    proof {
        assert(vec_views(rest@) =~= Seq::<Seq<u8>>::empty());
        assert(vec_views(rest@).to_multiset() =~= Multiset::empty());
    }
    out
}

/// The signature of a set of classes. It does not depend on the order in which they are given.
pub fn compute_class_sig(classes: &[&str]) -> (r: Cid)
    ensures
        r@ == class_sig_of(classes@),
{
    let mut items: Vec<Vec<u8>> = Vec::new();
    let mut i: usize = 0;
    while i < classes.len()
        invariant
            i <= classes@.len(),
            vec_views(items@) == str_bytes(classes@.subrange(0, i as int)),
        decreases classes.len() - i,
    {
        let c: &str = classes[i];
        let bytes = vstd::slice::slice_to_vec(c.as_bytes());
        let ghost prev = items@;
        items.push(bytes);
        proof {
            assert(classes@.subrange(0, i + 1) =~= classes@.subrange(0, i as int).push(classes@[i as int]));
            assert(vec_views(items@) =~= vec_views(prev).push(bytes@));
            assert(str_bytes(classes@.subrange(0, i + 1)) =~= str_bytes(classes@.subrange(0, i as int)).push(c.spec_bytes()));
        }
        i = i + 1;
    }
    assert(classes@.subrange(0, classes@.len() as int) =~= classes@);
    let sorted = sort_lex(items);
    let mut data: Vec<u8> = Vec::new();
    let mut k: usize = 0;
    while k < sorted.len()
        invariant
            k <= sorted@.len(),
            data@ == terminated(vec_views(sorted@).subrange(0, k as int)),
        decreases sorted.len() - k,
    {
        proof {
            assert(vec_views(sorted@).subrange(0, k + 1) =~= vec_views(sorted@).subrange(0, k as int).push(sorted@[k as int]@));
            lemma_terminated_push(vec_views(sorted@).subrange(0, k as int), sorted@[k as int]@);
        }
        push_terminated(&mut data, sorted[k].as_slice());
        k = k + 1;
    }
    proof {
        assert(vec_views(sorted@).subrange(0, sorted@.len() as int) =~= vec_views(sorted@));
        lemma_lex_total_ordering();
        str_bytes(classes@).lemma_sort_by_ensures(lex_order());
        lemma_sorted_unique(vec_views(sorted@), sorted_lex(str_bytes(classes@)));
    }
    Cid::hash(data.as_slice())
}


/// A query's key with hints for executing it.
#[derive(Clone, Copy, Debug)]
pub struct QueryPlan {
    pub qkey: QKey,
    /// Path length × number of classes × 10, saturating.
    pub estimated_cost: u64,
    pub use_path_sig: bool,
    pub use_class_sig: bool,
    pub trace_optimized: bool,
    pub manifest_cached: bool,
}

impl QueryPlan {
    /// The plan of a query over `path` and `classes` as of `as_of`: its key has their
    /// signatures, the whole capability region and type partition 0.
    pub fn optimize(path: &[&str], classes: &[&str], as_of: u64) -> (r: QueryPlan)
        ensures
            r.qkey.path_sig@ == path_sig_of(path@),
            r.qkey.class_sig@ == class_sig_of(classes@),
            r.qkey.as_of == as_of,
            r.qkey.cap_region == (0u64, u64::MAX),
            r.qkey.type_part == 0,
            r.estimated_cost as nat == if path@.len() * classes@.len() * 10 > u64::MAX {
                u64::MAX as nat
            } else {
                path@.len() * classes@.len() * 10
            },
            r.use_path_sig == (path@.len() > 1),
            r.use_class_sig == (classes@.len() > 1),
            r.trace_optimized,
            r.manifest_cached,
    {
        let qkey = QKey::new(compute_path_sig(path), compute_class_sig(classes), as_of, (0, u64::MAX), 0);
        let a: u128 = path.len() as u128;
        let b: u128 = classes.len() as u128;
        proof {
            assert(a * b <= 0xFFFF_FFFF_FFFF_FFFF * 0xFFFF_FFFF_FFFF_FFFF) by (nonlinear_arith)
                requires a <= 0xFFFF_FFFF_FFFF_FFFF, b <= 0xFFFF_FFFF_FFFF_FFFF;
        }
        let ab = a * b;
        let estimated_cost: u64 = if ab > (u64::MAX as u128) / 10 { u64::MAX } else { (ab * 10) as u64 };
        QueryPlan {
            qkey,
            estimated_cost,
            use_path_sig: path.len() > 1,
            use_class_sig: classes.len() > 1,
            trace_optimized: true,
            manifest_cached: true,
        }
    }
}

/// No segment holds a zero byte.
pub open spec fn zero_free(segs: Seq<Seq<u8>>) -> bool {
    forall|i: int, j: int| 0 <= i < segs.len() && 0 <= j < segs[i].len() ==> #[trigger] segs[i][j] != 0u8
}

/// The bytes that a path signature digests tell any two different paths apart when no
/// segment holds a zero byte: two different orders of the same segments are digested from
/// different bytes, so their signatures differ unless the digest collides.
pub proof fn lemma_path_encoding_injective(p: Seq<Seq<u8>>, q: Seq<Seq<u8>>)
    requires
        zero_free(p),
        zero_free(q),
        terminated(p) == terminated(q),
    ensures
        p == q,
    decreases p.len(),
{
    let e = terminated(p);
    if p.len() == 0 {
        if q.len() > 0 {
            assert(terminated(q).len() > 0);
        }
        assert(p =~= q);
    } else if q.len() == 0 {
        assert(e.len() > 0);
    } else {
        let a = p[0];
        let b = q[0];
        assert(e == a + seq![0u8] + terminated(p.drop_first()));
        assert(e == b + seq![0u8] + terminated(q.drop_first()));
        if a.len() < b.len() {
            assert(e[a.len() as int] == 0u8);
            assert(e[a.len() as int] == b[a.len() as int]);
            assert(q[0][a.len() as int] != 0u8);
        }
        if b.len() < a.len() {
            assert(e[b.len() as int] == 0u8);
            assert(e[b.len() as int] == a[b.len() as int]);
            assert(p[0][b.len() as int] != 0u8);
        }
        assert(a.len() == b.len());
        assert(a =~= e.subrange(0, a.len() as int));
        assert(b =~= e.subrange(0, b.len() as int));
        assert(terminated(p.drop_first()) =~= e.subrange(a.len() as int + 1, e.len() as int));
        assert(terminated(q.drop_first()) =~= e.subrange(b.len() as int + 1, e.len() as int));
        assert forall|i: int, j: int| 0 <= i < p.drop_first().len() && 0 <= j < p.drop_first()[i].len() implies
            #[trigger] p.drop_first()[i][j] != 0u8 by {
            assert(p.drop_first()[i] == p[i + 1]);
        }
        assert forall|i: int, j: int| 0 <= i < q.drop_first().len() && 0 <= j < q.drop_first()[i].len() implies
            #[trigger] q.drop_first()[i][j] != 0u8 by {
            assert(q.drop_first()[i] == q[i + 1]);
        }
        lemma_path_encoding_injective(p.drop_first(), q.drop_first());
        assert(p =~= seq![a] + p.drop_first());
        assert(q =~= seq![b] + q.drop_first());
    }
}

/// A class signature does not depend on the order of the classes: two lists that hold the
/// same classes, each as many times, have the same signature.
pub proof fn lemma_class_sig_order_independent(s: Seq<&str>, t: Seq<&str>)
    requires
        str_bytes(s).to_multiset() == str_bytes(t).to_multiset(),
    ensures
        class_sig_of(s) == class_sig_of(t),
{
    lemma_lex_total_ordering();
    str_bytes(s).lemma_sort_by_ensures(lex_order());
    str_bytes(t).lemma_sort_by_ensures(lex_order());
    lemma_sorted_unique(sorted_lex(str_bytes(s)), sorted_lex(str_bytes(t)));
}

} // verus!
