use fcdb::cid::{Cap, Cid, QKey};
use fcdb::manifest::{Manifest, ManifestEntry};
use fcdb::perms;
use fcdb::signature::{compute_class_sig, compute_path_sig};
use fcdb::trace::{concat_traces, Trace, TraceNF, TraceOp};
use fcdb::varint;
use fcdb::planner::{CostEstimator, MeetInMiddle, PlanSwitcher, QueryPlan, SnapshotManager};

#[test]
fn test_cid_creation() {
    let data = b"hello world";
    let cid = Cid::hash(data);
    assert_eq!(cid.as_bytes().len(), 32);
}

#[test]
fn lib_test_cid_creation() {
    let data = b"hello world";
    let cid = Cid::hash(data);
    assert_eq!(cid.as_bytes().len(), 32);
}

#[test]
fn cid_hash_is_blake3() {
    let cid = Cid::hash(b"");
    assert_eq!(
        hex::encode(cid.as_bytes()),
        "af1349b9f5f9a1a6a0404dea36dcc9499bcb25c9adc112b7cc9a93cae41f3262"
    );
    assert_ne!(Cid::hash(b"a"), Cid::hash(b"b"));
    assert_eq!(Cid::from_bytes([7u8; 32]).as_bytes(), &[7u8; 32]);
}

#[test]
fn test_path_signature() {
    let path1 = &["user", "posts"];
    let path2 = &["user", "posts"];
    let path3 = &["posts", "user"];

    let sig1 = compute_path_sig(path1);
    let sig2 = compute_path_sig(path2);
    let sig3 = compute_path_sig(path3);

    assert_eq!(sig1, sig2);
    assert_ne!(sig1, sig3);
}

#[test]
fn path_signature_digests_terminated_segments() {
    assert_eq!(compute_path_sig(&["ab", "c"]), Cid::hash(b"ab\0c\0"));
    assert_eq!(compute_path_sig(&[]), Cid::hash(b""));
    assert_ne!(compute_path_sig(&["ab", "c"]), compute_path_sig(&["a", "bc"]));
}

#[test]
fn test_class_signature() {
    let classes1 = &["User", "Post"];
    let classes2 = &["Post", "User"];
    let classes3 = &["User", "Comment"];

    let sig1 = compute_class_sig(classes1);
    let sig2 = compute_class_sig(classes2);
    let sig3 = compute_class_sig(classes3);

    assert_eq!(sig1, sig2);
    assert_ne!(sig1, sig3);
}

#[test]
fn class_signature_sorts_before_digesting() {
    assert_eq!(compute_class_sig(&["b", "a", "ab"]), Cid::hash(b"a\0ab\0b\0"));
    assert_eq!(compute_class_sig(&["x", "y", "z"]), compute_class_sig(&["z", "x", "y"]));
}

#[test]
fn test_cap_bounds_check() {
    let cap = Cap::new(100, 50, 0b111);
    assert!(cap.contains(120));
    assert!(cap.contains(149));
    assert!(!cap.contains(150));
    assert!(!cap.contains(99));
}

#[test]
fn cap_bounds_at_the_top_of_the_address_space() {
    let cap = Cap::new(u64::MAX - 1, 10, perms::READ);
    assert!(cap.contains(u64::MAX));
    assert!(!cap.contains(u64::MAX - 2));
}

#[test]
fn test_cap_permissions() {
    let cap = Cap::new(0, 100, 0b101);
    assert!(cap.has_perm(0b001));
    assert!(!cap.has_perm(0b010));
    assert!(cap.has_perm(0b100));
}

#[test]
fn capability_meet_scenario() {
    let c1 = Cap::new(0, 100, perms::READ | perms::WRITE);
    let c2 = Cap::new(50, 100, perms::READ);
    let m = c1.meet(&c2);
    assert_eq!(m.base, 50);
    assert_eq!(m.len, 50);
    assert_eq!(m.perms, perms::READ);
}

#[test]
fn capability_meet_of_disjoint_ranges_is_empty() {
    let c1 = Cap::new(0, 10, perms::READ);
    let c2 = Cap::new(20, 10, perms::READ | perms::WRITE);
    let m = c1.meet(&c2);
    assert_eq!(m.base, 20);
    assert_eq!(m.len, 0);
    assert!(!m.contains(20));
}

#[test]
fn test_capability_functor_preservation() {
    let base_cap = Cap::new(0, 100, perms::READ | perms::WRITE);
    let data = vec![1, 2, 3, 4, 5];
    let transformed = data.iter().map(|x| x * 2).collect::<Vec<_>>();
    assert_eq!(transformed, vec![2, 4, 6, 8, 10]);
    let preserved_cap = base_cap.meet(&base_cap);

    assert_eq!(preserved_cap.has_perm(perms::READ), base_cap.has_perm(perms::READ));
    assert_eq!(preserved_cap.has_perm(perms::WRITE), base_cap.has_perm(perms::WRITE));
    assert!(!preserved_cap.has_perm(perms::EXECUTE));
    assert!(!preserved_cap.has_perm(perms::DELEGATE));
}

#[test]
fn test_qkey_hash() {
    let path_sig = compute_path_sig(&["user", "posts"]);
    let class_sig = compute_class_sig(&["Post", "User"]);
    let qkey = QKey::new(path_sig, class_sig, 1234567890, (0, 1000), 42);
    let hash = qkey.hash();
    assert_eq!(hash.as_bytes().len(), 32);
}

#[test]
fn qkey_encoding_layout() {
    let q = QKey::new(Cid::from_bytes([1; 32]), Cid::from_bytes([2; 32]), 0x0102, (3, 4), 0x0506);
    let b = q.to_bytes();
    assert_eq!(b.len(), 90);
    assert_eq!(&b[0..32], &[1u8; 32]);
    assert_eq!(&b[32..64], &[2u8; 32]);
    assert_eq!(&b[64..72], &[0x02, 0x01, 0, 0, 0, 0, 0, 0]);
    assert_eq!(&b[72..80], &[3, 0, 0, 0, 0, 0, 0, 0]);
    assert_eq!(&b[80..88], &[4, 0, 0, 0, 0, 0, 0, 0]);
    assert_eq!(&b[88..90], &[0x06, 0x05]);
    assert_eq!(q.hash(), Cid::hash(&b));
}

#[test]
fn test_varint_roundtrip() {
    let mut buf = Vec::new();
    varint::encode_u64(12345678901234567890, &mut buf);
    let decoded = varint::decode_u64(&buf).unwrap();
    assert_eq!(decoded.0, 12345678901234567890);
    assert_eq!(decoded.1, buf.len());
}

#[test]
fn varint_known_encodings() {
    let mut buf = Vec::new();
    varint::encode_u64(300, &mut buf);
    assert_eq!(buf, vec![0xAC, 0x02]);
    let mut one = Vec::new();
    varint::encode_u64(1, &mut one);
    assert_eq!(one, vec![1]);
    assert_eq!(varint::decode_u64(&[0x80]), None);
    assert_eq!(varint::decode_u64(&[]), None);
    let mut neg = Vec::new();
    varint::encode_i64(-1, &mut neg);
    assert_eq!(neg, vec![1]);
    assert_eq!(varint::decode_i64(&neg), Some((-1, 1)));
    let mut min = Vec::new();
    varint::encode_i64(i64::MIN, &mut min);
    assert_eq!(varint::decode_i64(&min), Some((i64::MIN, min.len())));
    let mut max = Vec::new();
    varint::encode_u64(u64::MAX, &mut max);
    assert_eq!(max.len(), 10);
    assert_eq!(varint::decode_u64(&max), Some((u64::MAX, 10)));
}

#[test]
fn varint_sequences_round_trip() {
    let values = vec![0u64, 1, 127, 128, 300, u64::MAX];
    let bytes = varint::encode_simd(&values);
    assert_eq!(varint::decode_simd(&bytes), values);
    assert_eq!(varint::decode_simd(&[0x05, 0x80]), vec![5]);
}

fn node(id: u64, tag: &[u8]) -> TraceOp {
    TraceOp::NodeCreate { id, data: Cid::hash(tag) }
}

#[test]
fn test_trace_normal_form() {
    let mut trace = Trace::new(1234567890);
    trace.add_op(node(1, b"node1"));
    trace.add_op(node(2, b"node2"));

    let nf = TraceNF::from_trace(&trace);
    assert!(!nf.commutative_groups.is_empty());
}

#[test]
fn normal_form_groups_and_orders() {
    let mut trace = Trace::new(5);
    trace.add_op(TraceOp::PropertyUpdate { node: 2, key: "b".to_string(), value: Cid::hash(b"x") });
    trace.add_op(TraceOp::EdgeCreate { from: 3, to: 1, label: 7, props: Cid::hash(b"e") });
    trace.add_op(node(9, b"n9"));
    trace.add_op(TraceOp::PropertyUpdate { node: 2, key: "a".to_string(), value: Cid::hash(b"y") });
    trace.add_op(node(4, b"n4"));
    let nf = TraceNF::from_trace(&trace);
    assert_eq!(nf.commutative_groups.len(), 3);
    assert_eq!(nf.commutative_groups[0].len(), 2);
    assert!(matches!(nf.commutative_groups[0][0], TraceOp::NodeCreate { id: 4, .. }));
    assert!(matches!(nf.commutative_groups[0][1], TraceOp::NodeCreate { id: 9, .. }));
    assert_eq!(nf.commutative_groups[1].len(), 1);
    match &nf.commutative_groups[2][0] {
        TraceOp::PropertyUpdate { key, .. } => assert_eq!(key, "a"),
        _ => panic!("expected a property update"),
    }
}

#[test]
fn test_trace_commutativity() {
    let mut trace1 = Trace::new(0);
    let mut trace2 = Trace::new(0);

    trace1.add_op(node(1, b"a"));
    trace1.add_op(node(2, b"b"));
    trace1.add_op(TraceOp::EdgeCreate { from: 1, to: 2, label: 0, props: Cid::hash(b"p") });

    trace2.add_op(node(2, b"b"));
    trace2.add_op(node(1, b"a"));
    trace2.add_op(TraceOp::EdgeCreate { from: 1, to: 2, label: 0, props: Cid::hash(b"p") });

    let norm1 = TraceNF::from_trace(&trace1);
    let norm2 = TraceNF::from_trace(&trace2);

    assert_eq!(norm1.canonical_form, norm2.canonical_form);
}

#[test]
fn test_monoid_properties() {
    let empty = Trace::new(0);
    let mut trace1 = Trace::new(0);
    trace1.add_op(node(1, b"a"));
    let mut trace2 = Trace::new(0);
    trace2.add_op(node(2, b"b"));

    let left_assoc = concat_traces(concat_traces(trace1.clone(), trace2.clone()), empty.clone());
    let right_assoc = concat_traces(trace1.clone(), concat_traces(trace2.clone(), empty.clone()));
    assert_eq!(
        TraceNF::from_trace(&left_assoc).canonical_form,
        TraceNF::from_trace(&right_assoc).canonical_form
    );

    let left_id = concat_traces(empty.clone(), trace1.clone());
    let right_id = concat_traces(trace1.clone(), empty);
    let base = TraceNF::from_trace(&trace1).canonical_form;
    assert_eq!(TraceNF::from_trace(&left_id).canonical_form, base);
    assert_eq!(TraceNF::from_trace(&right_id).canonical_form, base);
}

#[test]
fn test_natural_transformation() {
    let path1 = vec!["user", "posts"];
    let path2 = vec!["comments"];

    let sig1 = compute_path_sig(&path1);
    let sig2 = compute_path_sig(&path2);

    let mut composed = path1.clone();
    composed.extend(path2.clone());

    let composed_sig = compute_path_sig(&composed);

    assert_eq!(sig1, compute_path_sig(&path1));
    assert_eq!(sig2, compute_path_sig(&path2));
    assert_eq!(composed_sig, compute_path_sig(&composed));
}

fn qkey(name: &str) -> QKey {
    QKey::new(compute_path_sig(&[name]), compute_class_sig(&["Test"]), 1000, (0, 100), 1)
}

fn entry(q: QKey, result: &[u8]) -> ManifestEntry {
    ManifestEntry { qkey: q, result_cid: Cid::hash(result), last_accessed: 1000, access_count: 1 }
}

#[test]
fn test_manifest_diffing() {
    let mut manifest = Manifest::new();
    let qkey1 = qkey("test");
    let new_entries = vec![entry(qkey1, b"result1")];

    let diff = manifest.create_diff(&new_entries, 1000);
    assert_eq!(diff.added.len(), 1);
    assert_eq!(diff.removed.len(), 0);

    manifest.apply_diff(diff);
    assert!(manifest.get_result(&qkey1).is_some());
}

#[test]
fn manifest_diff_scenario() {
    let mut manifest = Manifest::new();
    let q1 = qkey("q1");
    let q2 = qkey("q2");
    let first = manifest.create_diff(&vec![entry(q1, b"d1")], 10);
    assert_eq!(first.version, 1);
    manifest.apply_diff(first);

    let proposed = vec![entry(q1, b"d1'"), entry(q2, b"d2")];
    let diff = manifest.create_diff(&proposed, 20);
    assert_eq!(diff.version, 2);
    assert_eq!(diff.timestamp, 20);
    assert_eq!(diff.updated.len(), 1);
    assert_eq!(diff.updated[0].0, q1);
    assert_eq!(diff.updated[0].1, Cid::hash(b"d1'"));
    assert_eq!(diff.added.len(), 1);
    assert_eq!(diff.added[0].qkey, q2);
    assert!(diff.removed.is_empty());

    manifest.apply_diff(diff);
    assert_eq!(manifest.get_result(&q1), Some(Cid::hash(b"d1'")));
    assert_eq!(manifest.get_result(&q2), Some(Cid::hash(b"d2")));
    assert_eq!(manifest.entries.len(), 2);

    let shrink = manifest.create_diff(&vec![entry(q2, b"d2")], 30);
    assert_eq!(shrink.removed, vec![q1]);
    assert!(shrink.updated.is_empty());
    assert!(shrink.added.is_empty());
    manifest.apply_diff(shrink);
    assert_eq!(manifest.get_result(&q1), None);
    assert_eq!(manifest.diffs.len(), 3);
}

#[test]
fn test_snapshot_manager() {
    let mut manager = SnapshotManager::new(10);
    let cid = Cid::from_bytes([42u8; 32]);

    manager.create_snapshot(1000, cid);
    assert_eq!(manager.get_snapshot(1000), Some(cid));
    assert_eq!(manager.get_snapshot(1500), Some(cid));

    let popular = manager.get_popular_timestamps(5);
    assert!(!popular.is_empty());
}

#[test]
fn snapshot_eviction_and_popularity() {
    let mut manager = SnapshotManager::new(2);
    let a = Cid::from_bytes([1; 32]);
    let b = Cid::from_bytes([2; 32]);
    let c = Cid::from_bytes([3; 32]);
    manager.create_snapshot(100, a);
    manager.create_snapshot(200, b);
    assert_eq!(manager.get_snapshot(99), None);
    assert_eq!(manager.get_snapshot(150), Some(a));
    assert_eq!(manager.get_snapshot(150), Some(a));
    assert_eq!(manager.get_snapshot(100), Some(a));
    assert_eq!(manager.get_snapshot(250), Some(b));
    manager.create_snapshot(300, c);
    assert_eq!(manager.get_snapshot(350), Some(c));
    assert_eq!(manager.get_snapshot(120), Some(a));
    assert_eq!(manager.get_snapshot(250), Some(a));
    assert_eq!(manager.count(150), 2);
    assert_eq!(manager.get_popular_timestamps(1), vec![150]);
    let all = manager.get_popular_timestamps(10);
    assert_eq!(all[0], 150);
    assert!(all.windows(2).all(|w| manager.count(w[0]) >= manager.count(w[1])));
    assert_eq!(manager.get_popular_timestamps(10).len(), 6);
}

#[test]
fn test_plan_switcher() {
    let mut switcher = PlanSwitcher::with_epsilon(0);

    let plans = vec![
        QueryPlan::PathFirst(vec!["user".to_string()]),
        QueryPlan::TypeFirst(vec!["User".to_string()]),
    ];

    let selected = switcher.select_plan("test_query", &plans);
    assert!(matches!(selected, QueryPlan::PathFirst(_) | QueryPlan::TypeFirst(_)));

    switcher.record_result("test_query", &plans[0], 10, 100, true, 0);

    let selected2 = switcher.select_plan("test_query", &plans);
    assert!(matches!(selected2, QueryPlan::PathFirst(_)));
}

#[test]
fn plan_learning_scenario() {
    let mut switcher = PlanSwitcher::with_epsilon(0);
    let fast = QueryPlan::IndexLookup("by_name".to_string());
    let slow = QueryPlan::MeetInMiddle("posts".to_string());
    let plans = vec![slow.clone(), fast.clone()];
    for t in 0..5u64 {
        switcher.record_result("q", &fast, 5, 1, true, t);
        switcher.record_result("q", &slow, 50, 1, true, t);
    }
    assert!(matches!(switcher.select_plan("q", &plans), QueryPlan::IndexLookup(_)));
    switcher.record_result("q", &fast, 1000, 0, false, 9);
    assert!(matches!(switcher.select_plan("q", &plans), QueryPlan::IndexLookup(_)));
    assert!(matches!(switcher.select_plan("other", &plans), QueryPlan::MeetInMiddle(_)));
    assert!(matches!(switcher.choose_plan("q", &plans, 0, 3), QueryPlan::MeetInMiddle(_)) == false);
    assert!(matches!(switcher.select_plan("q", &[]), QueryPlan::PathFirst(v) if v.is_empty()));
}

#[test]
fn exploration_picks_by_draw() {
    let switcher = PlanSwitcher::new();
    let plans = vec![QueryPlan::IndexLookup("a".to_string()), QueryPlan::IndexLookup("b".to_string())];
    match switcher.choose_plan("q", &plans, 50, 3) {
        QueryPlan::IndexLookup(k) => assert_eq!(k, "b"),
        _ => panic!("expected an index lookup"),
    }
    match switcher.choose_plan("q", &plans, 100, 3) {
        QueryPlan::IndexLookup(k) => assert_eq!(k, "a"),
        _ => panic!("expected an index lookup"),
    }
}

#[test]
fn test_meet_in_middle() {
    let mim = MeetInMiddle::new();
    let query_path = &["user", "posts", "comments", "replies"];

    if let Some(split) = mim.split_query(query_path, &[]) {
        assert_eq!(split.left_path.len() + split.right_path.len(), query_path.len());
        assert!(split.estimated_cost > 0);
    } else {
        panic!("Should split this query");
    }
}

#[test]
fn split_details_and_costs() {
    let mim = MeetInMiddle::new();
    let split = mim.split_query(&["a", "b", "c"], &[]).unwrap();
    assert_eq!(split.left_path, vec!["a".to_string()]);
    assert_eq!(split.right_path, vec!["b".to_string(), "c".to_string()]);
    assert_eq!(split.join_key, "a");
    assert_eq!(split.estimated_cost, 2000 + 4000 + 1000);
    assert!(mim.split_query(&["a", "b"], &[]).is_none());
    let est = CostEstimator::new();
    assert_eq!(est.estimate_cost(&["a", "b", "c"], &[]), 6000);
    assert_eq!(est.estimate_cost(&["a", "b"], &["T"]), 400);
    assert_eq!(est.estimate_cost(&["a", "b"], &["T", "U", "V"]), 4);
    assert_eq!(est.estimate_cost(&["a"], &["T", "U", "V", "W"]), 0);
}

#[test]
fn manifest_eviction_keeps_the_most_used() {
    let mut manifest = Manifest::new();
    let a = qkey("a");
    let b = qkey("b");
    let c = qkey("c");
    let entries = vec![
        ManifestEntry { qkey: a, result_cid: Cid::hash(b"ra"), last_accessed: 5, access_count: 3 },
        ManifestEntry { qkey: b, result_cid: Cid::hash(b"rb"), last_accessed: 9, access_count: 1 },
        ManifestEntry { qkey: c, result_cid: Cid::hash(b"rc"), last_accessed: 1, access_count: 1 },
    ];
    let diff = manifest.create_diff(&entries, 0);
    manifest.apply_diff(diff);
    manifest.evict_to(2);
    assert_eq!(manifest.entries.len(), 2);
    assert_eq!(manifest.get_result(&c), None);
    manifest.evict_to(1);
    assert_eq!(manifest.get_result(&a), Some(Cid::hash(b"ra")));
    assert_eq!(manifest.get_result(&b), None);
}

#[test]
fn test_query_plan_optimization() {
    let path = &["user", "posts", "comments"];
    let classes = &["User", "Post", "Comment"];

    let plan = fcdb::signature::QueryPlan::optimize(path, classes, 1234567890);

    assert!(plan.use_path_sig);
    assert!(plan.use_class_sig);
    assert!(plan.trace_optimized);
    assert!(plan.manifest_cached);
    assert!(plan.estimated_cost > 0);
    assert_eq!(plan.estimated_cost, 90);
    assert_eq!(plan.qkey.path_sig, compute_path_sig(path));
    assert_eq!(plan.qkey.cap_region, (0, u64::MAX));
}
