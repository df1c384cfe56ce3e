use fcdb::cas::{CasError, CidxRec, PackBand, PackCAS, PACK_SIZE_MAX};
use fcdb::cid::{Cap, Cid};
use fcdb::concur::{ConcurError, ResourceManager};
use fcdb::perms;
use fcdb::filters::BloomFilters;
use fcdb::graph::{GraphDB, GraphError, LabelId, Rid, Timestamp};

#[test]
fn test_cidx_record() {
    let cid = Cid::hash(b"test data");
    let record = CidxRec::new(cid, 42, 1024, 100, 1, 0);

    assert!(record.verify_crc());
    assert_eq!(record.pack_id, 42);
    assert_eq!(record.offset, 1024);
    assert_eq!(record.len, 100);
}

#[test]
fn cidx_record_layout_and_checksum() {
    let cid = Cid::from_bytes([9; 32]);
    let record = CidxRec::new(cid, 1, 2, 3, 4, 5);
    let bytes = record.to_bytes();
    assert_eq!(bytes.len(), 64);
    assert_eq!(&bytes[0..32], &[9u8; 32]);
    assert_eq!(&bytes[32..36], &[1, 0, 0, 0]);
    assert_eq!(&bytes[36..44], &[2, 0, 0, 0, 0, 0, 0, 0]);
    assert_eq!(&bytes[44..48], &[3, 0, 0, 0]);
    assert_eq!(bytes[48], 4);
    assert_eq!(bytes[49], 5);
    assert_eq!(&bytes[50..54], &crc32fast::hash(&bytes[0..50]).to_le_bytes());
    assert_eq!(&bytes[54..64], &[0u8; 10]);
    let mut bad = record;
    bad.offset = 3;
    assert!(!bad.verify_crc());
}

#[test]
fn test_bloom_filters() {
    let mut filters = BloomFilters::new();
    let cid = Cid::hash(b"test");

    filters.insert(&cid, 1, 100, 1234567890);

    assert!(filters.contains(&cid, None, None));
    assert!(filters.contains(&cid, Some(1), None));
    assert!(filters.contains(&cid, Some(1), Some((100, 1234567890))));

    let other_cid = Cid::hash(b"other");
    assert!(!filters.contains(&other_cid, None, None));
}

#[test]
fn test_pack_cas_basic() {
    let mut cas = PackCAS::new(true);
    let data = b"Hello, PackCAS!";
    let cid = cas.put(data, 1, PackBand::Small).unwrap();
    let retrieved = cas.get(&cid).unwrap();
    assert_eq!(retrieved, data);
}

#[test]
fn dedup_scenario() {
    let mut cas = PackCAS::new(true);
    let a = cas.put(b"hello", 1, PackBand::Small).unwrap();
    let index_after_first = cas.index_bytes().len();
    let b = cas.put(b"hello", 1, PackBand::Small).unwrap();
    assert_eq!(a, b);
    assert_eq!(a, Cid::hash(b"hello"));
    assert_eq!(index_after_first, 64);
    assert_eq!(cas.index_bytes().len(), 64);
    assert_eq!(cas.pack_image(0).unwrap(), b"hello".to_vec());
}

#[test]
fn missing_digest_is_not_found() {
    let mut cas = PackCAS::new(true);
    cas.put(b"present", 0, PackBand::Blob).unwrap();
    assert_eq!(cas.get(&Cid::hash(b"absent")), Err(CasError::NotFound));
    assert!(!cas.may_contain(&Cid::hash(b"absent")));
    assert!(cas.may_contain(&Cid::hash(b"present")));
}

#[test]
fn bands_write_to_separate_packs() {
    let mut cas = PackCAS::new(false);
    cas.put(b"small", 0, PackBand::Small).unwrap();
    cas.put(b"blob", 0, PackBand::Blob).unwrap();
    assert_eq!(cas.num_packs(), 2);
    assert_eq!(cas.pack_image(0).unwrap(), b"small".to_vec());
    assert_eq!(cas.pack_image(1).unwrap(), b"blob".to_vec());
    assert!(cas.pack_image(2).is_none());
}

#[test]
fn flipped_byte_is_an_integrity_error() {
    let mut cas = PackCAS::new(true);
    let cid = cas.put(b"precious bytes", 0, PackBand::Small).unwrap();
    let mut image = cas.pack_image(0).unwrap();
    image[3] ^= 0xFF;
    let index = cas.index_bytes();
    let reloaded = PackCAS::load(vec![image.clone()], &index, true);
    assert_eq!(reloaded.get(&cid), Err(CasError::IntegrityError));
    let unchecked = PackCAS::load(vec![image], &index, false);
    assert_eq!(unchecked.get(&cid).unwrap()[3], b"precious bytes"[3] ^ 0xFF);
}

#[test]
fn reload_round_trip_and_bad_records() {
    let mut cas = PackCAS::new(true);
    let a = cas.put(b"alpha", 0, PackBand::Small).unwrap();
    let b = cas.put(b"beta", 0, PackBand::Small).unwrap();
    let image = cas.pack_image(0).unwrap();
    let mut index = cas.index_bytes();
    let reloaded = PackCAS::load(vec![image.clone()], &index, true);
    assert_eq!(reloaded.get(&a).unwrap(), b"alpha".to_vec());
    assert_eq!(reloaded.get(&b).unwrap(), b"beta".to_vec());
    index[64 + 40] ^= 1;
    let damaged = PackCAS::load(vec![image], &index, true);
    assert_eq!(damaged.get(&a).unwrap(), b"alpha".to_vec());
    assert_eq!(damaged.get(&b), Err(CasError::NotFound));
}

#[test]
fn oversized_object_is_pack_full() {
    let mut cas = PackCAS::new(false);
    let big = vec![0u8; PACK_SIZE_MAX as usize + 1];
    assert_eq!(cas.put(&big, 0, PackBand::Blob), Err(CasError::PackFull));
}

fn graph() -> GraphDB {
    GraphDB::new(PackCAS::new(true), Timestamp(0))
}

#[test]
fn test_graph_basic_operations() {
    let mut graph = graph();
    let node1 = graph.create_node(b"Hello World").unwrap();
    let node2 = graph.create_node(b"Foo Bar").unwrap();

    let label = LabelId(1);
    graph.create_edge(node1, node2, label, b"connects to").unwrap();

    assert!(graph.get_node(node1).unwrap().is_some());
    assert!(graph.get_node(node2).unwrap().is_some());

    let edges_from_1 = graph.get_edges_from(node1);
    assert!(!edges_from_1.is_empty());

    let search_results = graph.search("hello");
    assert!(!search_results.is_empty());
}

#[test]
fn test_temporal_queries() {
    let mut graph = graph();
    let node = graph.create_node(b"Version 1").unwrap();

    let future_ts = Timestamp(1000000);
    graph.set_timestamp(future_ts);
    graph.update_node(node, b"Version 2").unwrap();

    assert_eq!(graph.get_node_at(node, Timestamp(0)).unwrap(), Some(b"Version 1".to_vec()));
    assert_eq!(graph.timestamp(), future_ts);
}

#[test]
fn temporal_query_scenario() {
    let mut graph = graph();
    graph.set_timestamp(Timestamp(1000));
    let r = graph.create_node(b"{\"v\":1}").unwrap();
    graph.set_timestamp(Timestamp(2000));
    graph.update_node(r, b"{\"v\":2}").unwrap();
    assert_eq!(graph.get_node_at(r, Timestamp(1500)).unwrap(), Some(b"{\"v\":1}".to_vec()));
    assert_eq!(graph.get_node_at(r, Timestamp(2500)).unwrap(), Some(b"{\"v\":2}".to_vec()));
    assert_eq!(graph.get_node_at(r, Timestamp(1000)).unwrap(), Some(b"{\"v\":1}".to_vec()));
    assert_eq!(graph.get_node_at(r, Timestamp(999)).unwrap(), None);
    assert_eq!(graph.get_node(r).unwrap(), Some(b"{\"v\":2}".to_vec()));
}

#[test]
fn bfs_bounds_scenario() {
    let mut graph = graph();
    let a = graph.create_node(b"A").unwrap();
    let b = graph.create_node(b"B").unwrap();
    let c = graph.create_node(b"C").unwrap();
    let d = graph.create_node(b"D").unwrap();
    let l = LabelId(7);
    graph.create_edge(a, b, l, b"").unwrap();
    graph.create_edge(b, c, l, b"").unwrap();
    graph.create_edge(c, d, l, b"").unwrap();
    let labels = [l];
    let found = graph.traverse(a, Some(&labels), 2, None);
    assert_eq!(found, vec![(a, 0), (b, 1), (c, 2)]);
    let other = [LabelId(8)];
    assert_eq!(graph.traverse(a, Some(&other), 2, None), vec![(a, 0)]);
}

#[test]
fn bfs_is_breadth_first_and_respects_as_of() {
    let mut graph = graph();
    let a = graph.create_node(b"a").unwrap();
    let b = graph.create_node(b"b").unwrap();
    let c = graph.create_node(b"c").unwrap();
    let d = graph.create_node(b"d").unwrap();
    graph.set_timestamp(Timestamp(10));
    graph.create_edge(a, b, LabelId(1), b"").unwrap();
    graph.create_edge(b, d, LabelId(1), b"").unwrap();
    graph.set_timestamp(Timestamp(20));
    graph.create_edge(a, c, LabelId(2), b"").unwrap();
    assert_eq!(graph.traverse(a, None, 5, None), vec![(a, 0), (b, 1), (c, 1), (d, 2)]);
    assert_eq!(graph.traverse(a, None, 5, Some(Timestamp(15))), vec![(a, 0), (b, 1), (d, 2)]);
}

#[test]
fn search_scores_and_order() {
    let mut graph = graph();
    let n1 = graph.create_node(b"apple banana").unwrap();
    let n2 = graph.create_node(b"Apple apple APPLE").unwrap();
    let n3 = graph.create_node(b"banana").unwrap();
    let _ = graph.create_node(&[0xff, 0xfe]).unwrap();
    assert_eq!(graph.search("APPLE"), vec![(n2, 3), (n1, 1)]);
    assert_eq!(graph.search("banana"), vec![(n1, 1), (n3, 1)]);
    assert!(graph.search("cherry").is_empty());
}

#[test]
fn edges_need_both_ends() {
    let mut graph = graph();
    let a = graph.create_node(b"a").unwrap();
    assert_eq!(graph.create_edge(a, Rid(9), LabelId(1), b""), Err(GraphError::NodeNotFound));
    assert_eq!(graph.update_node(Rid(9), b"x"), Err(GraphError::NodeNotFound));
    assert_eq!(graph.get_node(Rid(9)).unwrap(), None);
    assert_eq!(graph.list_rids(), vec![a]);
    assert!(graph.get_edges_from(a).is_empty());
}

#[test]
fn sealed_packs_are_not_written_again() {
    let mut cas = PackCAS::new(true);
    cas.put(b"first", 0, PackBand::Small).unwrap();
    cas.seal_all();
    let second = cas.put(b"second", 0, PackBand::Small).unwrap();
    assert_eq!(cas.num_packs(), 2);
    assert_eq!(cas.pack_image(0).unwrap(), b"first".to_vec());
    assert_eq!(cas.get(&second).unwrap(), b"second".to_vec());
}

#[test]
fn denied_write_changes_nothing() {
    let mut graph = graph();
    let a = graph.create_node(b"a").unwrap();
    let b = graph.create_node(b"b").unwrap();
    let mut rm = ResourceManager::new();
    let target = Cid::hash(b"edge a-b");
    rm.register_resource(target, Cap::new(0, 10, perms::READ)).unwrap();
    let mut txn = rm.begin_transaction(0).unwrap();
    let outcome = rm.acquire_exclusive(&target, &mut txn).and_then(|_| {
        graph.create_edge(a, b, LabelId(1), b"edge a-b").map_err(|_| ConcurError::CapCheckFailed)
    });
    assert_eq!(outcome, Err(ConcurError::PermissionDenied));
    assert!(graph.get_edges_from(a).is_empty());
    assert_eq!(graph.get_node(b).unwrap(), Some(b"b".to_vec()));
}

#[test]
fn bloom_adaptation_rebuilds_from_the_index() {
    let mut cas = PackCAS::new(true);
    let a = cas.put(b"one", 1, PackBand::Small).unwrap();
    let b = cas.put(b"two", 2, PackBand::Blob).unwrap();
    cas.record_false_positive(Some(0), None);
    cas.record_false_positive(None, Some((0, 0)));
    assert_eq!(cas.false_positive_counts(), (2, 1, 1));
    assert!(!cas.adapt(299));
    assert!(cas.adapt(300));
    assert_eq!(cas.false_positive_counts(), (0, 0, 0));
    assert!(!cas.adapt(400));
    assert_eq!(cas.get(&a).unwrap(), b"one".to_vec());
    assert_eq!(cas.get(&b).unwrap(), b"two".to_vec());
    assert!(cas.may_contain(&a));
}

#[test]
fn test_adaptive_bloom() {
    let mut bloom = BloomFilters::new();
    let cid = Cid::from_bytes([1u8; 32]);

    bloom.insert(&cid, 1, 100, 1234567890);
    assert!(bloom.contains(&cid, Some(1), Some((100, 1234567890))));
    assert!(!bloom.contains(&Cid::from_bytes([2u8; 32]), None, None));
}
