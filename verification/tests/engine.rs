use chunkfs::chunkers::Chunk;
use chunkfs::chunkers::Chunker;
use chunkfs::chunkers::FSChunker;
use chunkfs::chunkers::LeapChunker;
use chunkfs::chunkers::SuperChunker;
use chunkfs::chunkers::UltraChunker;
use chunkfs::codec::Storable;
use chunkfs::db::Database;
use chunkfs::db::DbError;
use chunkfs::lsmtree::LsmTree;

#[test]
fn small_insert_get_no_spill() {
    let mut tree: LsmTree<u64, String> = LsmTree::new(10);
    tree.insert(2, "22".to_string());
    tree.insert(3, "33".to_string());
    tree.insert(6, "66".to_string());
    assert_eq!(tree.get(2), Some("22".to_string()));
    assert_eq!(tree.get(3), Some("33".to_string()));
    assert_eq!(tree.get(6), Some("66".to_string()));
    assert_eq!(tree.get(1), None);
    assert_eq!(tree.sstable_count(), 0);
}

#[test]
fn spill_round_trip() {
    let mut tree: LsmTree<u64, String> = LsmTree::new(2);
    tree.insert(1, "11".to_string());
    tree.insert(2, "22".to_string());
    tree.insert(3, "33".to_string());
    tree.insert(4, "44".to_string());
    tree.insert(5, "55".to_string());
    assert_eq!(tree.sstable_count(), 2);
    assert_eq!(tree.get(1), Some("11".to_string()));
    assert_eq!(tree.get(2), Some("22".to_string()));
    assert_eq!(tree.get(3), Some("33".to_string()));
    assert_eq!(tree.get(4), Some("44".to_string()));
    assert_eq!(tree.get(5), Some("55".to_string()));
}

#[test]
fn duplicate_insert_keeps_first_value() {
    let mut tree: LsmTree<u64, String> = LsmTree::new(100);
    tree.insert(7, "first".to_string());
    tree.insert(7, "second".to_string());
    assert_eq!(tree.get(7), Some("first".to_string()));
}

#[test]
fn duplicate_insert_still_advances_spill_cadence() {
    // size counts calls, not distinct keys, so duplicates trip spills too
    let mut tree: LsmTree<u64, String> = LsmTree::new(2);
    tree.insert(7, "first".to_string());
    tree.insert(7, "second".to_string());
    assert_eq!(tree.sstable_count(), 1);
    assert_eq!(tree.size(), 2);
    assert_eq!(tree.get(7), Some("first".to_string()));
}

#[test]
fn spill_cadence_counts_tables() {
    let mut tree: LsmTree<u64, u64> = LsmTree::new(3);
    let mut n: u64 = 0;
    while n < 10 {
        tree.insert(n, n * 2);
        n += 1;
        assert_eq!(tree.sstable_count() as u64, (n / 3) as u64);
    }
    assert_eq!(tree.sstable_count(), 3);
}

#[test]
fn iterator_yields_distinct_keys_ascending() {
    let mut tree: LsmTree<u64, u64> = LsmTree::new(2);
    let inserts: [u64; 7] = [5, 3, 9, 3, 1, 7, 5];
    for (i, k) in inserts.iter().enumerate() {
        tree.insert(*k, (i as u64) + 100);
    }
    let mut it = tree.iter();
    let mut seen: Vec<(u64, u64)> = Vec::new();
    while let Some(p) = it.next() {
        seen.push(p);
    }
    // distinct inserted keys, ascending, with their first values
    assert_eq!(
        seen,
        vec![(1, 104), (3, 101), (5, 100), (7, 105), (9, 102)]
    );
}

#[test]
fn identifier_is_sixteen_alphanumerics() {
    let tree: LsmTree<u64, u64> = LsmTree::new(5);
    let id = tree.identifier();
    assert_eq!(id.chars().count(), 16);
    assert!(id.chars().all(|c| c.is_ascii_alphanumeric()));
}

#[test]
fn sstable_lines_use_json_and_colon() {
    let mut tree: LsmTree<u64, String> = LsmTree::new(2);
    tree.insert(2, "two".to_string());
    tree.insert(1, "one".to_string());
    assert_eq!(tree.sstable_count(), 1);
    let table = tree.sstable(1);
    assert_eq!(table.line_count(), 2);
    assert_eq!(table.line_at(0), "1:\"one\"");
    assert_eq!(table.line_at(1), "2:\"two\"");
}

#[test]
fn encode_decode_round_trips() {
    let n: u64 = 58;
    assert_eq!(n.encode(), "58");
    assert_eq!(<u64 as Storable>::decode("58"), Some(58));
    let s: String = "a:b\"c".to_string();
    let enc = s.encode();
    assert_eq!(enc, "\"a:b\\\"c\"");
    assert_eq!(<String as Storable>::decode(enc.as_str()), Some(s));
    let v: Vec<u64> = vec![1, 2, 3];
    assert_eq!(v.encode(), "[1,2,3]");
    assert_eq!(<Vec<u64> as Storable>::decode("[1,2,3]"), Some(vec![1, 2, 3]));
    assert_eq!(<u64 as Storable>::decode("not a number"), None);
}

#[test]
fn database_facade_reports_errors() {
    let mut tree: LsmTree<u64, String> = LsmTree::new(4);
    assert_eq!(Database::insert(&mut tree, 1, "one".to_string()), Ok(()));
    assert_eq!(Database::get(&tree, &1), Ok("one".to_string()));
    assert_eq!(Database::get(&tree, &2), Err(DbError::NotFound));
    assert!(Database::contains(&tree, &1));
    assert!(!Database::contains(&tree, &2));
    assert_eq!(Database::remove(&mut tree, &1), Err(DbError::Unsupported));
}

#[test]
fn vector_keys_order_lexicographically() {
    let mut tree: LsmTree<Vec<u64>, u64> = LsmTree::new(100);
    tree.insert(vec![1, 2], 12);
    tree.insert(vec![1], 1);
    tree.insert(vec![2], 2);
    tree.insert(vec![1, 1, 9], 119);
    let mut it = tree.iter();
    let mut keys: Vec<Vec<u64>> = Vec::new();
    while let Some((k, _)) = it.next() {
        keys.push(k);
    }
    assert_eq!(keys, vec![vec![1], vec![1, 1, 9], vec![1, 2], vec![2]]);
}

#[test]
fn fixed_size_chunker_splits_evenly() {
    let mut chunker = FSChunker::new(4);
    let data: Vec<u8> = (0u8..10).collect();
    let chunks = chunker.chunk_data(&data, Vec::new());
    assert_eq!(chunks.len(), 2);
    assert_eq!((chunks[0].pos, chunks[0].length()), (0, 4));
    assert_eq!((chunks[1].pos, chunks[1].length()), (4, 4));
    assert_eq!(chunker.remainder(), &[8u8, 9u8]);

    let exact: Vec<u8> = (0u8..8).collect();
    let mut chunker = FSChunker::new(4);
    let chunks = chunker.chunk_data(&exact, Vec::new());
    assert_eq!(chunks.len(), 2);
    assert_eq!(chunker.remainder(), &[] as &[u8]);
    assert_eq!(chunker.estimate_chunk_count(&exact), 3);
}

#[test]
fn fixed_size_chunker_short_buffer_is_all_remainder() {
    let mut chunker = FSChunker::new(16);
    let data: Vec<u8> = vec![1, 2, 3];
    let chunks = chunker.chunk_data(&data, Vec::new());
    assert_eq!(chunks.len(), 0);
    assert_eq!(chunker.remainder(), &[1u8, 2u8, 3u8]);
}

#[test]
fn content_defined_chunkers_keep_last_span() {
    let data: Vec<u8> = (0u8..20).collect();
    let raw = vec![Chunk::new(0, 8), Chunk::new(8, 8), Chunk::new(16, 4)];

    let mut leap = LeapChunker::default();
    let chunks = leap.accept_spans(&data, raw.clone(), Vec::new());
    assert_eq!(chunks.len(), 2);
    assert_eq!(leap.remainder(), &[16u8, 17u8, 18u8, 19u8]);
    assert_eq!(leap.estimate_chunk_count(&data), 0);

    let mut ultra = UltraChunker::default();
    let chunks = ultra.accept_spans(&data, raw.clone(), Vec::new());
    assert_eq!(chunks, vec![Chunk::new(0, 8), Chunk::new(8, 8)]);
    assert_eq!(ultra.remainder(), &[16u8, 17u8, 18u8, 19u8]);

    let mut sup = SuperChunker::new();
    let records = sup.take_records();
    assert!(records.is_some());
    let chunks = sup.accept_spans(&data, raw, Vec::new());
    assert_eq!(chunks.len(), 2);
    sup.put_records(records.unwrap());
    assert_eq!(sup.remainder(), &[16u8, 17u8, 18u8, 19u8]);
    assert_eq!(sup.estimate_chunk_count(&data), 0);
}
