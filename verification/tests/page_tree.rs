use bytes::Bytes;
use scale_kv::common::{Error, KEY_SIZE, PAGE_SIZE, VALUE_SIZE};
use scale_kv::page_bptree::node_page::{
    decode_child_id, encode_child_id, entry_key_at, max_keys_for_page_type, min_keys_non_root,
    LeafValue, LeafValueRef, PAGE_TYPE_INTERNAL, PAGE_TYPE_LEAF,
};
use scale_kv::page_bptree::page_cache::{PageCache, SharedPageProvider};
use scale_kv::page_bptree::provider::{AsyncPageProvider, InMemoryPageProvider};
use scale_kv::page_bptree::tree::PageBPlusTree;
use scale_kv::undo_pg::UndoPtr;

fn key_for(i: u32) -> Vec<u8> {
    let mut key = format!("k{:03}", i).into_bytes();
    while key.len() < KEY_SIZE {
        key.push(b'x');
    }
    key.truncate(KEY_SIZE);
    key
}

fn next_rand(state: &mut u64) -> u64 {
    *state = state.wrapping_mul(6364136223846793005).wrapping_add(1442695040888963407);
    *state
}

fn row(fill: u8, commit_lsn: u64, flags: u16) -> LeafValue {
    LeafValue {
        value: [fill; VALUE_SIZE],
        commit_lsn,
        undo_ptr: None,
        flags,
        intent_txn_id: 0,
        intent_lsn: 0,
    }
}

fn assert_leaf_matches(got: Option<LeafValueRef>, expected: Option<&LeafValue>) {
    match (got, expected) {
        (None, None) => {}
        (Some(got), Some(expected)) => {
            assert_eq!(got.value.as_ref(), expected.value.as_slice());
            assert_eq!(got.meta.commit_lsn, expected.commit_lsn);
            assert_eq!(got.meta.undo_ptr, expected.undo_ptr);
            assert_eq!(got.meta.flags, expected.flags);
            assert_eq!(got.meta.intent_txn_id, expected.intent_txn_id);
            assert_eq!(got.meta.intent_lsn, expected.intent_lsn);
        }
        (left, right) => panic!("leaf mismatch: got={left:?} expected={right:?}"),
    }
}

#[test]
fn test_insert_get_remove_len() {
    let mut tree = PageBPlusTree::new();
    let key = key_for(1);
    let slot = row(1, 11, 0);
    let updated = row(2, 22, 1);

    assert_leaf_matches(tree.get(&key), None);
    tree.insert(key.clone(), slot.clone()).unwrap();
    assert_leaf_matches(tree.get(&key), Some(&slot));
    assert_eq!(tree.len(), 1);

    tree.insert(key.clone(), updated.clone()).unwrap();
    assert_leaf_matches(tree.get(&key), Some(&updated));
    assert_eq!(tree.len(), 1);

    tree.remove(&key).unwrap();
    assert_leaf_matches(tree.get(&key), None);
    assert_eq!(tree.len(), 0);
    tree.validate().unwrap();
}

#[test]
fn test_range_across_splits() {
    let mut tree = PageBPlusTree::new();
    for i in 0..120u32 {
        let key = key_for(i);
        tree.insert(key, row(i as u8, i as u64, 0)).unwrap();
    }

    let start = key_for(10);
    let end = key_for(50);
    let range = tree.range(&start, &end);
    assert_eq!(range.len(), 41);
    assert_eq!(range.first().unwrap().0, start);
    assert_eq!(range.last().unwrap().0, end);
}

#[test]
fn test_with_custom_provider() {
    let provider = InMemoryPageProvider::new();
    let mut tree = PageBPlusTree::new_with_provider(provider);

    let key = key_for(2);
    let slot = row(3, 100, 0);

    tree.insert(key.clone(), slot.clone()).unwrap();
    assert_leaf_matches(tree.get(&key), Some(&slot));
    assert_eq!(tree.provider().page_count(), 1);
}

#[test]
fn test_provider_page_allocation() {
    let mut provider = InMemoryPageProvider::new();

    let p1 = provider.alloc_page_id();
    let p2 = provider.alloc_page_id();
    let p3 = provider.alloc_page_id();

    assert_eq!(p1, 1);
    assert_eq!(p2, 2);
    assert_eq!(p3, 3);

    let page_data = vec![42u8; PAGE_SIZE];
    provider.write_page(p1, Bytes::from(page_data.clone()));

    assert_eq!(provider.read_page(p1), Some(Bytes::from(page_data)));
    assert_eq!(provider.read_page(p2), None);
}

#[test]
fn test_range_meta_and_debug_helpers_are_consistent() {
    let mut tree = PageBPlusTree::new();
    assert!(tree.is_empty());

    for i in 0..32u32 {
        let key = key_for(i);
        tree.insert(key, row(i as u8, i as u64 + 10, (i % 3) as u16)).unwrap();
    }
    assert!(!tree.is_empty());

    let start = key_for(4);
    let end = key_for(20);
    let rows = tree.range(&start, &end);
    let metas = tree.range_meta(&start, &end);
    assert_eq!(rows.len(), metas.len());
    for ((k1, row), (k2, meta)) in rows.iter().zip(metas.iter()) {
        assert_eq!(k1, k2);
        assert_eq!(row.meta.commit_lsn, meta.commit_lsn);
        assert_eq!(row.meta.flags, meta.flags);
    }

    let debug_keys = tree.debug_leaf_keys(&start, 8);
    assert!(!debug_keys.is_empty());
    let debug_entries = tree.debug_leaf_entries(&start, 8);
    assert_eq!(debug_keys.len(), debug_entries.len());
    for (k, v) in debug_entries {
        assert_eq!(k.len(), KEY_SIZE);
        assert!(!v.is_empty());
    }
}

#[test]
fn test_page_cache_and_provider_default_paths() {
    let mut cache = PageCache::new(4);
    assert_eq!(cache.len(), 0);
    assert!(!cache.contains(7));
    assert!(cache.get(7).is_none());
    cache.remove(7);

    let page = Bytes::from(vec![1u8; PAGE_SIZE]);
    cache.insert(7, page.clone());
    assert!(cache.contains(7));
    assert_eq!(cache.get(7), Some(page.clone()));

    let mut provider = SharedPageProvider::new(cache, 50);
    assert_eq!(provider.alloc_page_id(), 50);
    provider.set_root_page_id(33);
    assert_eq!(provider.root_page_id(), 33);
    assert_eq!(provider.read_page(7), Some(page));
    assert_eq!(provider.page_count(), 1);
}

#[test]
fn cache_drops_the_page_unused_for_longest() {
    let mut cache = PageCache::new_with_capacity(1, 2);
    for id in 1..=2u64 {
        cache.insert(id, Bytes::from(vec![id as u8; PAGE_SIZE]));
    }
    assert!(cache.get(1).is_some());
    cache.insert(3, Bytes::from(vec![3u8; PAGE_SIZE]));
    assert_eq!(cache.len(), 2);
    assert!(cache.contains(1));
    assert!(!cache.contains(2));
    cache.remove(1);
    cache.remove(3);
    assert!(cache.is_empty());
}

#[test]
fn random_inserts_and_removes_match_a_map() {
    let mut tree = PageBPlusTree::new();
    let mut model = std::collections::BTreeMap::new();
    let mut state: u64 = 7;
    for step in 0..3000u64 {
        let i = (next_rand(&mut state) >> 33) as u32 % 400;
        let key = key_for(i);
        if next_rand(&mut state) >> 40 & 3 == 0 {
            tree.remove(&key).unwrap();
            model.remove(&key);
        } else {
            tree.insert(key.clone(), row(step as u8, step, 0)).unwrap();
            model.insert(key, step);
        }
        if step % 50 == 0 {
            tree.validate().unwrap();
        }
    }
    assert_eq!(tree.len(), model.len());
    tree.validate().unwrap();
    let rows = tree.range(&key_for(0), &key_for(999));
    let got: Vec<(Vec<u8>, u64)> = rows.into_iter().map(|(k, r)| (k, r.meta.commit_lsn)).collect();
    let want: Vec<(Vec<u8>, u64)> = model.into_iter().collect();
    assert_eq!(got, want);
    for i in 0..400u32 {
        tree.remove(&key_for(i)).unwrap();
    }
    assert_eq!(tree.len(), 0);
    assert!(tree.range(&key_for(0), &key_for(999)).is_empty());
}

#[test]
fn every_field_of_a_row_is_kept() {
    let mut tree = PageBPlusTree::new();
    let full = LeafValue {
        value: [9u8; VALUE_SIZE],
        commit_lsn: 1,
        undo_ptr: Some(UndoPtr { page_id: 2_000_000, slot_id: 4 }),
        flags: 2,
        intent_txn_id: 5,
        intent_lsn: 6,
    };
    tree.insert(key_for(1), full.clone()).unwrap();
    assert_leaf_matches(tree.get(&key_for(1)), Some(&full));
    assert!(tree.get(b"short").is_none());
    assert!(matches!(
        tree.insert(vec![1, 2], row(1, 1, 0)),
        Err(Error::InvalidKeySize(2, 16))
    ));
    assert!(matches!(tree.remove(&[1, 2]), Err(Error::InvalidKeySize(2, 16))));
}

#[test]
fn damaged_pages_are_reported() {
    let mut tree = PageBPlusTree::new();
    for i in 0..40u32 {
        tree.insert(key_for(i), row(i as u8, i as u64, 0)).unwrap();
    }
    tree.validate().unwrap();
    let root = tree.root_page_id();
    let first = tree.find_leaf_for_read(&key_for(0)).unwrap();
    let leaf = tree.provider().read_page(first).unwrap();
    let top = tree.provider().read_page(root).unwrap();

    // A page of another kind.
    let mut bytes = leaf.to_vec();
    bytes[0] = 9;
    tree.provider.write_page(first, Bytes::from(bytes));
    assert_eq!(
        tree.validate().unwrap_err(),
        format!("unknown page type 9 at page_id={first}")
    );

    // Two children that are one page.
    tree.provider.write_page(first, leaf.clone());
    let mut bytes = top.to_vec();
    bytes[20..28].copy_from_slice(&root.to_le_bytes());
    tree.provider.write_page(root, Bytes::from(bytes));
    assert_eq!(tree.validate().unwrap_err(), format!("cycle detected at page_id={root}"));
    let mut bytes = top.to_vec();
    bytes[20..28].copy_from_slice(&0u64.to_le_bytes());
    tree.provider.write_page(root, Bytes::from(bytes));
    assert_eq!(
        tree.validate().unwrap_err(),
        format!("internal page_id={root} has zero left child")
    );
    let mut bytes = top.to_vec();
    bytes[20..28].copy_from_slice(&999u64.to_le_bytes());
    tree.provider.write_page(root, Bytes::from(bytes));
    assert_eq!(tree.validate().unwrap_err(), "missing page_id=999");
    tree.provider.write_page(root, top);

    // A wrong high key, and none.
    let mut bytes = leaf.to_vec();
    bytes[29] = b'z';
    tree.provider.write_page(first, Bytes::from(bytes.clone()));
    let text = tree.validate().unwrap_err();
    assert!(text.starts_with(&format!("high_key mismatch at page_id={first}: hk=7a")));
    assert!(text.contains(" next_first=6b"));
    bytes[28] = 0;
    tree.provider.write_page(first, Bytes::from(bytes));
    assert_eq!(tree.validate().unwrap_err(), format!("missing high_key at page_id={first}"));

    // A chain that ends too early, and one that runs in a circle.
    let mut bytes = leaf.to_vec();
    bytes[12..20].copy_from_slice(&0u64.to_le_bytes());
    tree.provider.write_page(first, Bytes::from(bytes));
    assert_eq!(tree.validate().unwrap_err(), "leaf chain does not match discovered leaves");
    let mut bytes = leaf.to_vec();
    bytes[12..20].copy_from_slice(&777u64.to_le_bytes());
    tree.provider.write_page(first, Bytes::from(bytes));
    assert_eq!(tree.validate().unwrap_err(), "missing next leaf page_id=777");
    tree.provider.write_page(first, leaf);
    tree.validate().unwrap();
}

#[test]
fn a_lowered_first_key_shows_in_the_leaf_before() {
    let long_key = |i: u32| format!("k{i:05}xxxxxxxxxx").into_bytes();
    let mut tree = PageBPlusTree::new();
    tree.validate().unwrap();
    for i in 0..6000u32 {
        tree.insert(long_key(i), row(i as u8, i as u64, 0)).unwrap();
    }
    tree.validate().unwrap();
    // The first key of the second page below the root.
    let top = tree.provider().read_page(tree.root_page_id()).unwrap();
    let edge = entry_key_at(&top, 0).unwrap().to_vec();
    let under = tree.provider().read_page(decode_child_id(&top[20..28])).unwrap();
    assert_eq!(under[0], PAGE_TYPE_INTERNAL);

    tree.remove(&edge).unwrap();
    tree.validate().unwrap();
    assert_leaf_matches(tree.get(&edge), None);
    tree.insert(edge.clone(), row(1, 1, 0)).unwrap();
    assert!(tree.validate().unwrap_err().starts_with("high_key mismatch at page_id="));
    assert_leaf_matches(tree.get(&edge), Some(&row(1, 1, 0)));
    assert_eq!(tree.len(), 6000);
    // Any removal sets the high keys anew.
    tree.remove(&long_key(5)).unwrap();
    tree.validate().unwrap();
    assert_eq!(tree.len(), 5999);
}

#[test]
fn node_page_sizes() {
    assert_eq!(max_keys_for_page_type(PAGE_TYPE_LEAF), 15);
    assert_eq!(max_keys_for_page_type(PAGE_TYPE_INTERNAL), 628);
    assert_eq!(min_keys_non_root(PAGE_TYPE_LEAF), 7);
    assert_eq!(min_keys_non_root(PAGE_TYPE_INTERNAL), 314);
    assert_eq!(decode_child_id(&encode_child_id(0x0102)), 0x0102);
}

#[test]
fn the_root_collapses_back_to_one_leaf() {
    let mut tree = PageBPlusTree::new();
    assert_eq!(tree.root_page_id(), 1);
    for i in 0..16u32 {
        tree.insert(key_for(i), row(i as u8, i as u64, 0)).unwrap();
    }
    assert_ne!(tree.root_page_id(), 1);
    tree.remove(&key_for(15)).unwrap();
    tree.remove(&key_for(14)).unwrap();
    assert_ne!(tree.root_page_id(), 1);
    tree.remove(&key_for(13)).unwrap();
    assert_eq!(tree.root_page_id(), 1);
    assert_eq!(tree.len(), 13);
    tree.validate().unwrap();
    let rows = tree.range(&key_for(0), &key_for(15));
    let got: Vec<Vec<u8>> = rows.into_iter().map(|(k, _)| k).collect();
    let want: Vec<Vec<u8>> = (0..13u32).map(key_for).collect();
    assert_eq!(got, want);
}

#[test]
fn a_visit_stops_after_the_first_refusal() {
    let mut tree = PageBPlusTree::new();
    for i in 0..60u32 {
        tree.insert(key_for(i), row(i as u8, i as u64, 0)).unwrap();
    }
    let all = tree.range_visit(&key_for(10), &key_for(40), |_, _| true);
    assert_eq!(all.len(), 31);
    let limit = key_for(20);
    let some = tree.range_visit(&key_for(10), &key_for(40), |k, _| *k < limit);
    assert_eq!(some.len(), 11);
    assert_eq!(some[10].0, limit);
    assert_eq!(some[10].1.meta.commit_lsn, 20);
    let first = tree.range_visit_meta(&key_for(10), &key_for(40), |_, m| m.commit_lsn < 5);
    assert_eq!(first.len(), 1);
    assert_eq!(first[0].0, key_for(10));
    assert!(tree.range_visit(&key_for(61), &key_for(70), |_, _| true).is_empty());
}

#[test]
fn inserts_in_any_order_leave_valid_pages() {
    let mut tree = PageBPlusTree::new();
    let mut state: u64 = 99;
    for step in 0..2000u64 {
        let i = (next_rand(&mut state) >> 33) as u32 % 999;
        tree.insert(key_for(i), row(step as u8, step, 0)).unwrap();
        if step % 100 == 0 {
            tree.validate().unwrap();
        }
    }
    tree.validate().unwrap();
}

#[test]
fn an_update_with_room_writes_one_page() {
    let mut tree = PageBPlusTree::new();
    for i in 0..40u32 {
        tree.insert(key_for(i), row(i as u8, i as u64, 0)).unwrap();
    }
    let pages = tree.provider().page_count();
    let leaf = tree.find_leaf_for_read(&key_for(1)).unwrap();
    let root = tree.provider().read_page(tree.root_page_id()).unwrap();
    let before = tree.provider().read_page(leaf).unwrap();
    tree.insert(key_for(1), row(200, 9, 0)).unwrap();
    assert_eq!(tree.provider().page_count(), pages);
    assert_eq!(tree.provider().read_page(tree.root_page_id()).unwrap(), root);
    assert_ne!(tree.provider().read_page(leaf).unwrap(), before);
    assert_eq!(tree.find_leaf_for_read(&key_for(1)), Some(leaf));
}

#[test]
fn a_page_whose_table_does_not_fit_counts_as_empty() {
    let mut tree = PageBPlusTree::new();
    tree.insert(key_for(1), row(1, 1, 0)).unwrap();
    let root = tree.root_page_id();
    let mut bytes = tree.provider().read_page(root).unwrap().to_vec();
    bytes[2..4].copy_from_slice(&19798u16.to_le_bytes());
    tree.provider.write_page(root, Bytes::from(bytes));
    tree.validate().unwrap();
}
