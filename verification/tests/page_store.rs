use std::collections::BTreeMap;

use scale_kv::common::PAGE_SIZE;
use scale_kv::page_store::{
    next_scan_id, page_file_offset, page_file_write, BufferPoolConfig, CheckpointConfig, PageStore,
};

fn make_page(fill: u8) -> Vec<u8> {
    let mut page = vec![0u8; PAGE_SIZE];
    page[0] = fill;
    page[PAGE_SIZE - 1] = fill;
    page
}

/// A page file in memory.
struct Disk {
    pages: BTreeMap<u64, Vec<u8>>,
    size: u64,
    checkpoint_lsn: u64,
}

impl Disk {
    fn new() -> Disk {
        Disk { pages: BTreeMap::new(), size: 0, checkpoint_lsn: 0 }
    }

    fn open(&self) -> PageStore {
        PageStore::open(self.checkpoint_lsn, self.size)
    }

    fn checkpoint(&mut self, store: &mut PageStore) {
        let dirty = store.dirty_pages();
        for d in &dirty {
            let (_, size) = page_file_write(d.page_id, &d.data, self.size).unwrap();
            self.size = size;
            self.pages.insert(d.page_id, d.data.clone());
        }
        if let Some(lsn) = store.finish_checkpoint(&dirty) {
            self.checkpoint_lsn = lsn;
        }
    }

    fn get(&self, store: &mut PageStore, page_id: u64) -> Option<Vec<u8>> {
        if let Some((page, _)) = store.get_with_lsn(page_id) {
            return Some(page.to_vec());
        }
        let bytes = match page_file_offset(page_id, self.size) {
            Some(_) => self.pages.get(&page_id).cloned(),
            None => None,
        };
        store.complete_read(bytes).map(|(page, _)| page.to_vec())
    }

    fn evict(&mut self, store: &mut PageStore, config: &BufferPoolConfig) -> usize {
        let plan = store.eviction_plan(config);
        for d in store.dirty_among(&plan) {
            let (_, size) = page_file_write(d.page_id, &d.data, self.size).unwrap();
            self.size = size;
            self.pages.insert(d.page_id, d.data.clone());
        }
        store.evict(&plan)
    }
}

#[test]
fn test_open_empty() {
    let store = Disk::new().open();
    assert_eq!(store.len(), 0);
    assert!(store.is_empty());
    assert_eq!(store.checkpoint_lsn(), 0);
}

#[test]
fn page_store_tests_test_put_and_get() {
    let disk = Disk::new();
    let mut store = disk.open();

    let page1 = make_page(1);
    store.put(1, &page1, 100).unwrap();

    let retrieved = disk.get(&mut store, 1).unwrap();
    assert_eq!(retrieved, page1);
}

#[test]
fn page_store_tests_test_get_missing() {
    let disk = Disk::new();
    let mut store = disk.open();
    assert!(disk.get(&mut store, 999).is_none());
    let cache = store.cache_stats();
    assert_eq!(cache.hits, 0);
    assert_eq!(cache.misses, 1);
}

#[test]
fn test_cache_hit_miss_stats() {
    let disk = Disk::new();
    let mut store = disk.open();

    let page = make_page(1);
    store.put(7, &page, 100).unwrap();
    assert!(disk.get(&mut store, 7).is_some());
    assert!(disk.get(&mut store, 9999).is_none());

    let cache = store.cache_stats();
    assert!(cache.hits >= 1);
    assert!(cache.misses >= 1);
}

#[test]
fn page_store_tests_test_overwrite() {
    let disk = Disk::new();
    let mut store = disk.open();

    let page1 = make_page(1);
    let page2 = make_page(2);

    store.put(1, &page1, 100).unwrap();
    store.put(1, &page2, 101).unwrap();

    let retrieved = disk.get(&mut store, 1).unwrap();
    assert_eq!(retrieved, page2);
}

#[test]
fn test_checkpoint_persists() {
    let mut disk = Disk::new();

    // Write and checkpoint
    {
        let mut store = disk.open();
        let page1 = make_page(1);
        let page2 = make_page(2);
        store.put(1, &page1, 100).unwrap();
        store.put(2, &page2, 101).unwrap();
        disk.checkpoint(&mut store);

        assert_eq!(store.checkpoint_lsn(), 101);
    }

    // Reopen and verify data persistence
    {
        let mut store = disk.open();
        assert_eq!(store.checkpoint_lsn(), 101);

        let page1 = disk.get(&mut store, 1).unwrap();
        let page2 = disk.get(&mut store, 2).unwrap();
        assert_eq!(page1[0], 1);
        assert_eq!(page2[0], 2);
    }
}

#[test]
fn test_dirty_tracking() {
    let mut disk = Disk::new();
    let mut store = disk.open();

    let page = make_page(1);
    store.put(1, &page, 100).unwrap();

    let stats = store.buffer_stats();
    assert_eq!(stats.dirty_count, 1);
    assert_eq!(stats.dirty_bytes, PAGE_SIZE);

    disk.checkpoint(&mut store);

    let stats = store.buffer_stats();
    assert_eq!(stats.dirty_count, 0);
}

#[test]
fn test_sparse_pages() {
    let mut disk = Disk::new();
    let mut store = disk.open();

    // Write non-consecutive page_ids
    let page1 = make_page(1);
    let page100 = make_page(100);

    store.put(1, &page1, 100).unwrap();
    store.put(100, &page100, 101).unwrap();
    disk.checkpoint(&mut store);

    // Reopen and verify: the gap reads as zeros, which is no page.
    disk.pages.insert(50, vec![0u8; PAGE_SIZE]);
    let mut store = disk.open();

    assert!(disk.get(&mut store, 1).is_some());
    assert!(disk.get(&mut store, 50).is_none()); // Middle page doesn't exist
    assert!(disk.get(&mut store, 100).is_some());
}

#[test]
fn test_max_page_id() {
    let mut store = Disk::new().open();

    let page = make_page(1);
    store.put(5, &page, 100).unwrap();
    store.put(10, &page, 101).unwrap();
    store.put(3, &page, 102).unwrap();

    assert_eq!(store.max_page_id(), 10);
}

#[test]
fn test_invalid_page_size() {
    let mut store = Disk::new().open();

    let bad_page = vec![0u8; 100]; // Wrong size
    let result = store.put(1, &bad_page, 100);
    assert!(result.is_err());
}

#[test]
fn test_multiple_checkpoints() {
    let mut disk = Disk::new();
    let mut store = disk.open();

    // First round of writes
    let page1 = make_page(1);
    store.put(1, &page1, 100).unwrap();
    disk.checkpoint(&mut store);
    assert_eq!(store.checkpoint_lsn(), 100);

    // Second round of writes
    let page2 = make_page(2);
    store.put(2, &page2, 200).unwrap();
    disk.checkpoint(&mut store);
    assert_eq!(store.checkpoint_lsn(), 200);

    // Verify both pages exist
    assert!(disk.get(&mut store, 1).is_some());
    assert!(disk.get(&mut store, 2).is_some());
}

#[test]
fn test_should_checkpoint_by_dirty_count() {
    let mut store = Disk::new().open();
    let config = CheckpointConfig {
        interval_nanos: 3600 * 1_000_000_000,
        max_dirty_pages: 5,
        max_dirty_bytes: 1024 * 1024 * 1024,
    };

    for i in 0..4 {
        let page = make_page(i);
        store.put(i as u64, &page, i as u64 + 1).unwrap();
    }
    assert!(!store.should_checkpoint(&config, 0));

    for i in 4..6 {
        let page = make_page(i);
        store.put(i as u64, &page, i as u64 + 1).unwrap();
    }
    assert!(store.should_checkpoint(&config, 0));
}

#[test]
fn test_should_checkpoint_by_dirty_bytes() {
    let mut store = Disk::new().open();
    let config = CheckpointConfig {
        interval_nanos: 3600 * 1_000_000_000,
        max_dirty_pages: 1000,
        max_dirty_bytes: PAGE_SIZE * 2,
    };

    let page = make_page(1);
    store.put(1, &page, 1).unwrap();
    assert!(!store.should_checkpoint(&config, 0));

    let page = make_page(2);
    store.put(2, &page, 2).unwrap();
    assert!(!store.should_checkpoint(&config, 0));

    let page = make_page(3);
    store.put(3, &page, 3).unwrap();
    assert!(store.should_checkpoint(&config, 0));
}

#[test]
fn test_should_checkpoint_by_interval() {
    let mut store = Disk::new().open();
    let config = CheckpointConfig {
        interval_nanos: 50_000_000,
        max_dirty_pages: 1000,
        max_dirty_bytes: 1024 * 1024 * 1024,
    };

    let page = make_page(1);
    store.put(1, &page, 1).unwrap();
    assert!(!store.should_checkpoint(&config, 0));

    assert!(store.should_checkpoint(&config, 60_000_000));
}

#[test]
fn test_maybe_checkpoint() {
    let mut disk = Disk::new();
    let mut store = disk.open();
    let config = CheckpointConfig {
        interval_nanos: 3600 * 1_000_000_000,
        max_dirty_pages: 2,
        max_dirty_bytes: 1024 * 1024 * 1024,
    };

    let page = make_page(1);
    store.put(1, &page, 100).unwrap();
    assert!(!store.should_checkpoint(&config, 0));
    assert_eq!(store.buffer_stats().dirty_count, 1);

    let page = make_page(2);
    store.put(2, &page, 101).unwrap();
    let page = make_page(3);
    store.put(3, &page, 102).unwrap();
    assert!(store.should_checkpoint(&config, 0));
    disk.checkpoint(&mut store);
    assert_eq!(store.buffer_stats().dirty_count, 0);
    assert_eq!(store.checkpoint_lsn(), 102);
}

#[test]
fn test_shutdown_flushes_dirty_pages() {
    let mut disk = Disk::new();
    let mut store = disk.open();
    let page = make_page(1);
    store.put(1, &page, 100).unwrap();
    assert_eq!(store.buffer_stats().dirty_count, 1);
    assert!(!store.is_shutdown());

    store.shutdown();
    assert!(store.is_shutdown());
    disk.checkpoint(&mut store);

    assert_eq!(store.buffer_stats().dirty_count, 0);
    assert_eq!(store.checkpoint_lsn(), 100);
}

#[test]
fn test_evict_cold_pages_removes_oldest() {
    let mut disk = Disk::new();
    let mut store = disk.open();
    let config = BufferPoolConfig { max_pages: 5, eviction_batch_size: 2 };

    for i in 0..10u64 {
        let page = make_page(i as u8);
        store.put(i, &page, i + 1).unwrap();
    }

    assert_eq!(store.len(), 10);

    let evicted = disk.evict(&mut store, &config);
    assert_eq!(evicted, 7);
    assert_eq!(store.len(), 3);

    disk.checkpoint(&mut store);

    let pool_keys: std::collections::HashSet<_> = store.keys().into_iter().collect();
    assert!(pool_keys.contains(&7));
    assert!(pool_keys.contains(&8));
    assert!(pool_keys.contains(&9));
}

#[test]
fn test_evict_flushes_dirty_before_remove() {
    let mut disk = Disk::new();
    let mut store = disk.open();
    let config = BufferPoolConfig { max_pages: 3, eviction_batch_size: 1 };

    for i in 0..5u64 {
        let page = make_page((i + 1) as u8);
        store.put(i, &page, i + 1).unwrap();
    }

    assert_eq!(store.buffer_stats().dirty_count, 5);

    let evicted = disk.evict(&mut store, &config);
    assert!(evicted > 0);

    let mut store2 = disk.open();

    let page0 = disk.get(&mut store2, 0);
    assert!(page0.is_some(), "Evicted dirty page should be on disk");
    assert_eq!(page0.unwrap()[0], 1);
}

#[test]
fn test_maybe_evict() {
    let mut disk = Disk::new();
    let mut store = disk.open();
    let config = BufferPoolConfig { max_pages: 5, eviction_batch_size: 2 };

    for i in 0..4u64 {
        let page = make_page(i as u8);
        store.put(i, &page, i + 1).unwrap();
    }

    let evicted = disk.evict(&mut store, &config);
    assert_eq!(evicted, 0);
    assert_eq!(store.len(), 4);

    for i in 4..8u64 {
        let page = make_page(i as u8);
        store.put(i, &page, i + 1).unwrap();
    }
    assert_eq!(store.len(), 8);

    let evicted = disk.evict(&mut store, &config);
    assert!(evicted > 0);
    assert!(store.len() <= config.max_pages + config.eviction_batch_size);
}

#[test]
fn test_evict_no_op_when_under_limit() {
    let mut disk = Disk::new();
    let mut store = disk.open();
    let config = BufferPoolConfig { max_pages: 100, eviction_batch_size: 10 };

    for i in 0..5u64 {
        let page = make_page(i as u8);
        store.put(i, &page, i + 1).unwrap();
    }

    let evicted = disk.evict(&mut store, &config);
    assert_eq!(evicted, 0);
    assert_eq!(store.len(), 5);
}

#[test]
fn recently_used_pages_stay() {
    let mut disk = Disk::new();
    let mut store = disk.open();
    for i in 0..6u64 {
        store.put(i, &make_page(1), i + 1).unwrap();
    }
    assert!(store.get_with_lsn(0).is_some());
    let config = BufferPoolConfig { max_pages: 5, eviction_batch_size: 0 };
    assert_eq!(disk.evict(&mut store, &config), 1);
    assert_eq!(store.keys(), vec![0, 2, 3, 4, 5]);
    store.delete(3);
    assert_eq!(store.len(), 4);
}

#[test]
fn places_in_the_page_file() {
    let size = 3 * PAGE_SIZE as u64;
    assert_eq!(page_file_offset(2, size), Some(2 * PAGE_SIZE as u64));
    assert_eq!(page_file_offset(3, size), None);
    assert_eq!(
        page_file_write(4, &make_page(1), size).unwrap(),
        (4 * PAGE_SIZE as u64, 5 * PAGE_SIZE as u64)
    );
    assert_eq!(page_file_write(0, &make_page(1), size).unwrap(), (0, size));
    assert!(page_file_write(0, &[1], size).is_err());
    assert_eq!(next_scan_id(4, 9, 1, 2), Some(4));
    assert_eq!(next_scan_id(10, 9, 1, 2), None);
    assert_eq!(next_scan_id(4, 9, 2, 2), None);
    assert_eq!(CheckpointConfig::for_test().max_dirty_pages, 10);
    assert_eq!(BufferPoolConfig::for_test().eviction_batch_size, 5);
}
