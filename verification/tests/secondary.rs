use scale_kv::common::{Error, ErrorCategory, IoErrorKind, KEY_SIZE, PAGE_SIZE, VALUE_SIZE};
use scale_kv::embedded::postings::{backfill_chunk_full, SecondaryIndexes};
use scale_kv::secondary_index::{
    SecondaryIndexDefinition, SecondaryIndexKind, SecondaryIndexManager, SecondaryIndexMutation,
};
use scale_kv::secondary_index_meta::{
    decode_secondary_index_catalog, encode_secondary_index_catalog, SecondaryIndexCatalog,
    SECONDARY_INDEX_META_PAGE_ID,
};
use scale_kv::secondary_posting_log::{
    append_record, decode_records, new_log_page, read_next_page_id, write_next_page_id,
    SecondaryPostingLogState,
};

#[test]
fn test_snapshot_visibility_on_membership_history() {
    let mut m = SecondaryIndexManager::default();
    m.create_btree_index("tag", 0, 2).unwrap();
    let pk = [7u8; KEY_SIZE];

    let mut v1 = [0u8; VALUE_SIZE];
    v1[0..2].copy_from_slice(b"aa");
    let mut v2 = [0u8; VALUE_SIZE];
    v2[0..2].copy_from_slice(b"bb");

    let muts = m.plan_mutations(pk, None, Some(&v1)).unwrap();
    m.apply_commit(10, &muts);
    let muts = m.plan_mutations(pk, Some(&v1), Some(&v2)).unwrap();
    m.apply_commit(20, &muts);

    let q10 = m.query_equal("tag", b"aa", 10, 10).unwrap();
    assert_eq!(q10, vec![pk]);
    let q15 = m.query_equal("tag", b"aa", 15, 10).unwrap();
    assert_eq!(q15, vec![pk]);
    let q20 = m.query_equal("tag", b"aa", 20, 10).unwrap();
    assert!(q20.is_empty());
    let q20b = m.query_equal("tag", b"bb", 20, 10).unwrap();
    assert_eq!(q20b, vec![pk]);
}

#[test]
fn test_same_commit_last_mutation_wins() {
    let mut m = SecondaryIndexManager::default();
    m.create_btree_index("tag", 0, 1).unwrap();
    let pk = [1u8; KEY_SIZE];
    m.apply_commit(
        42,
        &[
            SecondaryIndexMutation {
                index_name: "tag".to_string(),
                secondary_key: vec![1],
                primary_key: pk,
                present: true,
            },
            SecondaryIndexMutation {
                index_name: "tag".to_string(),
                secondary_key: vec![1],
                primary_key: pk,
                present: false,
            },
        ],
    );
    let q = m.query_equal("tag", &[1], 42, 10).unwrap();
    assert!(q.is_empty());
}

#[test]
fn test_plan_mutations_noop_when_key_unchanged() {
    let mut m = SecondaryIndexManager::default();
    m.create_btree_index("ix", 4, 4).unwrap();
    let pk = [2u8; KEY_SIZE];
    let mut v = [0u8; VALUE_SIZE];
    v[4..8].copy_from_slice(&[1, 2, 3, 4]);
    let muts = m.plan_mutations(pk, Some(&v), Some(&v)).unwrap();
    assert!(muts.is_empty());
}

#[test]
fn test_create_and_drop_index() {
    let mut m = SecondaryIndexManager::default();
    m.create_btree_index("ix", 0, 1).unwrap();
    let defs = m.list_indexes();
    assert_eq!(defs.len(), 1);
    assert_eq!(defs[0].name, "ix");
    assert!(m.drop_index("ix"));
    assert!(!m.drop_index("ix"));
}

#[test]
fn test_query_returns_not_found_for_missing_index() {
    let m = SecondaryIndexManager::default();
    let err = m.query_equal("missing", b"x", 1, 10).unwrap_err();
    match err {
        Error::Io(ioe) => assert_eq!(ioe.kind(), IoErrorKind::NotFound),
        other => panic!("unexpected error: {:?}", other),
    }
}

#[test]
fn test_primary_key_size_is_fixed() {
    let _ = std::collections::BTreeSet::<[u8; KEY_SIZE]>::new();
    let m = SecondaryIndexMutation {
        index_name: "tag".to_string(),
        secondary_key: vec![1],
        primary_key: [0u8; KEY_SIZE],
        present: true,
    };
    assert_eq!(m.primary_key.len(), KEY_SIZE);
}

#[test]
fn test_secondary_index_invalid_definition_and_query_errors() {
    let mut m = SecondaryIndexManager::new();

    let err = m.create_btree_index("bad", VALUE_SIZE, 8).unwrap_err();
    assert_eq!(err.category(), ErrorCategory::InvalidInput);

    m.create_btree_index("tag", 0, 2).unwrap();
    let dup_err = m.create_btree_index("tag", 0, 2).unwrap_err();
    assert_eq!(dup_err.category(), ErrorCategory::InvalidInput);

    let miss_err = m.query_equal("not_found", b"aa", 10, 10).unwrap_err();
    assert_eq!(miss_err.category(), ErrorCategory::InvalidInput);
}

#[test]
fn index_answers_in_key_order_up_to_the_limit() {
    let mut m = SecondaryIndexManager::new();
    m.create_btree_index("tag", 0, 1).unwrap();
    let v = [5u8; VALUE_SIZE];
    for i in [3u8, 1, 2] {
        let muts = m.plan_mutations([i; KEY_SIZE], None, Some(&v)).unwrap();
        m.apply_commit(i as u64, &muts);
    }
    let all = m.query_equal("tag", &[5], 3, 10).unwrap();
    assert_eq!(all, vec![[1u8; KEY_SIZE], [2u8; KEY_SIZE], [3u8; KEY_SIZE]]);
    assert_eq!(m.query_equal("tag", &[5], 3, 2).unwrap().len(), 2);
    assert_eq!(m.query_equal("tag", &[5], 2, 10).unwrap().len(), 2);
    assert!(m.query_equal("tag", &[6], 3, 10).unwrap().is_empty());
    let muts = m.plan_mutations([1; KEY_SIZE], Some(&v), None).unwrap();
    assert_eq!(muts.len(), 1);
    assert!(!muts[0].present);
    m.apply_commit(9, &muts);
    assert_eq!(m.query_equal("tag", &[5], 9, 10).unwrap().len(), 2);
    assert_eq!(m.query_equal("tag", &[5], 8, 10).unwrap().len(), 3);
}

fn catalog() -> SecondaryIndexCatalog {
    SecondaryIndexCatalog {
        defs: vec![
            SecondaryIndexDefinition {
                name: "tag".to_string(),
                kind: SecondaryIndexKind::Btree { value_offset: 0, value_len: 2 },
            },
            SecondaryIndexDefinition {
                name: "region".to_string(),
                kind: SecondaryIndexKind::Btree { value_offset: 8, value_len: 4 },
            },
        ],
        posting_log: SecondaryPostingLogState {
            head_page_id: 3_000_000,
            tail_page_id: 3_000_100,
            next_page_id: 3_000_101,
        },
    }
}

#[test]
fn test_catalog_roundtrip() {
    let catalog = catalog();
    let page = encode_secondary_index_catalog(&catalog).unwrap();
    let got = decode_secondary_index_catalog(&page).unwrap();
    assert_eq!(got, catalog);
}

#[test]
fn catalog_refuses_what_it_cannot_hold() {
    let mut c = catalog();
    c.defs[0].name = "n".repeat(49);
    assert!(encode_secondary_index_catalog(&c).is_err());
    assert!(decode_secondary_index_catalog(&vec![0u8; PAGE_SIZE]).is_err());
    assert!(matches!(
        decode_secondary_index_catalog(&[0u8; 5]),
        Err(Error::InvalidPageSize(5, 16384))
    ));
    let page = encode_secondary_index_catalog(&catalog()).unwrap();
    let mut bytes = page.to_vec();
    let at = bytes.windows(3).position(|w| w == b"tag").unwrap();
    bytes[at] = 0xff;
    assert!(decode_secondary_index_catalog(&bytes).is_err());
}

#[test]
fn test_log_page_append_and_decode() {
    let mut page = new_log_page().to_vec();
    let m = SecondaryIndexMutation {
        index_name: "tag".to_string(),
        secondary_key: b"aa".to_vec(),
        primary_key: [1u8; KEY_SIZE],
        present: true,
    };
    assert!(append_record(&mut page, 42, &m).unwrap());
    let recs = decode_records(&page).unwrap();
    assert_eq!(recs.len(), 1);
    assert_eq!(recs[0].0, 42);
    assert_eq!(recs[0].1, m);
}

#[test]
fn log_page_fills_up_and_keeps_its_link() {
    let mut page = new_log_page().to_vec();
    assert!(decode_records(&page).unwrap().is_empty());
    assert_eq!(read_next_page_id(&page).unwrap(), 0);
    write_next_page_id(&mut page, 77).unwrap();
    let m = SecondaryIndexMutation {
        index_name: "tag".to_string(),
        secondary_key: vec![3u8; 1000],
        primary_key: [1u8; KEY_SIZE],
        present: false,
    };
    let mut n: usize = 0;
    while append_record(&mut page, n as u64, &m).unwrap() {
        n += 1;
    }
    assert!(n > 10);
    let recs = decode_records(&page).unwrap();
    assert_eq!(recs.len(), n);
    assert_eq!(recs[n - 1].0, n as u64 - 1);
    assert_eq!(read_next_page_id(&page).unwrap(), 77);
    assert!(read_next_page_id(&vec![0u8; PAGE_SIZE]).is_err());
}

#[test]
fn posting_log_is_replayed_into_the_indexes() {
    let mut ix = SecondaryIndexes::new();
    ix.indexes.create_btree_index("tag", 0, 2).unwrap();
    let value = vec![9u8; VALUE_SIZE];
    let muts = ix.backfill_row("tag", &[4u8; KEY_SIZE], &value).unwrap();
    assert_eq!(muts.len(), 1);
    let pages = ix.append_posting_log(None, 30, &muts).unwrap();
    assert!(!pages.is_empty());
    let (id, catalog) = ix.catalog_page().unwrap();
    assert_eq!(id, SECONDARY_INDEX_META_PAGE_ID);

    let mut again = SecondaryIndexes::load_catalog(Some(&catalog)).unwrap();
    assert_eq!(again.indexes.list_indexes().len(), 1);
    assert_eq!(again.posting_log, ix.posting_log);
    let (count, next) = again.replay_page(&pages[0].1).unwrap();
    assert_eq!(count, 1);
    assert_eq!(next, 0);
    let q = again.indexes.query_equal("tag", &[9, 9], 30, 10).unwrap();
    assert_eq!(q, vec![[4u8; KEY_SIZE]]);
    assert!(SecondaryIndexes::load_catalog(None).unwrap().indexes.list_indexes().is_empty());
    assert!(backfill_chunk_full(1024));
    assert!(!backfill_chunk_full(1023));
}
