use scale_kv::active_reads::ActiveReads;
use scale_kv::bptree::BPlusTree;
use scale_kv::common::{
    io_error_category, Error, ErrorCategory, IoError, IoErrorKind, KEY_SIZE,
};
use scale_kv::key_map::KeyMap;
use scale_kv::key_order::bytes_lt;
use scale_kv::key_set::KeySet;
use scale_kv::layout::{
    bytes_eq, copy_range, fill_zero, get_u16, get_u32, get_u64, push_u16, push_u32, push_u64,
    set_bytes, set_u16, set_u32, set_u64, zeroed,
};
use scale_kv::text::{
    contains_text, dec_string, lower_eq, padded_string, parse_number, strip_prefix, strip_suffix,
};

#[test]
fn test_active_reads_min() {
    let mut ar = ActiveReads::new();
    let g1 = ar.register(5);
    let g2 = ar.register(3);
    let g3 = ar.register(7);
    assert_eq!(ar.min_read_lsn(), Some(3));
    g2.release(&mut ar);
    assert_eq!(ar.min_read_lsn(), Some(5));
    g1.release(&mut ar);
    assert_eq!(ar.min_read_lsn(), Some(7));
    g3.release(&mut ar);
    assert_eq!(ar.min_read_lsn(), None);
    assert_eq!(ar.len(), 0);
}

#[test]
fn test_active_reads_abort_and_list() {
    let mut ar = ActiveReads::new();
    let g1 = ar.register(5);
    let g2 = ar.register(8);
    let listed = ar.list();
    assert_eq!(listed.len(), 2);
    assert!(listed.iter().any(|r| r.id == g1.id()));
    assert!(listed.iter().any(|r| r.id == g2.id()));
    assert!(ar.abort(g1.id()));
    assert!(!g1.is_active(&ar));
    assert!(g2.is_active(&ar));
}

#[test]
fn active_reads_of_one_lsn_are_counted_apart() {
    let mut ar = ActiveReads::new();
    let g1 = ar.register(5);
    let g2 = ar.register(5);
    assert_ne!(g1.id(), g2.id());
    assert!(!ar.abort(g2.id() + 100));
    let id = g1.id();
    g1.release(&mut ar);
    assert!(!ar.contains(id));
    assert_eq!(ar.min_read_lsn(), Some(5));
    assert_eq!(ar.len(), 1);
}

#[test]
fn test_insert_and_contains() {
    let mut tree = BPlusTree::new();
    for key in 1..=100u64 {
        tree.insert(key);
    }

    for key in 1..=100u64 {
        assert!(tree.contains(key));
    }
    assert!(!tree.contains(101));
}

#[test]
fn test_remove_and_contains() {
    let mut tree = BPlusTree::new();
    for key in 1..=32u64 {
        tree.insert(key);
    }

    for key in (1..=32u64).step_by(2) {
        tree.remove(key);
    }

    for key in 1..=32u64 {
        let expected = key % 2 == 0;
        assert_eq!(tree.contains(key), expected);
    }
}

#[test]
fn page_set_takes_keys_in_any_order() {
    let mut tree = BPlusTree::default();
    for i in 0..500u64 {
        tree.insert((i * 7919) % 1009);
    }
    tree.insert(7919 % 1009);
    for i in 0..500u64 {
        assert!(tree.contains((i * 7919) % 1009));
    }
    assert!(!tree.contains(1009));
    tree.remove(5000);
    tree.remove(0);
    assert!(!tree.contains(0));
}

#[test]
fn test_error_category_and_retryable() {
    let e = Error::Io(IoError::new(IoErrorKind::WouldBlock, "bp"));
    assert_eq!(e.category(), ErrorCategory::Backpressure);
    assert!(e.is_retryable());

    let e = Error::Io(IoError::new(IoErrorKind::NotFound, "missing"));
    assert_eq!(e.category(), ErrorCategory::InvalidInput);
    assert!(!e.is_retryable());

    let e = Error::InvalidKeySize(1, 16);
    assert_eq!(e.category(), ErrorCategory::InvalidInput);
    assert!(!e.is_retryable());
}

#[test]
fn every_error_has_its_category_and_text() {
    let cases = vec![
        (Error::Capnp("gone".to_string()), ErrorCategory::Unavailable, "capnp error: gone"),
        (
            Error::InvalidPageSize(3, 16384),
            ErrorCategory::InvalidInput,
            "invalid page size: 3 (expected 16384)",
        ),
        (
            Error::InvalidValueSize(9, 8),
            ErrorCategory::InvalidInput,
            "invalid value size: 9 (max 8)",
        ),
        (
            Error::InvalidKeySize(1, 16),
            ErrorCategory::InvalidInput,
            "invalid key size: 1 (expected 16)",
        ),
        (
            Error::InMemoryPageMissing(7),
            ErrorCategory::Internal,
            "in-memory page missing for page_id 7",
        ),
        (Error::TxnTimeout, ErrorCategory::Timeout, "transaction timed out"),
    ];
    for (err, category, text) in cases {
        assert_eq!(err.category(), category);
        assert_eq!(err.message(), text);
    }
    assert_eq!(Error::Io(IoError::new(IoErrorKind::Other, "x")).message(), "io error: x");
    assert!(Error::TxnTimeout.is_retryable());
    assert_eq!(io_error_category(IoErrorKind::TimedOut), ErrorCategory::Timeout);
    assert_eq!(io_error_category(IoErrorKind::BrokenPipe), ErrorCategory::Unavailable);
    assert_eq!(io_error_category(IoErrorKind::AlreadyExists), ErrorCategory::InvalidInput);
    assert_eq!(io_error_category(IoErrorKind::InvalidData), ErrorCategory::Internal);
}

#[test]
fn numbers_are_little_endian() {
    let mut b = zeroed(20);
    set_u16(&mut b, 0, 0x0102);
    set_u32(&mut b, 2, 0x03040506);
    set_u64(&mut b, 6, 0x0708090a0b0c0d0e);
    assert_eq!(&b[..14], &[2, 1, 6, 5, 4, 3, 14, 13, 12, 11, 10, 9, 8, 7]);
    assert_eq!(get_u16(&b, 0), 0x0102);
    assert_eq!(get_u32(&b, 2), 0x03040506);
    assert_eq!(get_u64(&b, 6), 0x0708090a0b0c0d0e);
    let mut c: Vec<u8> = Vec::new();
    push_u16(&mut c, 0x0102);
    push_u32(&mut c, 0x03040506);
    push_u64(&mut c, 0x0708090a0b0c0d0e);
    assert!(bytes_eq(&c, &copy_range(&b, 0, 14)));
    set_bytes(&mut b, 1, &[9, 9]);
    fill_zero(&mut b, 0, 2);
    assert_eq!(&b[..4], &[0, 0, 9, 5]);
}

#[test]
fn keys_are_ordered_as_byte_strings() {
    assert!(bytes_lt(b"ab", b"b"));
    assert!(bytes_lt(b"a", b"ab"));
    assert!(!bytes_lt(b"ab", b"ab"));
    assert!(!bytes_lt(b"b", b"ab"));
}

#[test]
fn key_map_keeps_one_value_per_key() {
    let mut m: KeyMap<u32> = KeyMap::new();
    m.insert([2u8; KEY_SIZE], 20);
    m.insert([1u8; KEY_SIZE], 10);
    m.insert([2u8; KEY_SIZE], 21);
    assert_eq!(m.entries.len(), 2);
    assert_eq!(m.get(&[2u8; KEY_SIZE]), Some(&21));
    assert_eq!(m.find(&[1u8; KEY_SIZE]), Ok(0));
    assert_eq!(m.find(&[0u8; KEY_SIZE]), Err(0));
    assert_eq!(m.find(&[9u8; KEY_SIZE]), Err(2));
    assert_eq!(m.get(&[9u8; KEY_SIZE]), None);
}

#[test]
fn key_set_holds_each_key_once() {
    let mut s = KeySet::new();
    assert!(s.is_empty());
    s.insert(b"k1");
    s.insert(b"k0");
    s.insert(b"k1");
    assert_eq!(s.keys.len(), 2);
    assert_eq!(s.duplicate().keys.len(), 2);
}

#[test]
fn text_helpers() {
    assert_eq!(dec_string(0), "0");
    assert_eq!(dec_string(u64::MAX), "18446744073709551615");
    assert_eq!(padded_string(7, 6), "000007");
    assert_eq!(parse_number("42", u64::MAX), Some(42));
    assert_eq!(parse_number("+42", u64::MAX), Some(42));
    assert_eq!(parse_number("", u64::MAX), None);
    assert_eq!(parse_number("4x", u64::MAX), None);
    assert_eq!(parse_number("256", 255), None);
    assert_eq!(strip_prefix("wal_1", "wal_"), Some("1"));
    assert_eq!(strip_prefix("w", "wal_"), None);
    assert_eq!(strip_suffix("1.log", ".log"), Some("1"));
    assert!(contains_text("abcd", "bc"));
    assert!(contains_text("abcd", ""));
    assert!(!contains_text("abcd", "ca"));
    assert!(lower_eq("PrOm", "prom"));
    assert!(!lower_eq("pro", "prom"));
}
