use std::collections::HashSet;

use kvs::KVStore;
use kvs::MemoryAdapter;
use kvs::StoreConfig;

const MAGIC: u32 = 0x4b1d;
const STORE_SIZE: usize = 1024;
const BUCKETS: usize = 64;
const SLOTS: usize = 8;
const MAX_HOPS: usize = 64;

type Store = KVStore<MemoryAdapter, BUCKETS, SLOTS>;

fn create_store() -> Store {
    Store::open(
        MemoryAdapter::new(vec![0u8; STORE_SIZE]),
        StoreConfig::new(MAGIC, MAX_HOPS),
        true,
    )
    .unwrap()
}

#[test]
fn basic_test_test_create_store() {
    create_store();
}

#[test]
fn basic_test_test_create_invalid_store() {
    type TooSmallStore = KVStore<MemoryAdapter, BUCKETS, SLOTS>;

    let store = TooSmallStore::open(
        MemoryAdapter::new(vec![0u8; 2]),
        StoreConfig::new(MAGIC, MAX_HOPS),
        true,
    );
    assert!(store.is_err());
    if let Err(err) = store {
        assert_eq!(err, kvs::Error::AdapterError(()));
    }
}

#[test]
fn basic_test_test_reopen_store() {
    let adapter = create_store().close();

    let store = Store::open(adapter, StoreConfig::new(MAGIC, MAX_HOPS), false);
    assert!(store.is_ok());
}

#[test]
fn basic_test_test_reopen_store_with_invalid_magic() {
    let adapter = create_store().close();

    let store = Store::open(adapter, StoreConfig::new(MAGIC + 1, MAX_HOPS), false);
    assert!(store.is_err());
    if let Err(err) = store {
        assert_eq!(err, kvs::Error::StoreNotFound);
    }
}

#[test]
fn basic_test_test_reopen_store_with_invalid_buckets() {
    let adapter = create_store().close();

    type WrongCapacityStore = KVStore<MemoryAdapter, { BUCKETS * 2 }, SLOTS>;

    let store = WrongCapacityStore::open(adapter, StoreConfig::new(MAGIC, MAX_HOPS), false);
    assert!(store.is_err());
    if let Err(err) = store {
        assert_eq!(err, kvs::Error::InvalidCapacity);
    }
}

#[test]
fn basic_test_test_insert() {
    let mut store = create_store();
    let bucket = store.insert(b"foo", b"bar").unwrap();

    assert_eq!(bucket.key_len(), 3);
    assert_eq!(bucket.val_len(), 3);
    assert_eq!(bucket.record_len(), 6);
}

#[test]
fn basic_test_test_list_keys() {
    let mut check = HashSet::new();
    check.insert("foo");
    check.insert("bar");
    check.insert("baz");

    let mut store = create_store();
    store.insert(b"foo", b"bar").unwrap();
    store.insert(b"bar", b"barbaz").unwrap();
    store.insert(b"baz", b"foobarbaz").unwrap();

    let mut keys = store.keys();
    while let Some(key_ref) = keys.next(&mut store).unwrap() {
        let key = core::str::from_utf8(key_ref.key().as_slice()).unwrap();
        check.remove(key);
    }

    assert_eq!(check.len(), 0);
}

#[test]
fn basic_test_test_load() {
    let mut store = create_store();
    store.insert(b"foo", b"bar").unwrap();

    let mut scratch = vec![0u8; 16];
    let bucket = store.load(b"foo", &mut scratch).unwrap();

    assert_eq!(bucket.key_len(), 3);
    assert_eq!(bucket.val_len(), 3);
    assert_eq!(bucket.record_len(), 6);
    assert_eq!(&scratch[..bucket.val_len()], b"bar");
}

#[test]
fn basic_test_test_load_rewrited() {
    let mut store = create_store();
    store.insert(b"foo", b"Ba").unwrap();
    store.insert(b"foo", b"bar").unwrap();

    let mut scratch = vec![0u8; 16];
    let bucket = store.load(b"foo", &mut scratch).unwrap();

    assert_eq!(bucket.key_len(), 3);
    assert_eq!(bucket.val_len(), 3);
    assert_eq!(bucket.record_len(), 6);
    assert_eq!(&scratch[..bucket.val_len()], b"bar");
}

#[test]
fn basic_test_test_reopen() {
    let mut store = create_store();

    store.insert(b"foo", b"bar").unwrap();

    let adapter = store.close();
    let mut store = Store::open(adapter, StoreConfig::new(MAGIC, MAX_HOPS), false).unwrap();

    let mut scratch = vec![0u8; 16];
    let bucket = store.load(b"foo", &mut scratch).unwrap();

    assert_eq!(bucket.key_len(), 3);
    assert_eq!(bucket.val_len(), 3);
    assert_eq!(bucket.record_len(), 6);
    assert_eq!(&scratch[..bucket.val_len()], b"bar");
}

#[test]
fn basic_test_test_rewrite() {
    let mut store = create_store();

    store.insert(b"foo", b"Lorem").unwrap();
    store.insert(b"foo", b"ipsum").unwrap();
    store.insert(b"foo", b"dolor sit amet, consectetur adipiscing elit, sed do eiusmod tempor incididunt ut labore et dolore magna aliqua").unwrap();

    let mut scratch = vec![0u8; 16];
    let bucket = store.load(b"foo", &mut scratch).unwrap();
    assert_eq!(bucket.val_len(), 110);

    store.insert(b"foo", b"bar").unwrap();
    let bucket = store.load(b"foo", &mut scratch).unwrap();

    assert_eq!(bucket.key_len(), 3);
    assert_eq!(bucket.val_len(), 3);
    assert_eq!(bucket.record_len(), 6);
    assert_eq!(&scratch[..bucket.val_len()], b"bar");
}

#[test]
fn basic_test_test_patch() {
    let mut store = create_store();

    store.insert(b"foo", b"Bar").unwrap();
    let bucket = store.patch(b"foo", 0, b"b").unwrap();
    assert_eq!(bucket.key_len(), 3);

    let mut scratch = vec![0u8; 16];
    let bucket = store.load(b"foo", &mut scratch).unwrap();

    assert_eq!(bucket.key_len(), 3);
    assert_eq!(bucket.val_len(), 3);
    assert_eq!(bucket.record_len(), 6);
    assert_eq!(&scratch[..bucket.val_len()], b"bar");
}

#[test]
fn basic_test_test_append() {
    let mut store = create_store();

    store.insert(b"foo", b"bar").unwrap();

    let mut scratch = vec![0u8; 16];
    let bucket = store.load(b"foo", &mut scratch).unwrap();

    assert_eq!(bucket.key_len(), 3);
    assert_eq!(&scratch[..bucket.val_len()], b"bar");

    let bucket = store.append(b"foo", b" baz").unwrap();
    assert_eq!(bucket.val_len(), 7);

    let bucket = store.load(b"foo", &mut scratch).unwrap();

    assert_eq!(bucket.val_len(), 7);
    assert_eq!(&scratch[..bucket.val_len()], b"bar baz");
}

#[test]
fn basic_test_test_patch_with_hole() {
    let mut store = create_store();
    store.insert(b"foo", b"bar").unwrap();

    let err = store.patch(b"foo", 4, b"baz").unwrap_err();
    assert_eq!(err, kvs::Error::InvalidPatchOffset);
}

#[test]
fn basic_test_test_patch_resize() {
    let mut store = create_store();
    store.insert(b"foo", b"bar").unwrap();

    let bucket = store.patch(b"foo", 3, b" baz bar").unwrap();
    assert_eq!(bucket.val_len(), 11);

    let mut scratch = vec![0u8; 16];
    let bucket = store.load(b"foo", &mut scratch).unwrap();

    assert_eq!(bucket.val_len(), 11);
    assert_eq!(bucket.record_len(), 14);
    assert_eq!(&scratch[..bucket.val_len()], b"bar baz bar");
}

#[test]
fn basic_test_test_remove() {
    let mut store = create_store();
    store.insert(b"foo", b"bar").unwrap();

    store.remove(b"foo").unwrap();

    let mut scratch = vec![0u8; 16];
    let err = store.load(b"foo", &mut scratch).unwrap_err();
    assert_eq!(err, kvs::Error::KeyNotFound);

    store.insert(b"foo", b"bar").unwrap();
    let bucket = store.load(b"foo", &mut scratch).unwrap();

    assert_eq!(bucket.key_len(), 3);
    assert_eq!(bucket.val_len(), 3);
    assert_eq!(&scratch[..bucket.val_len()], b"bar");
}
