use kvs::Alloc;
use kvs::AllocStrategy;
use kvs::Grasshopper;
use kvs::Hole;
use kvs::KVStore;
use kvs::MemoryAdapter;
use kvs::RecordRef;
use kvs::StoreConfig;

const MAGIC: u32 = 0x4b1d;

type TinyStore = KVStore<MemoryAdapter, 32, 8>;

fn tiny_store() -> TinyStore {
    TinyStore::open(
        MemoryAdapter::new(vec![0u8; 1024]),
        StoreConfig::new(MAGIC, 32),
        true,
    )
    .unwrap()
}

#[test]
fn test_read_only_store_rejects_mutations() {
    let mut base = tiny_store();
    base.insert(b"foo", b"bar").unwrap();
    let memory = base.close().release();

    type ReadOnly = KVStore<MemoryAdapter, 32, 0>;
    let mut store = ReadOnly::open(
        MemoryAdapter::new(memory),
        StoreConfig::new(MAGIC, 32),
        false,
    )
    .unwrap();

    let mut scratch = vec![0u8; 16];
    let bucket = store.load(b"foo", &mut scratch).unwrap();
    assert_eq!(&scratch[..bucket.val_len()], b"bar");

    assert_eq!(store.insert(b"a", b"b").unwrap_err(), kvs::Error::ReadOnlyStore);
    assert_eq!(store.remove(b"foo").unwrap_err(), kvs::Error::ReadOnlyStore);
    assert_eq!(store.erase(b"foo", 0).unwrap_err(), kvs::Error::ReadOnlyStore);
    assert_eq!(store.patch(b"foo", 0, b"x").unwrap_err(), kvs::Error::ReadOnlyStore);
    assert_eq!(
        store.allocate(b"a", 1, None).unwrap_err(),
        kvs::Error::ReadOnlyStore
    );
}

#[test]
fn test_index_overflow_with_no_probe_budget() {
    let mut store = TinyStore::open(
        MemoryAdapter::new(vec![0u8; 1024]),
        StoreConfig::new(MAGIC, 0),
        true,
    )
    .unwrap();
    assert_eq!(store.insert(b"foo", b"bar").unwrap_err(), kvs::Error::IndexOverflow);

    let mut scratch = vec![0u8; 16];
    assert_eq!(
        store.load(b"foo", &mut scratch).unwrap_err(),
        kvs::Error::KeyNotFound
    );
}

#[test]
fn test_store_overflow_when_data_region_is_full() {
    // four buckets leave four data bytes in a 44-byte medium
    type CrampedStore = KVStore<MemoryAdapter, 4, 2>;
    let mut store = CrampedStore::open(
        MemoryAdapter::new(vec![0u8; 44]),
        StoreConfig::new(MAGIC, 4),
        true,
    )
    .unwrap();
    assert_eq!(store.insert(b"foo", b"bar").unwrap_err(), kvs::Error::StoreOverflow);
}

#[test]
fn test_load_truncates_to_buffer() {
    let mut store = tiny_store();
    store.insert(b"foo", b"bar").unwrap();

    let mut scratch = vec![0u8; 2];
    let bucket = store.load(b"foo", &mut scratch).unwrap();
    assert_eq!(bucket.val_len(), 3);
    assert_eq!(&scratch[..], b"ba");
}

#[test]
fn test_load_at_offset() {
    let mut store = tiny_store();
    store.insert(b"foo", b"bar baz").unwrap();

    let mut scratch = vec![0u8; 16];
    let bucket = store.load_at(b"foo", &mut scratch, 4).unwrap();
    assert_eq!(bucket.val_len(), 7);
    assert_eq!(&scratch[..3], b"baz");
}

#[test]
fn test_erase_overwrites_record_bytes() {
    let mut store = tiny_store();
    store.insert(b"k", b"secretdata").unwrap();
    store.erase(b"k", b'x').unwrap();

    let memory = store.close().release();
    assert!(!memory.windows(10).any(|w| w == b"secretdata"));
    // the 11-byte record (key and value) now reads as fill bytes
    assert!(memory.windows(11).any(|w| w == b"xxxxxxxxxxx"));
}

#[test]
fn test_grasshopper_is_deterministic() {
    let mut a = Grasshopper::<32>::new(8, 7, b"some key");
    let mut b = Grasshopper::<32>::new(8, 7, b"some key");
    assert_eq!(a.hash(), b.hash());
    let mut yielded = 0;
    loop {
        let x = a.next();
        let y = b.next();
        assert_eq!(x, y);
        match x {
            Some(i) => {
                assert!(i < 32);
                yielded += 1;
            }
            None => break,
        }
    }
    assert_eq!(yielded, 8);
}

#[test]
fn test_grasshopper_salting_changes_hash() {
    let unsalted = Grasshopper::<32>::new(8, 0, b"some key").hash();
    let salted = Grasshopper::<32>::new(8, 1, b"some key").hash();
    assert_ne!(unsalted, salted);
}

#[test]
fn test_alloc_anonymous_advances_slot() {
    let mut alloc = Alloc::<4>::new(AllocStrategy::MaxFit, 100, 100);
    assert_eq!(alloc.allocate(10, None), Some(100));
    assert_eq!(alloc.allocate(10, None), Some(110));
}

#[test]
fn test_alloc_directed_splits_slot() {
    let mut alloc = Alloc::<4>::new(AllocStrategy::MaxFit, 0, 100);
    assert_eq!(alloc.allocate(10, Some(45)), Some(45));
    // the slot split into [0, 45) and [55, 100); max-fit ties go to the
    // first in array order, so a same-size request comes from [0, 45)
    assert_eq!(alloc.allocate(20, None), Some(0));
}

#[test]
fn test_alloc_directed_needs_containing_slot() {
    let mut alloc = Alloc::<4>::new(AllocStrategy::MaxFit, 0, 100);
    assert_eq!(alloc.allocate(10, Some(95)), None);
    assert_eq!(alloc.allocate(10, Some(200)), None);
}

#[test]
fn test_alloc_split_needs_unused_entry() {
    let mut alloc = Alloc::<1>::new(AllocStrategy::MaxFit, 0, 100);
    // splitting [0, 100) needs a second slot entry, and there is none
    assert_eq!(alloc.allocate(10, Some(45)), None);
    assert_eq!(alloc.allocate(10, Some(0)), Some(0));
}

#[test]
fn test_alloc_first_fit_takes_first() {
    let mut alloc = Alloc::<4>::new(AllocStrategy::FirstFit, 0, 100);
    assert_eq!(alloc.allocate(10, Some(45)), Some(45));
    // slots are [0, 45) and [55, 100); first-fit ignores sizes
    assert_eq!(alloc.allocate(10, None), Some(0));
}

#[test]
fn test_alloc_min_fit_takes_smallest() {
    let mut alloc = Alloc::<4>::new(AllocStrategy::MinFit, 0, 100);
    assert_eq!(alloc.allocate(30, Some(40)), Some(40));
    // slots are [0, 40) and [70, 100); min-fit picks the 30-byte one
    assert_eq!(alloc.allocate(10, None), Some(70));
}

#[test]
fn test_free_coalesces_with_neighbors() {
    let mut alloc = Alloc::<4>::new(AllocStrategy::MaxFit, 0, 100);
    assert_eq!(alloc.allocate(100, None), Some(0));
    // nothing is free now; return the middle, then the ends
    alloc.free(40, 20);
    alloc.free(60, 20);
    alloc.free(80, 20);
    alloc.free(0, 40);
    // the frees coalesced into [40, 100) and [0, 40): every byte is free
    // again, in two adjacent slots
    assert_eq!(alloc.allocate(60, None), Some(40));
    assert_eq!(alloc.allocate(40, None), Some(0));
    assert_eq!(alloc.allocate(1, None), None);
}

#[test]
fn test_record_ref_packing() {
    let r = RecordRef { idx: 0, hash: 1, page: 0, len: 0 };
    assert_eq!(r.serialize(), vec![0, 0, 0, 1]);

    let r = RecordRef { idx: 0, hash: 0, page: 0, len: 1 };
    assert_eq!(r.serialize(), vec![0, 0, 8, 0]);

    let r = RecordRef { idx: 0, hash: 0, page: 1, len: 0 };
    assert_eq!(r.serialize(), vec![0, 128, 0, 0]);

    let r = RecordRef { idx: 0, hash: 2047, page: 386, len: 1532 };
    let parsed = RecordRef::deserialize(&r.serialize());
    assert_eq!(parsed, r);
    assert!(parsed.active());
    assert!(!RecordRef { idx: 0, hash: 9, page: 0, len: 3 }.active());
    assert_eq!(RecordRef { idx: 0, hash: 0, page: 0, len: 100 }.pages(32), 4);
    assert_eq!(RecordRef { idx: 0, hash: 0, page: 0, len: 96 }.pages(32), 3);
}

#[test]
fn test_hole_orders_by_size() {
    let mut h = Hole::new(10, 30);
    assert_eq!(h.size(), 20);
    let small = Hole::new(100, 105);
    assert!(small < h);
    assert!(h == Hole::new(10, 30));
    assert!(h != small);
    h.reset();
    assert_eq!(h.size(), 0);
    assert_eq!(h, Hole::new(0, 0));
}

#[test]
fn test_header_layout_is_big_endian() {
    let store = TinyStore::open(
        MemoryAdapter::new(vec![0u8; 1024]),
        StoreConfig::new(0x01020304, 32).nonce(0x0506),
        true,
    )
    .unwrap();
    let memory = store.close().release();
    assert_eq!(&memory[..8], &[1, 2, 3, 4, 5, 6, 0, 32]);
}
