//! The bucket/record engine: a fixed-capacity persistent key-value store
//! over any byte adapter.
//!
//! `BUCKETS` buckets form the on-medium index; `SLOTS` free-list slots
//! track the data region, and `SLOTS == 0` marks a read-only store. The
//! free list is rebuilt lazily from the bucket table on the first mutation
//! after opening, by reserving each live record's exact range.
use crate::adapter::StoreAdapter;
use crate::bytes::bytes_eq;
use crate::freespace::can_alloc_directed;
use crate::freespace::can_free;
use crate::freespace::covered;
use crate::freespace::directed_effect;
use crate::freespace::free_extend_case;
use crate::freespace::ranges_disjoint;
use crate::freespace::slot_contains_range;
use crate::freespace::slot_empty;
use crate::freespace::slot_fits;
use crate::freespace::slots_wf;
use crate::freespace::Alloc;
use crate::freespace::AllocStrategy;
use crate::freespace::Slot;
use crate::grasshopper::key_hash;
use crate::grasshopper::probe_index;
use crate::grasshopper::Grasshopper;
use crate::layout::bucket_off;
use crate::layout::entry_at;
use crate::layout::entry_matches;
use crate::layout::entry_suitable;
use crate::layout::find_hop;
use crate::layout::found_index;
use crate::layout::key_at;
use crate::layout::occupied_at;
use crate::layout::rec_addr;
use crate::layout::rec_len;
use crate::layout::spec_data_start;
use crate::layout::val_at;
use crate::layout::BucketEntry;
use crate::Address;
use crate::Error;
use crate::MAX_KEY_LEN;
use crate::MAX_VALUE_LEN;
use vstd::prelude::*;

verus! {

/// What `open` needs to know: the store's magic number, the hashing nonce,
/// and the probe budget.
pub struct StoreConfig {
    magic: u32,
    nonce: u16,
    max_hops: usize,
}

impl StoreConfig {
    /// The configured magic number.
    pub closed spec fn spec_magic(&self) -> u32 {
        self.magic
    }

    /// The configured nonce.
    pub closed spec fn spec_nonce(&self) -> u16 {
        self.nonce
    }

    /// The configured probe budget.
    pub closed spec fn spec_max_hops(&self) -> usize {
        self.max_hops
    }

    /// A configuration with the given magic and probe budget, and nonce zero.
    pub fn new(magic: u32, max_hops: usize) -> (c: Self)
        ensures
            c.spec_magic() == magic,
            c.spec_nonce() == 0,
            c.spec_max_hops() == max_hops,
    {
        StoreConfig { magic, max_hops, nonce: 0 }
    }

    /// The same configuration with the nonce replaced.
    pub fn nonce(self, nonce: u16) -> (c: Self)
        ensures
            c.spec_magic() == self.spec_magic(),
            c.spec_nonce() == nonce,
            c.spec_max_hops() == self.spec_max_hops(),
    {
        let mut res = self;
        res.nonce = nonce;
        res
    }
}

/// A found or created bucket, handed back by the store's operations.
#[derive(Debug, Clone, Copy)]
pub struct Bucket {
    /// Position of the bucket in the table.
    pub index: usize,
    /// Address of the record in the data region.
    pub address: u32,
    /// Length of the record's key bytes.
    pub key_len: u8,
    /// Length of the record's value bytes.
    pub val_len: u16,
    /// 16-bit hash summary of the key.
    pub hash: u16,
}

impl Bucket {
    /// The bucket's entry as it stands on the medium.
    pub open spec fn entry(&self) -> BucketEntry {
        BucketEntry {
            val_len: self.val_len,
            key_len: self.key_len,
            address: self.address,
            hash: self.hash,
        }
    }

    /// Length of the record's key bytes.
    pub fn key_len(&self) -> (r: usize)
        ensures
            r == self.key_len,
    {
        self.key_len as usize
    }

    /// Length of the record's value bytes.
    pub fn val_len(&self) -> (r: usize)
        ensures
            r == self.val_len,
    {
        self.val_len as usize
    }

    /// Length of the whole record: key bytes plus value bytes.
    pub fn record_len(&self) -> (r: usize)
        ensures
            r == self.key_len + self.val_len,
    {
        self.key_len as usize + self.val_len as usize
    }
}

/// First byte past the reachable data region: the medium's end, capped at
/// what a 24-bit record address can reach.
pub open spec fn spec_data_end(mem: Seq<u8>) -> int {
    if mem.len() <= 0x1000000 {
        mem.len() as int
    } else {
        0x1000000
    }
}

/// Every occupied bucket's record lies inside the data region.
pub open spec fn records_wf(mem: Seq<u8>, n: int) -> bool {
    forall|i: int|
        0 <= i < n && #[trigger] occupied_at(mem, i) ==> spec_data_start(n) <= rec_addr(mem, i)
            && rec_addr(mem, i) + rec_len(mem, i) <= spec_data_end(mem)
}

/// No two occupied buckets' records share a byte.
pub open spec fn records_disjoint(mem: Seq<u8>, n: int) -> bool {
    forall|i: int, j: int|
        0 <= i < n && 0 <= j < n && i != j && #[trigger] occupied_at(mem, i)
            && #[trigger] occupied_at(mem, j) ==> ranges_disjoint(
            rec_addr(mem, i),
            rec_addr(mem, i) + rec_len(mem, i),
            rec_addr(mem, j),
            rec_addr(mem, j) + rec_len(mem, j),
        )
}

/// Every non-empty free slot lies inside the data region.
pub open spec fn slots_in_data(ss: Seq<Slot>, mem: Seq<u8>, n: int) -> bool {
    forall|k: int|
        0 <= k < ss.len() && !slot_empty(#[trigger] ss[k]) ==> spec_data_start(n) <= ss[k].start
            && ss[k].end <= spec_data_end(mem)
}

/// No free slot shares a byte with any occupied bucket's record.
pub open spec fn slots_records_disjoint(ss: Seq<Slot>, mem: Seq<u8>, n: int) -> bool {
    forall|i: int, k: int|
        0 <= i < n && #[trigger] occupied_at(mem, i) && 0 <= k < ss.len() ==> ranges_disjoint(
            rec_addr(mem, i),
            rec_addr(mem, i) + rec_len(mem, i),
            (#[trigger] ss[k]).start as int,
            ss[k].end as int,
        )
}

/// Invariant I2, restricted to the first `upto` buckets: the free slots and
/// the occupied records together cover exactly the data region, with no
/// byte unaccounted for.
pub open spec fn region_covered(mem: Seq<u8>, n: int, upto: int, ss: Seq<Slot>) -> bool {
    forall|x: int|
        (spec_data_start(n) <= x < spec_data_end(mem)) <==> (#[trigger] covered(ss, x)
            || exists|i: int|
            0 <= i < upto && #[trigger] occupied_at(mem, i) && rec_addr(mem, i) <= x < rec_addr(
                mem,
                i,
            ) + rec_len(mem, i))
}

/// The free list and the bucket table are mutually consistent: free slots
/// are disjoint ranges inside the data region, records lie in the data
/// region, and no byte is both free and part of a record or of two records.
pub open spec fn index_wf(mem: Seq<u8>, n: int, ss: Seq<Slot>) -> bool {
    &&& slots_wf(ss)
    &&& slots_in_data(ss, mem, n)
    &&& records_wf(mem, n)
    &&& records_disjoint(mem, n)
    &&& slots_records_disjoint(ss, mem, n)
}

/// A freshly created store's bytes: the header holds the given fields and
/// every bucket is empty.
pub open spec fn fresh_layout(mem: Seq<u8>, magic: u32, nonce: u16, n: int) -> bool {
    &&& mem.len() >= spec_data_start(n)
    &&& crate::layout::mem_magic(mem) == magic
    &&& crate::layout::mem_nonce(mem) == nonce
    &&& crate::layout::mem_buckets(mem) == n
    &&& forall|i: int| 0 <= i < n ==> entry_at(mem, i) == crate::layout::empty_entry()
}


/// What a successful insert of `key -> val` did to the medium: the first
/// suitable bucket of the probe walk (empty, or already holding `key`) now
/// holds the record, whose bytes are `key` then `val` at a fresh address in
/// the data region; every other bucket's entry and record bytes, and the
/// header, are untouched; and looking `key` up in the new bytes finds
/// exactly this bucket.
pub open spec fn inserted(
    m0: Seq<u8>,
    m1: Seq<u8>,
    nonce: u16,
    hops: nat,
    n: nat,
    key: Seq<u8>,
    val: Seq<u8>,
    b: Bucket,
) -> bool {
    &&& m1.len() == m0.len()
    &&& {
        let ch = crate::layout::choice_hop(m0, nonce, key, hops, n);
        ch is Some && b.index == probe_index(nonce, key, ch.unwrap(), n)
    }
    &&& find_hop(m1, nonce, key, hops, n) == crate::layout::choice_hop(m0, nonce, key, hops, n)
    &&& found_index(m1, nonce, key, hops, n) == Some(b.index as int)
    &&& b.index < n
    &&& b.key_len == key.len()
    &&& b.val_len == val.len()
    &&& b.hash == key_hash(nonce, key)
    &&& entry_at(m1, b.index as int) == b.entry()
    &&& spec_data_start(n as int) <= b.address
    &&& b.address + key.len() + val.len() <= m1.len()
    &&& b.address + key.len() + val.len() <= 0x1000000
    &&& key_at(m1, b.index as int) == key
    &&& val_at(m1, b.index as int) == val
    &&& forall|j: int| 0 <= j < n && j != b.index ==> entry_at(m1, j) == entry_at(m0, j)
    &&& forall|j: int|
        0 <= j < n && j != b.index && #[trigger] occupied_at(m0, j) ==> key_at(m1, j) == key_at(
            m0,
            j,
        ) && val_at(m1, j) == val_at(m0, j)
    &&& forall|j: int| 0 <= j < 8 ==> m1[j] == m0[j]
}

/// After freeing the replaced record's range (or freeing nothing, on a
/// fresh insert), every slot still lies in the data region, and every other
/// occupied bucket's record is still disjoint from every slot.
proof fn lemma_freed_slots_fit(
    m0: Seq<u8>,
    n: int,
    ss0: Seq<Slot>,
    ssf: Seq<Slot>,
    i: int,
    existing: Option<BucketEntry>,
)
    requires
        index_wf(m0, n, ss0),
        0 <= i < n,
        ssf.len() == ss0.len(),
        match existing {
            None => ssf == ss0,
            Some(e) => occupied_at(m0, i) && e == entry_at(m0, i) && forall|k: int|
                0 <= k < ss0.len() ==> ((#[trigger] ssf[k]) == ss0[k] || free_extend_case(
                    ss0[k],
                    ssf[k],
                    rec_addr(m0, i),
                    rec_len(m0, i),
                )),
        },
    ensures
        slots_in_data(ssf, m0, n),
        forall|j: int, k: int|
            0 <= j < n && j != i && #[trigger] occupied_at(m0, j) && 0 <= k < ssf.len()
                ==> ranges_disjoint(
                rec_addr(m0, j),
                rec_addr(m0, j) + rec_len(m0, j),
                (#[trigger] ssf[k]).start as int,
                ssf[k].end as int,
            ),
{
    match existing {
        None => {},
        Some(e) => {
            assert forall|k: int|
                0 <= k < ssf.len() && !slot_empty(#[trigger] ssf[k]) implies spec_data_start(n)
                <= ssf[k].start && ssf[k].end <= spec_data_end(m0) by {
                if ssf[k] != ss0[k] {
                    assert(free_extend_case(ss0[k], ssf[k], rec_addr(m0, i), rec_len(m0, i)));
                }
            }
            assert forall|j: int, k: int|
                0 <= j < n && j != i && #[trigger] occupied_at(m0, j) && 0 <= k
                    < ssf.len() implies ranges_disjoint(
                rec_addr(m0, j),
                rec_addr(m0, j) + rec_len(m0, j),
                (#[trigger] ssf[k]).start as int,
                ssf[k].end as int,
            ) by {
                assert(ranges_disjoint(
                    rec_addr(m0, j),
                    rec_addr(m0, j) + rec_len(m0, j),
                    ss0[k].start as int,
                    ss0[k].end as int,
                ));
                assert(ranges_disjoint(
                    rec_addr(m0, j),
                    rec_addr(m0, j) + rec_len(m0, j),
                    rec_addr(m0, i),
                    rec_addr(m0, i) + rec_len(m0, i),
                ));
                if ssf[k] != ss0[k] {
                    assert(free_extend_case(ss0[k], ssf[k], rec_addr(m0, i), rec_len(m0, i)));
                }
            }
        },
    }
}

/// The three writes of an insert — key bytes, value bytes, bucket entry —
/// produce exactly the `inserted` relation.
#[verifier::rlimit(30)]
proof fn lemma_insert_writes(
    m0: Seq<u8>,
    mk: Seq<u8>,
    mv: Seq<u8>,
    m1: Seq<u8>,
    nonce: u16,
    hops: nat,
    n: int,
    key: Seq<u8>,
    val: Seq<u8>,
    b: Bucket,
    ssf: Seq<Slot>,
    k_pick: int,
    existing: Option<BucketEntry>,
)
    requires
        0 < n <= 0xffff,
        0 < key.len() <= MAX_KEY_LEN,
        0 < val.len() <= MAX_VALUE_LEN,
        records_wf(m0, n),
        records_disjoint(m0, n),
        forall|j: int, k: int|
            0 <= j < n && j != b.index && #[trigger] occupied_at(m0, j) && 0 <= k < ssf.len()
                ==> ranges_disjoint(
                rec_addr(m0, j),
                rec_addr(m0, j) + rec_len(m0, j),
                (#[trigger] ssf[k]).start as int,
                ssf[k].end as int,
            ),
        0 <= k_pick < ssf.len(),
        slot_contains_range(ssf[k_pick], b.address as int, key.len() + val.len() as int),
        slots_in_data(ssf, m0, n),
        ({
            let ch = crate::layout::choice_hop(m0, nonce, key, hops, n as nat);
            ch is Some && b.index == probe_index(nonce, key, ch.unwrap(), n as nat)
        }),
        match existing {
            Some(e) => entry_matches(m0, b.index as int, nonce, key),
            None => !occupied_at(m0, b.index as int),
        },
        b.index < n,
        b.key_len == key.len(),
        b.val_len == val.len(),
        b.hash == key_hash(nonce, key),
        mk == crate::layout::write_bytes(m0, b.address as int, key),
        mv == crate::layout::write_bytes(mk, b.address + key.len(), val),
        m1 == crate::layout::write_bytes(
            mv,
            bucket_off(b.index as int),
            crate::layout::entry_bytes(b.entry()),
        ),
        spec_data_start(n) <= b.address,
        b.address + key.len() + val.len() <= spec_data_end(m0),
        spec_data_start(n) <= m0.len(),
    ensures
        inserted(m0, m1, nonce, hops, n as nat, key, val, b),
{
    let idx = b.index as int;
    let a = b.address as int;
    let klen = key.len() as int;
    let vlen = val.len() as int;
    let off = bucket_off(idx);
    assert(m1.len() == m0.len());
    assert(off + 8 <= spec_data_start(n) <= a);
    // the entry of the chosen bucket is the written entry
    assert(m1.subrange(off, off + 8) =~= crate::layout::entry_bytes(b.entry()));
    crate::layout::lemma_entry_roundtrip(b.entry());
    assert(entry_at(m1, idx) == b.entry());
    // the record bytes are the key then the value
    assert(key_at(m1, idx) =~= key);
    assert(val_at(m1, idx) =~= val);
    // every other bucket's entry is untouched
    assert forall|j: int| 0 <= j < n && j != idx implies entry_at(m1, j) == entry_at(m0, j) by {
        assert(bucket_off(j) + 8 <= spec_data_start(n));
        crate::layout::lemma_entry_frame(m0, m1, j);
    }
    // every other occupied bucket's record bytes are untouched
    assert forall|j: int| 0 <= j < n && j != idx && #[trigger] occupied_at(m0, j) implies key_at(
        m1,
        j,
    ) == key_at(m0, j) && val_at(m1, j) == val_at(m0, j) by {
        assert(ranges_disjoint(
            rec_addr(m0, j),
            rec_addr(m0, j) + rec_len(m0, j),
            ssf[k_pick].start as int,
            ssf[k_pick].end as int,
        ));
        assert forall|x: int|
            rec_addr(m0, j) <= x < rec_addr(m0, j) + rec_len(m0, j) implies m1[x] == m0[x] by {}
        crate::layout::lemma_agree_subrange(
            m0,
            m1,
            rec_addr(m0, j),
            rec_addr(m0, j) + rec_len(m0, j),
        );
        assert(key_at(m1, j) =~= key_at(m0, j));
        assert(val_at(m1, j) =~= val_at(m0, j));
    }
    // looking the key up in the new bytes stops at the chosen bucket
    let h = crate::layout::choice_hop(m0, nonce, key, hops, n as nat).unwrap();
    crate::layout::lemma_choice_hop_from_spec(m0, nonce, key, 0, hops, n as nat);
    assert(entry_matches(m1, idx, nonce, key));
    assert forall|g: nat| g < h implies !entry_matches(
        m1,
        #[trigger] probe_index(nonce, key, g, n as nat) as int,
        nonce,
        key,
    ) by {
        let ig = probe_index(nonce, key, g, n as nat) as int;
        assert(!entry_suitable(m0, ig, nonce, key));
        assert(occupied_at(m0, ig));
        assert(ig != idx);
        assert(entry_at(m1, ig) == entry_at(m0, ig));
        if entry_at(m0, ig).hash == key_hash(nonce, key) && entry_at(m0, ig).key_len == key.len()
            && entry_at(m0, ig).address + key.len() <= m0.len() {
            assert(key_at(m1, ig) == key_at(m0, ig));
            assert(key_at(m0, ig) != key);
        }
    }
    crate::layout::lemma_find_hop_is(m1, nonce, key, hops, n as nat, h);
}

/// After an insert's writes, the free list (with the fresh range carved
/// out) and the new bucket table are again mutually consistent.
proof fn lemma_insert_wf(
    m0: Seq<u8>,
    m1: Seq<u8>,
    n: int,
    ssf: Seq<Slot>,
    ss1: Seq<Slot>,
    k_pick: int,
    b: Bucket,
    existing: Option<BucketEntry>,
)
    requires
        0 < n <= 0xffff,
        records_wf(m0, n),
        slots_wf(ssf),
        slots_in_data(ssf, m0, n),
        forall|j: int, k: int|
            0 <= j < n && j != b.index && #[trigger] occupied_at(m0, j) && 0 <= k < ssf.len()
                ==> ranges_disjoint(
                rec_addr(m0, j),
                rec_addr(m0, j) + rec_len(m0, j),
                (#[trigger] ssf[k]).start as int,
                ssf[k].end as int,
            ),
        records_disjoint(m0, n),
        0 <= k_pick < ssf.len(),
        slot_contains_range(ssf[k_pick], b.address as int, b.key_len + b.val_len),
        ss1 == ssf.update(
            k_pick,
            Slot { start: (b.address + b.key_len + b.val_len) as usize, end: ssf[k_pick].end },
        ),
        b.key_len > 0,
        b.index < n,
        m1.len() == m0.len(),
        entry_at(m1, b.index as int) == b.entry(),
        forall|j: int| 0 <= j < n && j != b.index ==> entry_at(m1, j) == entry_at(m0, j),
        b.address + b.key_len + b.val_len <= spec_data_end(m0),
        spec_data_start(n) <= b.address,
    ensures
        index_wf(m1, n, ss1),
{
    let idx = b.index as int;
    let a = b.address as int;
    let total = b.key_len + b.val_len;
    assert(slots_wf(ss1));
    assert(spec_data_end(m1) == spec_data_end(m0));
    assert forall|k: int|
        0 <= k < ss1.len() && !slot_empty(#[trigger] ss1[k]) implies spec_data_start(n)
        <= ss1[k].start && ss1[k].end <= spec_data_end(m1) by {
        if k != k_pick {
            assert(ss1[k] == ssf[k]);
        }
    }
    assert forall|i: int| 0 <= i < n && #[trigger] occupied_at(m1, i) implies spec_data_start(n)
        <= rec_addr(m1, i) && rec_addr(m1, i) + rec_len(m1, i) <= spec_data_end(m1) by {
        if i != idx {
            assert(occupied_at(m0, i));
        }
    }
    assert forall|i: int, j: int|
        0 <= i < n && 0 <= j < n && i != j && #[trigger] occupied_at(m1, i)
            && #[trigger] occupied_at(m1, j) implies ranges_disjoint(
        rec_addr(m1, i),
        rec_addr(m1, i) + rec_len(m1, i),
        rec_addr(m1, j),
        rec_addr(m1, j) + rec_len(m1, j),
    ) by {
        if i != idx && j != idx {
            assert(occupied_at(m0, i) && occupied_at(m0, j));
        } else {
            let other = if i == idx {
                j
            } else {
                i
            };
            assert(occupied_at(m0, other));
            assert(ranges_disjoint(
                rec_addr(m0, other),
                rec_addr(m0, other) + rec_len(m0, other),
                ssf[k_pick].start as int,
                ssf[k_pick].end as int,
            ));
        }
    }
    assert forall|i: int, k: int|
        0 <= i < n && #[trigger] occupied_at(m1, i) && 0 <= k < ss1.len() implies ranges_disjoint(
        rec_addr(m1, i),
        rec_addr(m1, i) + rec_len(m1, i),
        (#[trigger] ss1[k]).start as int,
        ss1[k].end as int,
    ) by {
        if i == idx {
            if k == k_pick {
            } else {
                assert(ss1[k] == ssf[k]);
                assert(ranges_disjoint(
                    ssf[k_pick].start as int,
                    ssf[k_pick].end as int,
                    ssf[k].start as int,
                    ssf[k].end as int,
                ));
            }
        } else {
            assert(occupied_at(m0, i));
            assert(ranges_disjoint(
                rec_addr(m0, i),
                rec_addr(m0, i) + rec_len(m0, i),
                ssf[k].start as int,
                ssf[k].end as int,
            ));
            if k != k_pick {
                assert(ss1[k] == ssf[k]);
            }
        }
    }
}

/// What removing `key` did to the medium: if lookup would not have found
/// the key, nothing; otherwise the found bucket's entry is zeroed and every
/// other byte — header, other entries, the whole data region — keeps its
/// value (the record's bytes stay on the medium; `erase` is the variant
/// that overwrites them).
pub open spec fn removed_key(
    m0: Seq<u8>,
    m1: Seq<u8>,
    nonce: u16,
    hops: nat,
    n: nat,
    key: Seq<u8>,
) -> bool {
    match found_index(m0, nonce, key, hops, n) {
        None => m1 == m0,
        Some(idx) => {
            &&& m1.len() == m0.len()
            &&& entry_at(m1, idx) == crate::layout::empty_entry()
            &&& forall|j: int| 0 <= j < n && j != idx ==> entry_at(m1, j) == entry_at(m0, j)
            &&& forall|x: int| 0 <= x < 8 ==> m1[x] == m0[x]
            &&& forall|x: int| spec_data_start(n as int) <= x < m0.len() ==> m1[x] == m0[x]
        },
    }
}

/// What erasing `key` did to the medium: as `removed_key`, except that the
/// record's own bytes are overwritten with the fill byte.
pub open spec fn erased_key(
    m0: Seq<u8>,
    m1: Seq<u8>,
    nonce: u16,
    hops: nat,
    n: nat,
    key: Seq<u8>,
    fill: u8,
) -> bool {
    match found_index(m0, nonce, key, hops, n) {
        None => m1 == m0,
        Some(idx) => {
            &&& m1.len() == m0.len()
            &&& entry_at(m1, idx) == crate::layout::empty_entry()
            &&& forall|j: int| 0 <= j < n && j != idx ==> entry_at(m1, j) == entry_at(m0, j)
            &&& forall|x: int| 0 <= x < 8 ==> m1[x] == m0[x]
            &&& forall|x: int|
                rec_addr(m0, idx) <= x < rec_addr(m0, idx) + rec_len(m0, idx) ==> m1[x] == fill
            &&& forall|x: int|
                spec_data_start(n as int) <= x < m0.len() && !(rec_addr(m0, idx) <= x < rec_addr(
                    m0,
                    idx,
                ) + rec_len(m0, idx)) ==> m1[x] == m0[x]
        },
    }
}

/// Writing the all-zero entry over bucket `idx` empties exactly that
/// bucket: every other entry and every byte outside the entry's 8 bytes
/// keeps its value.
proof fn lemma_zeroed_entry(m0: Seq<u8>, m1: Seq<u8>, n: int, idx: int)
    requires
        0 < n <= 0xffff,
        0 <= idx < n,
        spec_data_start(n) <= m0.len(),
        m1 == crate::layout::write_bytes(
            m0,
            bucket_off(idx),
            crate::layout::entry_bytes(crate::layout::empty_entry()),
        ),
    ensures
        m1.len() == m0.len(),
        entry_at(m1, idx) == crate::layout::empty_entry(),
        !occupied_at(m1, idx),
        forall|j: int| 0 <= j < n && j != idx ==> entry_at(m1, j) == entry_at(m0, j),
        forall|x: int|
            0 <= x < m0.len() && !(bucket_off(idx) <= x < bucket_off(idx) + 8) ==> m1[x] == m0[x],
{
    assert(m1.subrange(bucket_off(idx), bucket_off(idx) + 8) =~= crate::layout::entry_bytes(
        crate::layout::empty_entry(),
    ));
    crate::layout::lemma_entry_roundtrip(crate::layout::empty_entry());
    assert forall|j: int| 0 <= j < n && j != idx implies entry_at(m1, j) == entry_at(m0, j) by {
        crate::layout::lemma_entry_frame(m0, m1, j);
    }
}

/// Zeroing one occupied bucket's entry and returning its range to the free
/// list leaves the free list and the table mutually consistent.
proof fn lemma_remove_wf(
    m0: Seq<u8>,
    m1: Seq<u8>,
    n: int,
    ss0: Seq<Slot>,
    ssf: Seq<Slot>,
    idx: int,
)
    requires
        index_wf(m0, n, ss0),
        0 <= idx < n,
        occupied_at(m0, idx),
        m1.len() == m0.len(),
        !occupied_at(m1, idx),
        forall|j: int| 0 <= j < n && j != idx ==> entry_at(m1, j) == entry_at(m0, j),
        ssf.len() == ss0.len(),
        slots_wf(ssf),
        forall|k: int|
            0 <= k < ss0.len() ==> ((#[trigger] ssf[k]) == ss0[k] || free_extend_case(
                ss0[k],
                ssf[k],
                rec_addr(m0, idx),
                rec_len(m0, idx),
            )),
    ensures
        index_wf(m1, n, ssf),
{
    lemma_freed_slots_fit(m0, n, ss0, ssf, idx, Some(entry_at(m0, idx)));
    assert(spec_data_end(m1) == spec_data_end(m0));
    assert forall|i: int| 0 <= i < n && #[trigger] occupied_at(m1, i) implies spec_data_start(n)
        <= rec_addr(m1, i) && rec_addr(m1, i) + rec_len(m1, i) <= spec_data_end(m1) by {
        assert(i != idx);
        assert(occupied_at(m0, i));
    }
    assert forall|i: int, j: int|
        0 <= i < n && 0 <= j < n && i != j && #[trigger] occupied_at(m1, i)
            && #[trigger] occupied_at(m1, j) implies ranges_disjoint(
        rec_addr(m1, i),
        rec_addr(m1, i) + rec_len(m1, i),
        rec_addr(m1, j),
        rec_addr(m1, j) + rec_len(m1, j),
    ) by {
        assert(occupied_at(m0, i) && occupied_at(m0, j));
    }
    assert forall|i: int, k: int|
        0 <= i < n && #[trigger] occupied_at(m1, i) && 0 <= k < ssf.len() implies ranges_disjoint(
        rec_addr(m1, i),
        rec_addr(m1, i) + rec_len(m1, i),
        (#[trigger] ssf[k]).start as int,
        ssf[k].end as int,
    ) by {
        assert(i != idx);
        assert(occupied_at(m0, i));
    }
}

/// What patching `key` at `off` with bytes `p` did to the medium: the found
/// bucket keeps its address, key and hash; its value length grows to cover
/// the patch when the patch reaches past the old end; the new value bytes
/// are the old ones with `p` written at `off`; nothing else changes, and
/// the key is still found at the same bucket afterwards.
pub open spec fn patched(
    m0: Seq<u8>,
    m1: Seq<u8>,
    nonce: u16,
    hops: nat,
    n: nat,
    key: Seq<u8>,
    off: int,
    p: Seq<u8>,
    b: Bucket,
) -> bool {
    let e0 = entry_at(m0, b.index as int);
    let oldv = val_at(m0, b.index as int);
    &&& found_index(m0, nonce, key, hops, n) == Some(b.index as int)
    &&& found_index(m1, nonce, key, hops, n) == Some(b.index as int)
    &&& m1.len() == m0.len()
    &&& b.index < n
    &&& 0 <= off <= e0.val_len
    &&& b.key_len == key.len()
    &&& b.address == e0.address
    &&& b.hash == e0.hash
    &&& b.val_len == if off + p.len() > e0.val_len {
        off + p.len()
    } else {
        e0.val_len as int
    }
    &&& entry_at(m1, b.index as int) == b.entry()
    &&& key_at(m1, b.index as int) == key
    &&& val_at(m1, b.index as int) == (if off + p.len() >= e0.val_len {
        oldv.take(off) + p
    } else {
        oldv.take(off) + p + oldv.skip(off + p.len())
    })
    &&& forall|j: int| 0 <= j < n && j != b.index ==> entry_at(m1, j) == entry_at(m0, j)
    &&& forall|j: int|
        0 <= j < n && j != b.index && #[trigger] occupied_at(m0, j) ==> key_at(m1, j) == key_at(
            m0,
            j,
        ) && val_at(m1, j) == val_at(m0, j)
    &&& forall|x: int| 0 <= x < 8 ==> m1[x] == m0[x]
}

/// Two byte states whose buckets match a key at exactly the same probe
/// positions are looked up alike.
pub proof fn lemma_find_hop_congruence(
    m0: Seq<u8>,
    m1: Seq<u8>,
    nonce: u16,
    key: Seq<u8>,
    from: nat,
    hops: nat,
    n: nat,
)
    requires
        forall|g: nat|
            from <= g < hops ==> (entry_matches(
                m1,
                #[trigger] probe_index(nonce, key, g, n) as int,
                nonce,
                key,
            ) == entry_matches(m0, probe_index(nonce, key, g, n) as int, nonce, key)),
    ensures
        crate::layout::find_hop_from(m1, nonce, key, from, hops, n)
            == crate::layout::find_hop_from(m0, nonce, key, from, hops, n),
    decreases hops - from,
{
    if from >= hops {
    } else {
        lemma_find_hop_congruence(m0, m1, nonce, key, from + 1, hops, n);
    }
}

/// After a patch's writes — an optional in-place growth of the record, the
/// updated entry, and the patch bytes — the store is consistent again and
/// the `patched` relation holds.
proof fn lemma_patch_frames(
    m0: Seq<u8>,
    m1: Seq<u8>,
    nonce: u16,
    hops: nat,
    n: int,
    key: Seq<u8>,
    idx: int,
    lo: int,
    hi: int,
)
    requires
        0 < n <= 0xffff,
        m1.len() == m0.len(),
        0 <= idx < n,
        occupied_at(m0, idx),
        records_wf(m0, n),
        spec_data_start(n) <= rec_addr(m0, idx),
        rec_addr(m0, idx) + entry_at(m0, idx).key_len <= lo,
        lo <= hi <= m0.len(),
        found_index(m0, nonce, key, hops, n as nat) == Some(idx),
        entry_matches(m0, idx, nonce, key),
        // the entry may change, but only its value length
        entry_at(m1, idx).key_len == entry_at(m0, idx).key_len,
        entry_at(m1, idx).hash == entry_at(m0, idx).hash,
        entry_at(m1, idx).address == entry_at(m0, idx).address,
        // every byte outside the entry and outside `[lo, hi)` is untouched
        forall|x: int|
            0 <= x < m0.len() && !(bucket_off(idx) <= x < bucket_off(idx) + 8) && !(lo <= x < hi)
                ==> m1[x] == m0[x],
        // other records are out of the written window
        forall|j: int|
            0 <= j < n && j != idx && #[trigger] occupied_at(m0, j) ==> ranges_disjoint(
                rec_addr(m0, j),
                rec_addr(m0, j) + rec_len(m0, j),
                lo,
                hi,
            ),
    ensures
        found_index(m1, nonce, key, hops, n as nat) == Some(idx),
        key_at(m1, idx) == key,
        forall|j: int| 0 <= j < n && j != idx ==> entry_at(m1, j) == entry_at(m0, j),
        forall|j: int|
            0 <= j < n && j != idx && #[trigger] occupied_at(m0, j) ==> key_at(m1, j) == key_at(
                m0,
                j,
            ) && val_at(m1, j) == val_at(m0, j),
        forall|x: int| 0 <= x < 8 ==> m1[x] == m0[x],
{
    assert(spec_data_start(n) <= m0.len());
    assert forall|j: int| 0 <= j < n && j != idx implies entry_at(m1, j) == entry_at(m0, j) by {
        assert(bucket_off(j) + 8 <= spec_data_start(n) <= lo);
        crate::layout::lemma_entry_frame(m0, m1, j);
    }
    assert forall|j: int| 0 <= j < n && j != idx && #[trigger] occupied_at(m0, j) implies key_at(
        m1,
        j,
    ) == key_at(m0, j) && val_at(m1, j) == val_at(m0, j) by {
        crate::layout::lemma_agree_subrange(
            m0,
            m1,
            rec_addr(m0, j),
            rec_addr(m0, j) + rec_len(m0, j),
        );
        assert(key_at(m1, j) =~= key_at(m0, j));
        assert(val_at(m1, j) =~= val_at(m0, j));
    }
    // the key bytes of the patched bucket sit below the written window
    assert(key_at(m1, idx) =~= key_at(m0, idx));
    assert(entry_matches(m1, idx, nonce, key));
    crate::layout::lemma_find_hop_spec(m0, nonce, key, hops, n as nat);
    assert forall|g: nat| g < hops implies (entry_matches(
        m1,
        #[trigger] probe_index(nonce, key, g, n as nat) as int,
        nonce,
        key,
    ) == entry_matches(m0, probe_index(nonce, key, g, n as nat) as int, nonce, key)) by {
        let ig = probe_index(nonce, key, g, n as nat) as int;
        if ig != idx {
            assert(entry_at(m1, ig) == entry_at(m0, ig));
            if occupied_at(m0, ig) {
                crate::layout::lemma_agree_subrange(
                    m0,
                    m1,
                    rec_addr(m0, ig),
                    rec_addr(m0, ig) + rec_len(m0, ig),
                );
                if entry_at(m0, ig).address + key.len() <= m0.len() && entry_at(m0, ig).key_len
                    == key.len() {
                    assert(key_at(m1, ig) =~= key_at(m0, ig));
                }
            }
        }
    }
    lemma_find_hop_congruence(m0, m1, nonce, key, 0, hops, n as nat);
}

/// A patch's writes — growing the record in place when needed, updating the
/// entry, and writing the patch bytes — produce the `patched` relation and
/// leave the free list and table consistent.
#[verifier::rlimit(50)]
proof fn lemma_patch_value_post(
    m0: Seq<u8>,
    me: Seq<u8>,
    m1: Seq<u8>,
    nonce: u16,
    hops: nat,
    n: int,
    key: Seq<u8>,
    bucket: Bucket,
    b2: Bucket,
    off: int,
    p: Seq<u8>,
    ss0: Seq<Slot>,
    ss1: Seq<Slot>,
)
    requires
        0 < n <= 0xffff,
        index_wf(m0, n, ss0),
        ss0.len() == ss1.len(),
        slots_wf(ss1),
        bucket.index < n,
        occupied_at(m0, bucket.index as int),
        entry_at(m0, bucket.index as int) == bucket.entry(),
        found_index(m0, nonce, key, hops, n as nat) == Some(bucket.index as int),
        entry_matches(m0, bucket.index as int, nonce, key),
        bucket.key_len == key.len(),
        0 < key.len() <= MAX_KEY_LEN,
        0 <= off <= bucket.val_len,
        p.len() > 0,
        off + p.len() <= MAX_VALUE_LEN,
        b2.index == bucket.index,
        b2.address == bucket.address,
        b2.key_len == bucket.key_len,
        b2.hash == bucket.hash,
        b2.val_len == if off + p.len() > bucket.val_len {
            off + p.len()
        } else {
            bucket.val_len as int
        },
        if b2.val_len > bucket.val_len {
            directed_effect(
                ss0,
                ss1,
                bucket.address + bucket.key_len + bucket.val_len,
                b2.val_len - bucket.val_len,
            ) && me == crate::layout::write_bytes(
                m0,
                bucket_off(bucket.index as int),
                crate::layout::entry_bytes(b2.entry()),
            )
        } else {
            ss1 == ss0 && me == m0
        },
        m1 == crate::layout::write_bytes(me, bucket.address + bucket.key_len + off, p),
    ensures
        patched(m0, m1, nonce, hops, n as nat, key, off, p, b2),
        index_wf(m1, n, ss1),
{
    let idx = bucket.index as int;
    let a = bucket.address as int;
    let klen = bucket.key_len as int;
    let vlen = bucket.val_len as int;
    let new_len = b2.val_len as int;
    let rec_end = a + klen + vlen;
    let grow = new_len - vlen;
    let lo = a + klen + off;
    let hi = lo + p.len();
    assert(spec_data_start(n) <= a);
    assert(rec_end <= spec_data_end(m0));
    // where the grown bytes fit, when the record grew
    if grow > 0 {
        crate::freespace::lemma_directed_effect_shrinks(ss0, ss1, rec_end, grow);
        let k0 = choose|k0: int|
            0 <= k0 < ss0.len() && slot_contains_range(#[trigger] ss0[k0], rec_end, grow);
        assert(!slot_empty(ss0[k0]));
        assert(rec_end + grow <= spec_data_end(m0));
        assert(me.subrange(bucket_off(idx), bucket_off(idx) + 8) =~= crate::layout::entry_bytes(
            b2.entry(),
        ));
        crate::layout::lemma_entry_roundtrip(b2.entry());
        assert(entry_at(me, idx) == b2.entry());
        assert forall|j: int, k: int|
            0 <= j < n && j != idx && #[trigger] occupied_at(m0, j) && 0 <= k
                < ss1.len() implies ranges_disjoint(
            rec_addr(m0, j),
            rec_addr(m0, j) + rec_len(m0, j),
            (#[trigger] ss1[k]).start as int,
            ss1[k].end as int,
        ) by {
            if !slot_empty(ss1[k]) {
                let kk = choose|kk: int|
                    0 <= kk < ss0.len() && (#[trigger] ss0[kk]).start <= ss1[k].start
                        && ss1[k].end <= ss0[kk].end;
                assert(ranges_disjoint(
                    rec_addr(m0, j),
                    rec_addr(m0, j) + rec_len(m0, j),
                    ss0[kk].start as int,
                    ss0[kk].end as int,
                ));
            }
        }
        assert forall|k: int|
            0 <= k < ss1.len() && !slot_empty(#[trigger] ss1[k]) implies spec_data_start(n)
            <= ss1[k].start && ss1[k].end <= spec_data_end(m0) by {
            let kk = choose|kk: int|
                0 <= kk < ss0.len() && (#[trigger] ss0[kk]).start <= ss1[k].start && ss1[k].end
                    <= ss0[kk].end;
            assert(!slot_empty(ss0[kk]));
        }
    } else {
        assert(entry_at(me, idx) == b2.entry());
    }
    assert(hi <= rec_end + (if grow > 0 {
        grow
    } else {
        0
    }));
    assert(hi <= spec_data_end(m0) <= m0.len());
    // the written window misses every other record
    assert forall|j: int|
        0 <= j < n && j != idx && #[trigger] occupied_at(m0, j) implies ranges_disjoint(
        rec_addr(m0, j),
        rec_addr(m0, j) + rec_len(m0, j),
        lo,
        hi,
    ) by {
        assert(ranges_disjoint(rec_addr(m0, j), rec_addr(m0, j) + rec_len(m0, j), a, rec_end));
        if grow > 0 {
            let k0 = choose|k0: int|
                0 <= k0 < ss0.len() && slot_contains_range(#[trigger] ss0[k0], rec_end, grow);
            assert(ranges_disjoint(
                rec_addr(m0, j),
                rec_addr(m0, j) + rec_len(m0, j),
                ss0[k0].start as int,
                ss0[k0].end as int,
            ));
        }
    }
    assert(entry_at(m1, idx) == entry_at(me, idx)) by {
        crate::layout::lemma_entry_frame(me, m1, idx);
    }
    lemma_patch_frames(m0, m1, nonce, hops, n, key, idx, lo, hi);
    // the new value bytes are the old ones with the patch written at `off`
    let oldv = val_at(m0, idx);
    assert(oldv.len() == vlen);
    if off + p.len() >= vlen {
        assert(val_at(m1, idx) =~= oldv.take(off) + p);
    } else {
        assert(val_at(m1, idx) =~= oldv.take(off) + p + oldv.skip(off + p.len()));
    }
    // the free list and the table are consistent again
    assert(spec_data_end(m1) == spec_data_end(m0));
    assert forall|i: int| 0 <= i < n && #[trigger] occupied_at(m1, i) implies spec_data_start(n)
        <= rec_addr(m1, i) && rec_addr(m1, i) + rec_len(m1, i) <= spec_data_end(m1) by {
        if i != idx {
            assert(occupied_at(m0, i));
        }
    }
    assert forall|i: int, j: int|
        0 <= i < n && 0 <= j < n && i != j && #[trigger] occupied_at(m1, i)
            && #[trigger] occupied_at(m1, j) implies ranges_disjoint(
        rec_addr(m1, i),
        rec_addr(m1, i) + rec_len(m1, i),
        rec_addr(m1, j),
        rec_addr(m1, j) + rec_len(m1, j),
    ) by {
        if i != idx && j != idx {
            assert(occupied_at(m0, i) && occupied_at(m0, j));
        } else {
            let other = if i == idx {
                j
            } else {
                i
            };
            assert(occupied_at(m0, other));
            assert(ranges_disjoint(
                rec_addr(m0, other),
                rec_addr(m0, other) + rec_len(m0, other),
                a,
                rec_end,
            ));
            if grow > 0 {
                let k0 = choose|k0: int|
                    0 <= k0 < ss0.len() && slot_contains_range(#[trigger] ss0[k0], rec_end, grow);
                assert(ranges_disjoint(
                    rec_addr(m0, other),
                    rec_addr(m0, other) + rec_len(m0, other),
                    ss0[k0].start as int,
                    ss0[k0].end as int,
                ));
            }
        }
    }
    assert forall|i: int, k: int|
        0 <= i < n && #[trigger] occupied_at(m1, i) && 0 <= k < ss1.len() implies ranges_disjoint(
        rec_addr(m1, i),
        rec_addr(m1, i) + rec_len(m1, i),
        (#[trigger] ss1[k]).start as int,
        ss1[k].end as int,
    ) by {
        if slot_empty(ss1[k]) {
        } else if i != idx {
            assert(occupied_at(m0, i));
            if grow > 0 {
                let kk = choose|kk: int|
                    0 <= kk < ss0.len() && (#[trigger] ss0[kk]).start <= ss1[k].start
                        && ss1[k].end <= ss0[kk].end;
                assert(ranges_disjoint(
                    rec_addr(m0, i),
                    rec_addr(m0, i) + rec_len(m0, i),
                    ss0[kk].start as int,
                    ss0[kk].end as int,
                ));
            }
        } else {
            if grow > 0 {
                let kk = choose|kk: int|
                    0 <= kk < ss0.len() && (#[trigger] ss0[kk]).start <= ss1[k].start
                        && ss1[k].end <= ss0[kk].end;
                assert(ranges_disjoint(a, rec_end, ss0[kk].start as int, ss0[kk].end as int));
                assert(ranges_disjoint(rec_end, rec_end + grow, ss1[k].start as int, ss1[k].end as int));
            } else {
                assert(ranges_disjoint(a, rec_end, ss1[k].start as int, ss1[k].end as int));
            }
        }
    }
}

/// Freeing never shrinks a slot, so a record that fits no slot after a free
/// fit no slot before it either.
proof fn lemma_free_never_shrinks_fits(ss0: Seq<Slot>, ssf: Seq<Slot>, size: int)
    requires
        ssf.len() == ss0.len(),
        forall|k: int|
            0 <= k < ss0.len() ==> ((#[trigger] ssf[k]) == ss0[k] || ssf[k].spec_size()
                >= ss0[k].spec_size()),
        forall|k: int| 0 <= k < ssf.len() ==> !slot_fits(#[trigger] ssf[k], size),
    ensures
        forall|k: int| 0 <= k < ss0.len() ==> !slot_fits(#[trigger] ss0[k], size),
{
    assert forall|k: int| 0 <= k < ss0.len() implies !slot_fits(#[trigger] ss0[k], size) by {
        assert(!slot_fits(ssf[k], size));
    }
}

/// Insert's bucket choice, handed from the probe walk to the writing side:
/// the chosen bucket and, on a replace, the entry it currently holds.
struct BucketChoice {
    index: usize,
    existing: Option<BucketEntry>,
}

/// The store: a byte adapter, the configuration it was opened with, and the
/// lazily rebuilt free list.
pub struct KVStore<A, const BUCKETS: usize, const SLOTS: usize> where A: StoreAdapter {
    adapter: A,
    cfg: StoreConfig,
    freelist: Option<Alloc<SLOTS>>,
}

/// A store that can only be read: it has no free-list slots, so every
/// mutation fails with `ReadOnlyStore`.
pub type ReadOnlyKVStore<A, const BUCKETS: usize> = KVStore<A, BUCKETS, 0>;

impl<A, const BUCKETS: usize, const SLOTS: usize> KVStore<A, BUCKETS, SLOTS> where
    A: StoreAdapter,
 {
    /// The bytes of the medium.
    pub closed spec fn mem(&self) -> Seq<u8> {
        self.adapter.mem()
    }

    /// The magic number the store was opened with.
    pub closed spec fn spec_magic(&self) -> u32 {
        self.cfg.spec_magic()
    }

    /// The nonce the store hashes keys with.
    pub closed spec fn spec_nonce(&self) -> u16 {
        self.cfg.spec_nonce()
    }

    /// The probe budget.
    pub closed spec fn spec_max_hops(&self) -> usize {
        self.cfg.spec_max_hops()
    }

    /// The free-list slots, once the free list has been rebuilt.
    pub closed spec fn slots_opt(&self) -> Option<Seq<Slot>> {
        match self.freelist {
            Some(ref al) => Some(al.slots_view()),
            None => None,
        }
    }

    /// The store's well-formedness: a sane bucket count, and, once the free
    /// list exists, mutual consistency of free list and bucket table.
    pub open spec fn wf(&self) -> bool {
        &&& 0 < BUCKETS <= 0xffff
        &&& match self.slots_opt() {
            None => true,
            Some(ss) => ss.len() == SLOTS && index_wf(self.mem(), BUCKETS as int, ss),
        }
    }

    /// The store's configuration and medium size are as before.
    pub open spec fn same_shape(&self, other: &Self) -> bool {
        &&& self.mem().len() == other.mem().len()
        &&& self.spec_magic() == other.spec_magic()
        &&& self.spec_nonce() == other.spec_nonce()
        &&& self.spec_max_hops() == other.spec_max_hops()
    }

    /// Nothing observable about the store has changed.
    pub open spec fn unchanged(&self, other: &Self) -> bool {
        &&& self.same_shape(other)
        &&& self.mem() == other.mem()
        &&& self.slots_opt() == other.slots_opt()
    }

    /// `lookup` followed the probe walk of `key` and found bucket `b`.
    pub open spec fn lookup_ok(&self, key: Seq<u8>, b: Bucket) -> bool {
        &&& found_index(
            self.mem(),
            self.spec_nonce(),
            key,
            self.spec_max_hops() as nat,
            BUCKETS as nat,
        ) == Some(b.index as int)
        &&& b.index < BUCKETS
        &&& b.entry() == entry_at(self.mem(), b.index as int)
        &&& key_at(self.mem(), b.index as int) == key
        &&& b.key_len == key.len()
    }

    /// Reads bucket `i`'s entry from the medium.
    fn read_entry(&mut self, i: usize) -> (r: Result<BucketEntry, Error<A::Error>>)
        requires
            i < BUCKETS,
            BUCKETS <= 0xffff,
        ensures
            final(self).unchanged(old(self)),
            match r {
                Ok(e) => bucket_off(i as int) + 8 <= old(self).mem().len() && e == entry_at(
                    old(self).mem(),
                    i as int,
                ),
                Err(Error::AdapterError(_)) => true,
                Err(_) => false,
            },
    {
        let off: usize = 8 + 8 * i;
        match self.adapter.read(off, 8) {
            Ok(buf) => Ok(crate::layout::parse_entry(&buf)),
            Err(e) => Err(Error::AdapterError(e)),
        }
    }

    /// Follows the probe walk of `key` and hands back the first bucket whose
    /// hash, key length and on-medium key bytes all match; walks the whole
    /// budget (never stopping at an empty bucket), and fails with
    /// `KeyNotFound` exactly when no bucket of the walk matches.
    pub fn lookup(&mut self, key: &[u8]) -> (r: Result<Bucket, Error<A::Error>>)
        requires
            old(self).wf(),
            0 < key@.len() <= MAX_KEY_LEN,
        ensures
            final(self).wf(),
            final(self).unchanged(old(self)),
            match r {
                Ok(b) => old(self).lookup_ok(key@, b),
                Err(Error::KeyNotFound) => find_hop(
                    old(self).mem(),
                    old(self).spec_nonce(),
                    key@,
                    old(self).spec_max_hops() as nat,
                    BUCKETS as nat,
                ) is None,
                Err(Error::AdapterError(_)) => true,
                Err(_) => false,
            },
    {
        let ghost nonce = self.spec_nonce();
        let ghost hops = self.spec_max_hops() as nat;
        let max_hops = self.cfg.max_hops;
        let mut hopper = Grasshopper::<BUCKETS>::new(max_hops, self.cfg.nonce, key);
        let hash = hopper.hash();
        let mut hop: usize = 0;
        while hop < max_hops
            invariant
                self.wf(),
                self.unchanged(old(self)),
                nonce == self.spec_nonce(),
                hops == self.spec_max_hops() as nat,
                max_hops == self.spec_max_hops(),
                0 < BUCKETS <= 0xffff,
                0 < key@.len() <= MAX_KEY_LEN,
                hopper.wf(),
                hopper.spec_key() == key@,
                hopper.spec_nonce() == nonce,
                hopper.cur_hop() == hop,
                hopper.hops_left() == max_hops - hop,
                hash == key_hash(nonce, key@),
                hop <= max_hops,
                forall|g: nat|
                    g < hop ==> !entry_matches(
                        self.mem(),
                        #[trigger] probe_index(nonce, key@, g, BUCKETS as nat) as int,
                        nonce,
                        key@,
                    ),
            decreases max_hops - hop,
        {
            let index = hopper.next().unwrap();
            let e = match self.read_entry(index) {
                Ok(e) => e,
                Err(err) => {
                    return Err(err);
                },
            };
            if e.hash != hash || e.key_len as usize != key.len() {
                hop += 1;
                continue ;
            }
            let data = match self.adapter.read(e.address as usize, e.key_len as usize) {
                Ok(d) => d,
                Err(ae) => {
                    return Err(Error::AdapterError(ae));
                },
            };
            if !bytes_eq(data.as_slice(), key) {
                proof {
                    assert(key_at(self.mem(), index as int) == data@);
                }
                hop += 1;
                continue ;
            }
            proof {
                assert(entry_matches(self.mem(), index as int, nonce, key@));
                crate::layout::lemma_find_hop_is(
                    self.mem(),
                    nonce,
                    key@,
                    hops,
                    BUCKETS as nat,
                    hop as nat,
                );
            }
            return Ok(
                Bucket {
                    index,
                    address: e.address,
                    key_len: e.key_len,
                    val_len: e.val_len,
                    hash: e.hash,
                },
            );
        }
        proof {
            crate::layout::lemma_find_hop_is_none(self.mem(), nonce, key@, hops, BUCKETS as nat);
        }
        Err(Error::KeyNotFound)
    }

    /// Whether some bucket of `key`'s probe walk holds it.
    pub fn contains_key(&mut self, key: &[u8]) -> (r: Result<bool, Error<A::Error>>)
        requires
            old(self).wf(),
            0 < key@.len() <= MAX_KEY_LEN,
        ensures
            final(self).wf(),
            final(self).unchanged(old(self)),
            match r {
                Ok(present) => present == (find_hop(
                    old(self).mem(),
                    old(self).spec_nonce(),
                    key@,
                    old(self).spec_max_hops() as nat,
                    BUCKETS as nat,
                ) is Some),
                Err(Error::AdapterError(_)) => true,
                Err(_) => false,
            },
    {
        match self.lookup(key) {
            Ok(_) => Ok(true),
            Err(Error::KeyNotFound) => Ok(false),
            Err(err) => Err(err),
        }
    }

    /// Looks `key` up and copies value bytes from `offset` on into the
    /// front of `buf`: as many as `buf` holds and the value has past
    /// `offset`. The bucket comes back so the caller sees the true value
    /// length and can detect truncation.
    pub fn load_at(&mut self, key: &[u8], buf: &mut Vec<u8>, offset: usize) -> (r: Result<
        Bucket,
        Error<A::Error>,
    >)
        requires
            old(self).wf(),
            0 < key@.len() <= MAX_KEY_LEN,
            old(buf).len() > 0,
            offset + old(buf).len() <= MAX_VALUE_LEN,
        ensures
            final(self).wf(),
            final(self).unchanged(old(self)),
            final(buf).len() == old(buf).len(),
            match r {
                Ok(b) => old(self).lookup_ok(key@, b) && {
                    let n = if offset >= b.val_len {
                        0
                    } else if b.val_len - offset < old(buf)@.len() {
                        (b.val_len - offset) as int
                    } else {
                        old(buf)@.len() as int
                    };
                    let start = b.address + b.key_len + offset;
                    &&& start + n <= old(self).mem().len()
                    &&& final(buf)@ == old(self).mem().subrange(start, start + n) + old(
                        buf,
                    )@.skip(n)
                },
                Err(Error::KeyNotFound) => find_hop(
                    old(self).mem(),
                    old(self).spec_nonce(),
                    key@,
                    old(self).spec_max_hops() as nat,
                    BUCKETS as nat,
                ) is None && final(buf)@ == old(buf)@,
                Err(Error::AdapterError(_)) => true,
                Err(_) => false,
            },
    {
        let bucket = match self.lookup(key) {
            Ok(b) => b,
            Err(err) => {
                return Err(err);
            },
        };
        let val_len = bucket.val_len as usize;
        let n: usize = if offset >= val_len {
            0
        } else if val_len - offset < buf.len() {
            val_len - offset
        } else {
            buf.len()
        };
        let start: usize = bucket.address as usize + bucket.key_len as usize + offset;
        let data = match self.adapter.read(start, n) {
            Ok(d) => d,
            Err(ae) => {
                return Err(Error::AdapterError(ae));
            },
        };
        let mut i: usize = 0;
        while i < n
            invariant
                i <= n,
                n <= buf.len(),
                buf.len() == old(buf).len(),
                data@.len() == n,
                forall|j: int| 0 <= j < i ==> buf@[j] == data@[j],
                forall|j: int| i <= j < buf@.len() ==> buf@[j] == old(buf)@[j],
            decreases n - i,
        {
            let b: u8 = data[i];
            buf[i] = b;
            i += 1;
        }
        proof {
            let m = old(self).mem();
            assert(buf@ =~= m.subrange(start as int, start + n) + old(buf)@.skip(n as int));
        }
        Ok(bucket)
    }

    /// Writes bucket `i`'s entry to the medium. A failed write may leave
    /// the table half-written, so the free list is dropped and will be
    /// rebuilt from whatever the table then holds.
    fn write_entry(&mut self, i: usize, e: &BucketEntry) -> (r: Result<(), Error<A::Error>>)
        requires
            i < BUCKETS,
            BUCKETS <= 0xffff,
            e.address < 0x1000000,
        ensures
            final(self).same_shape(old(self)),
            match r {
                Ok(_) => bucket_off(i as int) + 8 <= old(self).mem().len() && final(self).mem()
                    == crate::layout::write_bytes(
                    old(self).mem(),
                    bucket_off(i as int),
                    crate::layout::entry_bytes(*e),
                ) && final(self).slots_opt() == old(self).slots_opt(),
                Err(Error::AdapterError(_)) => final(self).slots_opt() is None,
                Err(_) => false,
            },
    {
        let off: usize = 8 + 8 * i;
        let bytes = crate::layout::pack_entry(e);
        match self.adapter.write(off, bytes.as_slice()) {
            Ok(_) => Ok(()),
            Err(ae) => {
                self.freelist = None;
                Err(Error::AdapterError(ae))
            },
        }
    }

    /// Erases the store: zeroes every bucket, then writes the header last,
    /// so that an interrupted erase leaves no falsely valid store. The free
    /// list is dropped and will be rebuilt on the next mutation.
    pub fn reset(&mut self) -> (r: Result<(), Error<A::Error>>)
        requires
            0 < BUCKETS <= 0xffff,
        ensures
            final(self).wf(),
            final(self).same_shape(old(self)),
            final(self).slots_opt() is None,
            match r {
                Ok(_) => fresh_layout(
                    final(self).mem(),
                    old(self).spec_magic(),
                    old(self).spec_nonce(),
                    BUCKETS as int,
                ) && (forall|j: int|
                    spec_data_start(BUCKETS as int) <= j < final(self).mem().len()
                        ==> final(self).mem()[j] == old(self).mem()[j]),
                Err(Error::AdapterError(_)) => true,
                Err(_) => false,
            },
    {
        self.freelist = None;
        let zeros = crate::layout::pack_entry(
            &BucketEntry { val_len: 0, key_len: 0, address: 0, hash: 0 },
        );
        let mut i: usize = 0;
        while i < BUCKETS
            invariant
                0 < BUCKETS <= 0xffff,
                i <= BUCKETS,
                self.freelist is None,
                self.same_shape(old(self)),
                zeros@ == crate::layout::entry_bytes(crate::layout::empty_entry()),
                zeros@.len() == 8,
                i == 0 || 8 + 8 * i <= self.mem().len(),
                forall|j: int|
                    0 <= j < self.mem().len() && !(8 <= j < 8 + 8 * i) ==> self.mem()[j] == old(
                        self,
                    ).mem()[j],
                forall|i2: int|
                    0 <= i2 < i ==> entry_at(self.mem(), i2) == crate::layout::empty_entry(),
            decreases BUCKETS - i,
        {
            let off: usize = 8 + 8 * i;
            let ghost pre = self.mem();
            match self.adapter.write(off, zeros.as_slice()) {
                Ok(_) => {},
                Err(ae) => {
                    return Err(Error::AdapterError(ae));
                },
            }
            proof {
                assert forall|i2: int| 0 <= i2 < i + 1 implies entry_at(self.mem(), i2)
                    == crate::layout::empty_entry() by {
                    if i2 < i {
                        crate::layout::lemma_entry_frame(pre, self.mem(), i2);
                    } else {
                        assert(self.mem().subrange(bucket_off(i2), bucket_off(i2) + 8)
                            =~= zeros@);
                        crate::layout::lemma_entry_roundtrip(crate::layout::empty_entry());
                    }
                }
            }
            i += 1;
        }
        let mut header: Vec<u8> = Vec::new();
        crate::bytes::push_be32(&mut header, self.cfg.magic);
        crate::bytes::push_be16(&mut header, self.cfg.nonce);
        crate::bytes::push_be16(&mut header, BUCKETS as u16);
        proof {
            assert(header@ =~= crate::layout::header_bytes(
                self.cfg.spec_magic(),
                self.cfg.spec_nonce(),
                BUCKETS as u16,
            ));
        }
        let ghost pre = self.mem();
        match self.adapter.write(0, header.as_slice()) {
            Ok(_) => {},
            Err(ae) => {
                return Err(Error::AdapterError(ae));
            },
        }
        proof {
            crate::layout::lemma_header_roundtrip(
                self.cfg.spec_magic(),
                self.cfg.spec_nonce(),
                BUCKETS as u16,
                self.mem(),
            );
            assert forall|i2: int| 0 <= i2 < BUCKETS implies entry_at(self.mem(), i2)
                == crate::layout::empty_entry() by {
                crate::layout::lemma_entry_frame(pre, self.mem(), i2);
            }
        }
        Ok(())
    }

    /// Writes a fresh store onto the adapter and opens it.
    pub fn bootstrap(adapter: A, cfg: StoreConfig) -> (r: Result<Self, Error<A::Error>>)
        requires
            0 < BUCKETS <= 0xffff,
        ensures
            match r {
                Ok(s) => s.wf() && s.slots_opt() is None && s.spec_magic() == cfg.spec_magic()
                    && s.spec_nonce() == cfg.spec_nonce() && s.spec_max_hops()
                    == cfg.spec_max_hops() && s.mem().len() == adapter.mem().len()
                    && fresh_layout(
                    s.mem(),
                    cfg.spec_magic(),
                    cfg.spec_nonce(),
                    BUCKETS as int,
                ),
                Err(Error::AdapterError(_)) => true,
                Err(_) => false,
            },
    {
        let mut res = KVStore { adapter, cfg, freelist: None };
        match res.reset() {
            Ok(_) => Ok(res),
            Err(err) => Err(err),
        }
    }

    /// Opens the store whose header the adapter holds. The header's magic,
    /// nonce and bucket count must match the configuration, in that order
    /// of checking (`StoreNotFound`, `InvalidNonce`, `InvalidCapacity`);
    /// on a magic mismatch with `create_new` set, a fresh store is written
    /// instead.
    pub fn open(adapter: A, cfg: StoreConfig, create_new: bool) -> (r: Result<
        Self,
        Error<A::Error>,
    >)
        requires
            0 < BUCKETS <= 0xffff,
        ensures
            match r {
                Ok(s) => s.wf() && s.slots_opt() is None && s.spec_magic() == cfg.spec_magic()
                    && s.spec_nonce() == cfg.spec_nonce() && s.spec_max_hops()
                    == cfg.spec_max_hops() && s.mem().len() == adapter.mem().len() && ((
                adapter.mem().len() >= 8 && crate::layout::mem_magic(adapter.mem())
                    == cfg.spec_magic() && crate::layout::mem_nonce(adapter.mem())
                    == cfg.spec_nonce() && crate::layout::mem_buckets(adapter.mem()) == BUCKETS
                    && s.mem() == adapter.mem()) || (create_new && fresh_layout(
                    s.mem(),
                    cfg.spec_magic(),
                    cfg.spec_nonce(),
                    BUCKETS as int,
                ))),
                Err(Error::StoreNotFound) => !create_new && adapter.mem().len() >= 8
                    && crate::layout::mem_magic(adapter.mem()) != cfg.spec_magic(),
                Err(Error::InvalidNonce) => adapter.mem().len() >= 8 && crate::layout::mem_magic(
                    adapter.mem(),
                ) == cfg.spec_magic() && crate::layout::mem_nonce(adapter.mem())
                    != cfg.spec_nonce(),
                Err(Error::InvalidCapacity) => adapter.mem().len() >= 8
                    && crate::layout::mem_magic(adapter.mem()) == cfg.spec_magic()
                    && crate::layout::mem_nonce(adapter.mem()) == cfg.spec_nonce()
                    && crate::layout::mem_buckets(adapter.mem()) != BUCKETS,
                Err(Error::AdapterError(_)) => true,
                Err(_) => false,
            },
    {
        let mut adapter = adapter;
        let buf = match adapter.read(0, 8) {
            Ok(buf) => buf,
            Err(ae) => {
                return Err(Error::AdapterError(ae));
            },
        };
        let magic = crate::bytes::read_be32(&buf, 0);
        let nonce = crate::bytes::read_be16(&buf, 4);
        let buckets = crate::bytes::read_be16(&buf, 6);
        if magic != cfg.magic {
            if create_new {
                return Self::bootstrap(adapter, cfg);
            }
            return Err(Error::StoreNotFound);
        }
        if nonce != cfg.nonce {
            return Err(Error::InvalidNonce);
        }
        if buckets as usize != BUCKETS {
            return Err(Error::InvalidCapacity);
        }
        Ok(KVStore { adapter, cfg, freelist: None })
    }

    /// Borrows the underlying adapter, for callers that need to reach the
    /// medium directly. Writes made through it are the caller's own; the
    /// store's consistency claims cover only its own operations.
    pub fn adapter(&mut self) -> &mut A {
        &mut self.adapter
    }

    /// Surrenders the adapter back to the caller; the medium keeps every
    /// byte the store wrote.
    pub fn close(self) -> (a: A)
        ensures
            a.mem() == self.mem(),
    {
        self.adapter
    }

    /// Rebuilds the free list from the bucket table: the whole data region
    /// starts free, and every occupied bucket's exact record range is then
    /// reserved. Any failure to reserve means the table is inconsistent
    /// with itself or the medium, and surfaces as `StoreOverflow`.
    fn load_index(&mut self) -> (r: Result<Alloc<SLOTS>, Error<A::Error>>)
        requires
            0 < BUCKETS <= 0xffff,
        ensures
            final(self).unchanged(old(self)),
            match r {
                Ok(al) => al.wf() && al.slots_view().len() == SLOTS && index_wf(
                    old(self).mem(),
                    BUCKETS as int,
                    al.slots_view(),
                ) && al.strategy() == AllocStrategy::MaxFit && (SLOTS > 0 ==> region_covered(
                    old(self).mem(),
                    BUCKETS as int,
                    BUCKETS as int,
                    al.slots_view(),
                )) && ((SLOTS > 0 && forall|i: int|
                    0 <= i < BUCKETS ==> !occupied_at(old(self).mem(), i))
                    ==> al.slots_view()[0].spec_size() >= spec_data_end(old(self).mem())
                    - spec_data_start(BUCKETS as int)),
                Err(Error::StoreOverflow) => exists|i: int|
                    0 <= i < BUCKETS && occupied_at(old(self).mem(), i),
                Err(Error::AdapterError(_)) => true,
                Err(_) => false,
            },
    {
        let max_addr = self.adapter.max_address();
        let ds = crate::layout::data_start(BUCKETS);
        let data_end = if max_addr > 0x1000000 {
            0x1000000
        } else {
            max_addr
        };
        let space = if data_end > ds {
            data_end - ds
        } else {
            0
        };
        let mut al = Alloc::<SLOTS>::new(AllocStrategy::MaxFit, ds, space);
        let ghost n = BUCKETS as int;
        let ghost m = self.mem();
        proof {
            if SLOTS > 0 {
                assert forall|x: int| (spec_data_start(n) <= x < spec_data_end(m)) <==> (
                #[trigger] covered(al.slots_view(), x) || exists|i2: int|
                    0 <= i2 < 0 && #[trigger] occupied_at(m, i2) && rec_addr(m, i2) <= x
                        < rec_addr(m, i2) + rec_len(m, i2)) by {
                    assert(covered(al.slots_view(), x) <==> (SLOTS > 0 && ds <= x < ds + space));
                }
                assert(region_covered(m, n, 0, al.slots_view()));
            }
        }
        let mut i: usize = 0;
        while i < BUCKETS
            invariant
                0 < BUCKETS <= 0xffff,
                n == BUCKETS as int,
                i <= BUCKETS,
                m == self.mem(),
                self.unchanged(old(self)),
                al.wf(),
                al.slots_view().len() == SLOTS,
                al.strategy() == AllocStrategy::MaxFit,
                (SLOTS > 0 && forall|i2: int| 0 <= i2 < i ==> !occupied_at(m, i2))
                    ==> al.slots_view()[0].spec_size() >= spec_data_end(m) - spec_data_start(n),
                SLOTS > 0 ==> region_covered(m, n, i as int, al.slots_view()),
                slots_in_data(al.slots_view(), m, n),
                forall|i2: int|
                    0 <= i2 < i && #[trigger] occupied_at(m, i2) ==> spec_data_start(n)
                        <= rec_addr(m, i2) && rec_addr(m, i2) + rec_len(m, i2) <= spec_data_end(m),
                forall|i2: int, k: int|
                    0 <= i2 < i && #[trigger] occupied_at(m, i2) && 0 <= k
                        < al.slots_view().len() ==> ranges_disjoint(
                        rec_addr(m, i2),
                        rec_addr(m, i2) + rec_len(m, i2),
                        (#[trigger] al.slots_view()[k]).start as int,
                        al.slots_view()[k].end as int,
                    ),
                forall|i1: int, i2: int|
                    0 <= i1 < i && 0 <= i2 < i && i1 != i2 && #[trigger] occupied_at(m, i1)
                        && #[trigger] occupied_at(m, i2) ==> ranges_disjoint(
                        rec_addr(m, i1),
                        rec_addr(m, i1) + rec_len(m, i1),
                        rec_addr(m, i2),
                        rec_addr(m, i2) + rec_len(m, i2),
                    ),
            decreases BUCKETS - i,
        {
            let e = match self.read_entry(i) {
                Ok(e) => e,
                Err(err) => {
                    return Err(err);
                },
            };
            if e.key_len > 0 {
                let size: usize = e.key_len as usize + e.val_len as usize;
                let ghost ss0 = al.slots_view();
                match al.allocate(size, Some(e.address as usize)) {
                    Some(_) => {
                        proof {
                            let ss1 = al.slots_view();
                            let a = e.address as int;
                            let sz = size as int;
                            crate::freespace::lemma_directed_effect_shrinks(ss0, ss1, a, sz);
                            let kc = choose|k0: int|
                                0 <= k0 < ss0.len() && slot_contains_range(
                                    #[trigger] ss0[k0],
                                    a,
                                    sz,
                                );
                            assert(!slot_empty(ss0[kc]));
                            assert(spec_data_start(n) <= a && a + sz <= spec_data_end(m));
                            assert(occupied_at(m, i as int) && rec_addr(m, i as int) == a
                                && rec_len(m, i as int) == sz);
                            assert forall|k: int|
                                0 <= k < ss1.len() && !slot_empty(#[trigger] ss1[k]) implies
                                spec_data_start(n) <= ss1[k].start && ss1[k].end <= spec_data_end(
                                m,
                            ) by {
                                let k0 = choose|k0: int|
                                    0 <= k0 < ss0.len() && (#[trigger] ss0[k0]).start
                                        <= ss1[k].start && ss1[k].end <= ss0[k0].end;
                                assert(!slot_empty(ss0[k0]));
                            }
                            assert forall|i2: int, k: int|
                                0 <= i2 < i + 1 && #[trigger] occupied_at(m, i2) && 0 <= k
                                    < ss1.len() implies ranges_disjoint(
                                rec_addr(m, i2),
                                rec_addr(m, i2) + rec_len(m, i2),
                                (#[trigger] ss1[k]).start as int,
                                ss1[k].end as int,
                            ) by {
                                if slot_empty(ss1[k]) {
                                } else if i2 < i {
                                    let k0 = choose|k0: int|
                                        0 <= k0 < ss0.len() && (#[trigger] ss0[k0]).start
                                            <= ss1[k].start && ss1[k].end <= ss0[k0].end;
                                    assert(ranges_disjoint(
                                        rec_addr(m, i2),
                                        rec_addr(m, i2) + rec_len(m, i2),
                                        ss0[k0].start as int,
                                        ss0[k0].end as int,
                                    ));
                                }
                            }
                            assert forall|i1: int, i2: int|
                                0 <= i1 < i + 1 && 0 <= i2 < i + 1 && i1 != i2
                                    && #[trigger] occupied_at(m, i1) && #[trigger] occupied_at(
                                    m,
                                    i2,
                                ) implies ranges_disjoint(
                                rec_addr(m, i1),
                                rec_addr(m, i1) + rec_len(m, i1),
                                rec_addr(m, i2),
                                rec_addr(m, i2) + rec_len(m, i2),
                            ) by {
                                if i1 == i as int && i2 < i {
                                    assert(ranges_disjoint(
                                        rec_addr(m, i2),
                                        rec_addr(m, i2) + rec_len(m, i2),
                                        ss0[kc].start as int,
                                        ss0[kc].end as int,
                                    ));
                                } else if i2 == i as int && i1 < i {
                                    assert(ranges_disjoint(
                                        rec_addr(m, i1),
                                        rec_addr(m, i1) + rec_len(m, i1),
                                        ss0[kc].start as int,
                                        ss0[kc].end as int,
                                    ));
                                }
                            }
                            if SLOTS > 0 {
                                crate::freespace::lemma_directed_covered(ss0, ss1, a, sz);
                                assert forall|x: int|
                                    (spec_data_start(n) <= x < spec_data_end(m)) <==> (
                                #[trigger] covered(ss1, x) || exists|i2: int|
                                        0 <= i2 < i + 1 && #[trigger] occupied_at(m, i2)
                                            && rec_addr(m, i2) <= x < rec_addr(m, i2) + rec_len(
                                            m,
                                            i2,
                                        )) by {
                                    assert(region_covered(m, n, i as int, ss0));
                                    assert((spec_data_start(n) <= x < spec_data_end(m)) <==> (
                                    covered(ss0, x) || exists|i2: int|
                                        0 <= i2 < i && #[trigger] occupied_at(m, i2) && rec_addr(
                                            m,
                                            i2,
                                        ) <= x < rec_addr(m, i2) + rec_len(m, i2)));
                                    if spec_data_start(n) <= x < spec_data_end(m) {
                                        if covered(ss0, x) {
                                            if a <= x < a + sz {
                                                assert(occupied_at(m, i as int) && rec_addr(
                                                    m,
                                                    i as int,
                                                ) <= x < rec_addr(m, i as int) + rec_len(
                                                    m,
                                                    i as int,
                                                ));
                                            } else {
                                                assert(covered(ss1, x));
                                            }
                                        }
                                    } else {
                                        if covered(ss1, x) {
                                            assert(covered(ss0, x));
                                        }
                                        if exists|i2: int|
                                            0 <= i2 < i + 1 && #[trigger] occupied_at(m, i2)
                                                && rec_addr(m, i2) <= x < rec_addr(m, i2)
                                                + rec_len(m, i2) {
                                            let iw = choose|i2: int|
                                                0 <= i2 < i + 1 && #[trigger] occupied_at(m, i2)
                                                    && rec_addr(m, i2) <= x < rec_addr(m, i2)
                                                    + rec_len(m, i2);
                                            if iw == i as int {
                                                assert(a <= x < a + sz);
                                            }
                                            assert(false);
                                        }
                                    }
                                }
                                assert(region_covered(m, n, i + 1, ss1));
                            }
                        }
                    },
                    None => {
                        proof {
                            assert(occupied_at(m, i as int));
                        }
                        return Err(Error::StoreOverflow);
                    },
                }
            } else {
                proof {
                    if SLOTS > 0 {
                        assert(!occupied_at(m, i as int));
                        assert forall|x: int|
                            (spec_data_start(n) <= x < spec_data_end(m)) <==> (#[trigger] covered(
                            al.slots_view(),
                            x,
                        ) || exists|i2: int|
                                0 <= i2 < i + 1 && #[trigger] occupied_at(m, i2) && rec_addr(
                                    m,
                                    i2,
                                ) <= x < rec_addr(m, i2) + rec_len(m, i2)) by {
                            assert(region_covered(m, n, i as int, al.slots_view()));
                            assert((spec_data_start(n) <= x < spec_data_end(m)) <==> (covered(
                                al.slots_view(),
                                x,
                            ) || exists|i2: int|
                                0 <= i2 < i && #[trigger] occupied_at(m, i2) && rec_addr(m, i2)
                                    <= x < rec_addr(m, i2) + rec_len(m, i2)));
                            if exists|i2: int|
                                0 <= i2 < i + 1 && #[trigger] occupied_at(m, i2) && rec_addr(
                                    m,
                                    i2,
                                ) <= x < rec_addr(m, i2) + rec_len(m, i2) {
                                let iw = choose|i2: int|
                                    0 <= i2 < i + 1 && #[trigger] occupied_at(m, i2) && rec_addr(
                                        m,
                                        i2,
                                    ) <= x < rec_addr(m, i2) + rec_len(m, i2);
                                assert(iw < i);
                            }
                        }
                        assert(region_covered(m, n, i + 1, al.slots_view()));
                    }
                }
            }
            i += 1;
        }
        Ok(al)
    }

    /// Makes sure the free list exists, rebuilding it from the bucket table
    /// if this is the first mutation since opening.
    fn ensure_freelist(&mut self) -> (r: Result<(), Error<A::Error>>)
        requires
            old(self).wf(),
        ensures
            final(self).wf(),
            final(self).mem() == old(self).mem(),
            final(self).same_shape(old(self)),
            match r {
                Ok(_) => final(self).slots_opt() is Some && (old(self).slots_opt() is Some
                    ==> final(self).slots_opt() == old(self).slots_opt()) && ((old(
                    self,
                ).slots_opt() is None && SLOTS > 0 && forall|i: int|
                    0 <= i < BUCKETS ==> !occupied_at(old(self).mem(), i))
                    ==> final(self).slots_opt().unwrap()[0].spec_size() >= spec_data_end(
                    old(self).mem(),
                ) - spec_data_start(BUCKETS as int)),
                Err(Error::StoreOverflow) => final(self).unchanged(old(self)) && old(
                    self,
                ).slots_opt() is None && (exists|i: int|
                    0 <= i < BUCKETS && occupied_at(old(self).mem(), i)),
                Err(Error::AdapterError(_)) => final(self).unchanged(old(self)),
                Err(_) => false,
            },
    {
        if self.freelist.is_some() {
            return Ok(());
        }
        match self.load_index() {
            Ok(al) => {
                self.freelist = Some(al);
                Ok(())
            },
            Err(err) => Err(err),
        }
    }

    /// Walks `key`'s probe sequence to the first bucket an insert can take:
    /// an empty bucket (a fresh insert) or the bucket already holding `key`
    /// (a replace). Exhausting the budget is `IndexOverflow`.
    fn choose_bucket(&mut self, key: &[u8]) -> (r: Result<BucketChoice, Error<A::Error>>)
        requires
            old(self).wf(),
            0 < key@.len() <= MAX_KEY_LEN,
        ensures
            final(self).wf(),
            final(self).unchanged(old(self)),
            match r {
                Ok(c) => {
                    let ch = crate::layout::choice_hop(
                        old(self).mem(),
                        old(self).spec_nonce(),
                        key@,
                        old(self).spec_max_hops() as nat,
                        BUCKETS as nat,
                    );
                    &&& ch is Some
                    &&& c.index == probe_index(
                        old(self).spec_nonce(),
                        key@,
                        ch.unwrap(),
                        BUCKETS as nat,
                    )
                    &&& c.index < BUCKETS
                    &&& match c.existing {
                        Some(e) => entry_matches(
                            old(self).mem(),
                            c.index as int,
                            old(self).spec_nonce(),
                            key@,
                        ) && e == entry_at(old(self).mem(), c.index as int),
                        None => !occupied_at(old(self).mem(), c.index as int),
                    }
                },
                Err(Error::IndexOverflow) => crate::layout::choice_hop(
                    old(self).mem(),
                    old(self).spec_nonce(),
                    key@,
                    old(self).spec_max_hops() as nat,
                    BUCKETS as nat,
                ) is None,
                Err(Error::AdapterError(_)) => true,
                Err(_) => false,
            },
    {
        let ghost nonce = self.spec_nonce();
        let ghost hops = self.spec_max_hops() as nat;
        let max_hops = self.cfg.max_hops;
        let mut hopper = Grasshopper::<BUCKETS>::new(max_hops, self.cfg.nonce, key);
        let hash = hopper.hash();
        let mut hop: usize = 0;
        while hop < max_hops
            invariant
                self.wf(),
                self.unchanged(old(self)),
                nonce == self.spec_nonce(),
                hops == self.spec_max_hops() as nat,
                max_hops == self.spec_max_hops(),
                0 < BUCKETS <= 0xffff,
                0 < key@.len() <= MAX_KEY_LEN,
                hopper.wf(),
                hopper.spec_key() == key@,
                hopper.spec_nonce() == nonce,
                hopper.cur_hop() == hop,
                hopper.hops_left() == max_hops - hop,
                hash == key_hash(nonce, key@),
                hop <= max_hops,
                forall|g: nat|
                    g < hop ==> !entry_suitable(
                        self.mem(),
                        #[trigger] probe_index(nonce, key@, g, BUCKETS as nat) as int,
                        nonce,
                        key@,
                    ),
            decreases max_hops - hop,
        {
            let index = hopper.next().unwrap();
            let e = match self.read_entry(index) {
                Ok(e) => e,
                Err(err) => {
                    return Err(err);
                },
            };
            if e.key_len == 0 {
                proof {
                    crate::layout::lemma_choice_hop_is(
                        self.mem(),
                        nonce,
                        key@,
                        hops,
                        BUCKETS as nat,
                        hop as nat,
                    );
                }
                return Ok(BucketChoice { index, existing: None });
            }
            if e.hash != hash || e.key_len as usize != key.len() {
                hop += 1;
                continue ;
            }
            let data = match self.adapter.read(e.address as usize, e.key_len as usize) {
                Ok(d) => d,
                Err(ae) => {
                    return Err(Error::AdapterError(ae));
                },
            };
            if !bytes_eq(data.as_slice(), key) {
                proof {
                    assert(key_at(self.mem(), index as int) == data@);
                }
                hop += 1;
                continue ;
            }
            proof {
                assert(entry_matches(self.mem(), index as int, nonce, key@));
                crate::layout::lemma_choice_hop_is(
                    self.mem(),
                    nonce,
                    key@,
                    hops,
                    BUCKETS as nat,
                    hop as nat,
                );
            }
            return Ok(BucketChoice { index, existing: Some(e) });
        }
        proof {
            crate::layout::lemma_choice_hop_is_none(self.mem(), nonce, key@, hops, BUCKETS as nat);
        }
        Err(Error::IndexOverflow)
    }

    /// Stores `val` under `key`. The first suitable bucket of `key`'s probe
    /// walk takes the record: an empty bucket for a fresh key, or the
    /// bucket already holding `key`, whose old range is freed first (a
    /// replace). The record's bytes are written before the bucket entry, so
    /// an interrupted insert leaves no live bucket pointing at missing
    /// data. Fails with `ReadOnlyStore` exactly when the store has no
    /// free-list slots, with `IndexOverflow` exactly when the probe budget
    /// finds no suitable bucket, and with `StoreOverflow` when the free
    /// list cannot be rebuilt or has no fitting range.
    #[verifier::rlimit(80)]
    pub fn insert(&mut self, key: &[u8], val: &[u8]) -> (r: Result<Bucket, Error<A::Error>>)
        requires
            old(self).wf(),
            0 < key@.len() <= MAX_KEY_LEN,
            0 < val@.len() <= MAX_VALUE_LEN,
        ensures
            final(self).wf(),
            final(self).same_shape(old(self)),
            match r {
                Ok(b) => inserted(
                    old(self).mem(),
                    final(self).mem(),
                    old(self).spec_nonce(),
                    old(self).spec_max_hops() as nat,
                    BUCKETS as nat,
                    key@,
                    val@,
                    b,
                ),
                Err(Error::ReadOnlyStore) => SLOTS == 0 && final(self).unchanged(old(self)),
                Err(Error::IndexOverflow) => crate::layout::choice_hop(
                    old(self).mem(),
                    old(self).spec_nonce(),
                    key@,
                    old(self).spec_max_hops() as nat,
                    BUCKETS as nat,
                ) is None && final(self).mem() == old(self).mem(),
                Err(Error::StoreOverflow) => final(self).mem() == old(self).mem()
                    && (old(self).slots_opt() matches Some(ss) ==> forall|k: int|
                    0 <= k < SLOTS ==> !slot_fits(
                        #[trigger] ss[k],
                        key@.len() + val@.len() as int,
                    )) && (old(self).slots_opt() is None ==> ((exists|i: int|
                    0 <= i < BUCKETS && occupied_at(old(self).mem(), i)) || spec_data_end(
                    old(self).mem(),
                ) - spec_data_start(BUCKETS as int) < key@.len() + val@.len() as int)),
                Err(Error::AdapterError(_)) => true,
                Err(_) => false,
            },
            SLOTS == 0 ==> r matches Err(Error::ReadOnlyStore),
    {
        if SLOTS == 0 {
            return Err(Error::ReadOnlyStore);
        }
        match self.ensure_freelist() {
            Ok(_) => {},
            Err(err) => {
                return Err(err);
            },
        }
        let c = match self.choose_bucket(key) {
            Ok(c) => c,
            Err(err) => {
                return Err(err);
            },
        };
        let ghost m0 = self.mem();
        let ghost nonce = self.spec_nonce();
        let ghost hops = self.spec_max_hops() as nat;
        let ghost n = BUCKETS as nat;
        let mut al = self.freelist.take().unwrap();
        let ghost ss0 = al.slots_view();
        match c.existing {
            Some(e) => {
                proof {
                    assert(occupied_at(m0, c.index as int));
                }
                al.free(e.address as usize, e.key_len as usize + e.val_len as usize);
            },
            None => {},
        }
        let ghost ssf = al.slots_view();
        proof {
            lemma_freed_slots_fit(m0, BUCKETS as int, ss0, ssf, c.index as int, c.existing);
        }
        let total: usize = key.len() + val.len();
        let addr: usize = match al.allocate(total, None) {
            Some(a) => a,
            None => {
                proof {
                    lemma_free_never_shrinks_fits(ss0, ssf, total as int);
                    if !(exists|i: int| 0 <= i < BUCKETS && occupied_at(m0, i)) {
                        assert(forall|i: int| 0 <= i < BUCKETS ==> !occupied_at(m0, i));
                        assert(!slot_fits(ss0[0], total as int));
                    }
                }
                return Err(Error::StoreOverflow);
            },
        };
        let ghost ss1 = al.slots_view();
        let ghost k_pick = choose|k: int|
            {
                &&& crate::freespace::anon_pick_ok(ssf, total as int, al.strategy(), k)
                &&& addr == ssf[k].start
                &&& ss1 == ssf.update(
                    k,
                    Slot { start: (addr + total) as usize, end: ssf[k].end },
                )
            };
        proof {
            assert(slot_contains_range(ssf[k_pick], addr as int, total as int));
            assert(spec_data_start(BUCKETS as int) <= addr && addr + total <= spec_data_end(m0));
        }
        match self.adapter.write(addr, key) {
            Ok(_) => {},
            Err(ae) => {
                return Err(Error::AdapterError(ae));
            },
        }
        let ghost mk = self.mem();
        match self.adapter.write(addr + key.len(), val) {
            Ok(_) => {},
            Err(ae) => {
                return Err(Error::AdapterError(ae));
            },
        }
        let ghost mv = self.mem();
        let entry = BucketEntry {
            val_len: val.len() as u16,
            key_len: key.len() as u8,
            address: addr as u32,
            hash: crate::grasshopper::hash_of_key(self.cfg.nonce, key),
        };
        match self.write_entry(c.index, &entry) {
            Ok(_) => {},
            Err(err) => {
                return Err(err);
            },
        }
        let ghost m1 = self.mem();
        self.freelist = Some(al);
        let b = Bucket {
            index: c.index,
            address: addr as u32,
            key_len: key.len() as u8,
            val_len: val.len() as u16,
            hash: entry.hash,
        };
        proof {
            lemma_insert_writes(
                m0,
                mk,
                mv,
                m1,
                nonce,
                hops,
                BUCKETS as int,
                key@,
                val@,
                b,
                ssf,
                k_pick,
                c.existing,
            );
            lemma_insert_wf(m0, m1, BUCKETS as int, ssf, ss1, k_pick, b, c.existing);
        }
        Ok(b)
    }

    /// Overwrites `[addr, addr + len)` with the fill byte, in chunks of at
    /// most 8 bytes so paged media can take them at any alignment.
    fn erase_bucket_content(&mut self, addr: usize, len: usize, fill: u8) -> (r: Result<
        (),
        Error<A::Error>,
    >)
        requires
            addr + len <= usize::MAX,
        ensures
            final(self).same_shape(old(self)),
            final(self).slots_opt() == old(self).slots_opt(),
            match r {
                Ok(_) => (len > 0 ==> addr + len <= old(self).mem().len())
                    && final(self).mem().len() == old(self).mem().len() && (forall|x: int|
                    0 <= x < old(self).mem().len() ==> final(self).mem()[x] == (if addr <= x < addr
                        + len {
                        fill
                    } else {
                        old(self).mem()[x]
                    })),
                Err(Error::AdapterError(_)) => true,
                Err(_) => false,
            },
    {
        let filler: Vec<u8> = vec![fill; 8];
        let mut off: usize = 0;
        while off < len
            invariant
                off <= len,
                addr + len <= usize::MAX,
                filler@ == Seq::new(8, |i: int| fill),
                self.same_shape(old(self)),
                self.slots_opt() == old(self).slots_opt(),
                self.mem().len() == old(self).mem().len(),
                off > 0 ==> addr + off <= self.mem().len(),
                forall|x: int|
                    0 <= x < self.mem().len() ==> self.mem()[x] == (if addr <= x < addr + off {
                        fill
                    } else {
                        old(self).mem()[x]
                    }),
            decreases len - off,
        {
            let chunk: usize = if len - off < 8 {
                len - off
            } else {
                8
            };
            let part = vstd::slice::slice_subrange(filler.as_slice(), 0, chunk);
            match self.adapter.write(addr + off, part) {
                Ok(_) => {},
                Err(ae) => {
                    return Err(Error::AdapterError(ae));
                },
            }
            off += chunk;
        }
        Ok(())
    }

    /// What removing or erasing `key` does to the free list: with no match
    /// the store is untouched entirely; with a match and a loaded free list,
    /// the record's exact range goes back to `free`, whose coverage then
    /// grows by exactly that range whenever a neighbouring or unused slot
    /// could take it.
    pub open spec fn removal_frees_record(&self, post: &Self, key: Seq<u8>) -> bool {
        let fi = found_index(
            self.mem(),
            self.spec_nonce(),
            key,
            self.spec_max_hops() as nat,
            BUCKETS as nat,
        );
        match fi {
            None => post.unchanged(self),
            Some(idx) => (self.slots_opt() matches Some(ss) ==> post.slots_opt() matches Some(ssf)
                && ssf.len() == ss.len() && (forall|x: int|
                covered(ssf, x) <==> (covered(ss, x) || (can_free(
                    ss,
                    rec_addr(self.mem(), idx),
                    rec_len(self.mem(), idx),
                ) && rec_addr(self.mem(), idx) <= x < rec_addr(self.mem(), idx) + rec_len(
                    self.mem(),
                    idx,
                ))))),
        }
    }

    /// Removes `key`: the bucket holding it is zeroed and its record's range
    /// returns to the free list; the record's bytes stay on the medium.
    /// Removing an absent key succeeds and changes nothing.
    pub fn remove(&mut self, key: &[u8]) -> (r: Result<(), Error<A::Error>>)
        requires
            old(self).wf(),
            0 < key@.len() <= MAX_KEY_LEN,
        ensures
            final(self).wf(),
            final(self).same_shape(old(self)),
            match r {
                Ok(_) => removed_key(
                    old(self).mem(),
                    final(self).mem(),
                    old(self).spec_nonce(),
                    old(self).spec_max_hops() as nat,
                    BUCKETS as nat,
                    key@,
                ) && old(self).removal_frees_record(final(self), key@),
                Err(Error::ReadOnlyStore) => SLOTS == 0 && final(self).unchanged(old(self)),
                Err(Error::StoreOverflow) => final(self).mem() == old(self).mem() && old(
                    self,
                ).slots_opt() is None && (exists|i: int|
                    0 <= i < BUCKETS && occupied_at(old(self).mem(), i)),
                Err(Error::AdapterError(_)) => true,
                Err(_) => false,
            },
    {
        if SLOTS == 0 {
            return Err(Error::ReadOnlyStore);
        }
        let ghost m0 = self.mem();
        let b = match self.lookup(key) {
            Ok(b) => b,
            Err(Error::KeyNotFound) => {
                return Ok(());
            },
            Err(err) => {
                return Err(err);
            },
        };
        match self.ensure_freelist() {
            Ok(_) => {},
            Err(err) => {
                return Err(err);
            },
        }
        let ghost ss0 = self.slots_opt().unwrap();
        proof {
            assert(occupied_at(m0, b.index as int));
            assert(index_wf(m0, BUCKETS as int, ss0));
            assert(rec_addr(m0, b.index as int) == b.address);
            assert(rec_len(m0, b.index as int) == b.key_len + b.val_len);
            assert(spec_data_start(BUCKETS as int) <= rec_addr(m0, b.index as int));
            assert(rec_addr(m0, b.index as int) + rec_len(m0, b.index as int) <= spec_data_end(
                m0,
            ));
            assert(spec_data_start(BUCKETS as int) <= m0.len());
            assert forall|j: int| 0 <= j < SLOTS implies ranges_disjoint(
                b.address as int,
                b.address + b.key_len + b.val_len,
                (#[trigger] ss0[j]).start as int,
                ss0[j].end as int,
            ) by {}
        }
        match self.write_entry(b.index, &crate::layout::BucketEntry {
            val_len: 0,
            key_len: 0,
            address: 0,
            hash: 0,
        }) {
            Ok(_) => {},
            Err(err) => {
                return Err(err);
            },
        }
        let ghost m1 = self.mem();
        proof {
            lemma_zeroed_entry(m0, m1, BUCKETS as int, b.index as int);
        }
        let mut al = self.freelist.take().unwrap();
        al.free(b.address as usize, b.key_len as usize + b.val_len as usize);
        proof {
            lemma_remove_wf(m0, m1, BUCKETS as int, ss0, al.slots_view(), b.index as int);
        }
        self.freelist = Some(al);
        Ok(())
    }

    /// Removes `key` after overwriting its record's bytes with `fill_with`:
    /// for secrets hygiene on media where reads persist. Erasing an absent
    /// key succeeds and changes nothing.
    pub fn erase(&mut self, key: &[u8], fill_with: u8) -> (r: Result<(), Error<A::Error>>)
        requires
            old(self).wf(),
            0 < key@.len() <= MAX_KEY_LEN,
        ensures
            final(self).wf(),
            final(self).same_shape(old(self)),
            match r {
                Ok(_) => erased_key(
                    old(self).mem(),
                    final(self).mem(),
                    old(self).spec_nonce(),
                    old(self).spec_max_hops() as nat,
                    BUCKETS as nat,
                    key@,
                    fill_with,
                ) && old(self).removal_frees_record(final(self), key@),
                Err(Error::ReadOnlyStore) => SLOTS == 0 && final(self).unchanged(old(self)),
                Err(Error::StoreOverflow) => final(self).mem() == old(self).mem() && old(
                    self,
                ).slots_opt() is None && (exists|i: int|
                    0 <= i < BUCKETS && occupied_at(old(self).mem(), i)),
                Err(Error::AdapterError(_)) => true,
                Err(_) => false,
            },
    {
        if SLOTS == 0 {
            return Err(Error::ReadOnlyStore);
        }
        let ghost m0 = self.mem();
        let b = match self.lookup(key) {
            Ok(b) => b,
            Err(Error::KeyNotFound) => {
                return Ok(());
            },
            Err(err) => {
                return Err(err);
            },
        };
        match self.ensure_freelist() {
            Ok(_) => {},
            Err(err) => {
                return Err(err);
            },
        }
        let ghost ss0 = self.slots_opt().unwrap();
        proof {
            assert(occupied_at(m0, b.index as int));
            assert(index_wf(m0, BUCKETS as int, ss0));
            assert(rec_addr(m0, b.index as int) == b.address);
            assert(rec_len(m0, b.index as int) == b.key_len + b.val_len);
            assert(spec_data_start(BUCKETS as int) <= rec_addr(m0, b.index as int));
            assert(rec_addr(m0, b.index as int) + rec_len(m0, b.index as int) <= spec_data_end(
                m0,
            ));
            assert(spec_data_start(BUCKETS as int) <= m0.len());
            assert forall|j: int| 0 <= j < SLOTS implies ranges_disjoint(
                b.address as int,
                b.address + b.key_len + b.val_len,
                (#[trigger] ss0[j]).start as int,
                ss0[j].end as int,
            ) by {}
        }
        match self.erase_bucket_content(
            b.address as usize,
            b.key_len as usize + b.val_len as usize,
            fill_with,
        ) {
            Ok(_) => {},
            Err(err) => {
                self.freelist = None;
                return Err(err);
            },
        }
        let ghost mf = self.mem();
        match self.write_entry(b.index, &crate::layout::BucketEntry {
            val_len: 0,
            key_len: 0,
            address: 0,
            hash: 0,
        }) {
            Ok(_) => {},
            Err(err) => {
                return Err(err);
            },
        }
        let ghost m1 = self.mem();
        proof {
            lemma_zeroed_entry(mf, m1, BUCKETS as int, b.index as int);
            assert forall|j: int|
                0 <= j < BUCKETS && j != b.index implies entry_at(m1, j) == entry_at(m0, j) by {
                assert(bucket_off(j) + 8 <= spec_data_start(BUCKETS as int) <= rec_addr(
                    m0,
                    b.index as int,
                ));
                crate::layout::lemma_entry_frame(m0, mf, j);
            }
        }
        let mut al = self.freelist.take().unwrap();
        al.free(b.address as usize, b.key_len as usize + b.val_len as usize);
        proof {
            lemma_remove_wf(m0, m1, BUCKETS as int, ss0, al.slots_view(), b.index as int);
        }
        self.freelist = Some(al);
        Ok(())
    }

    /// Reserves a record for `key` with a `val_len`-byte value, without
    /// providing the value bytes: the same flow as `insert`, but the value
    /// region is only pre-filled with `fill_with` when one is given, and
    /// otherwise keeps whatever bytes the medium held there.
    #[verifier::rlimit(80)]
    pub fn allocate(&mut self, key: &[u8], val_len: usize, fill_with: Option<u8>) -> (r: Result<
        Bucket,
        Error<A::Error>,
    >)
        requires
            old(self).wf(),
            0 < key@.len() <= MAX_KEY_LEN,
            0 < val_len <= MAX_VALUE_LEN,
        ensures
            final(self).wf(),
            final(self).same_shape(old(self)),
            match r {
                Ok(b) => inserted(
                    old(self).mem(),
                    final(self).mem(),
                    old(self).spec_nonce(),
                    old(self).spec_max_hops() as nat,
                    BUCKETS as nat,
                    key@,
                    val_at(final(self).mem(), b.index as int),
                    b,
                ) && (match fill_with {
                    Some(f) => val_at(final(self).mem(), b.index as int) == Seq::new(
                        val_len as nat,
                        |i: int| f,
                    ),
                    None => val_at(final(self).mem(), b.index as int) == old(self).mem().subrange(
                        b.address + key@.len(),
                        b.address + key@.len() + val_len,
                    ),
                }),
                Err(Error::ReadOnlyStore) => SLOTS == 0 && final(self).unchanged(old(self)),
                Err(Error::IndexOverflow) => crate::layout::choice_hop(
                    old(self).mem(),
                    old(self).spec_nonce(),
                    key@,
                    old(self).spec_max_hops() as nat,
                    BUCKETS as nat,
                ) is None && final(self).mem() == old(self).mem(),
                Err(Error::StoreOverflow) => final(self).mem() == old(self).mem()
                    && (old(self).slots_opt() matches Some(ss) ==> forall|k: int|
                    0 <= k < SLOTS ==> !slot_fits(
                        #[trigger] ss[k],
                        key@.len() + val_len as int,
                    )) && (old(self).slots_opt() is None ==> ((exists|i: int|
                    0 <= i < BUCKETS && occupied_at(old(self).mem(), i)) || spec_data_end(
                    old(self).mem(),
                ) - spec_data_start(BUCKETS as int) < key@.len() + val_len as int)),
                Err(Error::AdapterError(_)) => true,
                Err(_) => false,
            },
            SLOTS == 0 ==> r matches Err(Error::ReadOnlyStore),
    {
        if SLOTS == 0 {
            return Err(Error::ReadOnlyStore);
        }
        match self.ensure_freelist() {
            Ok(_) => {},
            Err(err) => {
                return Err(err);
            },
        }
        let c = match self.choose_bucket(key) {
            Ok(c) => c,
            Err(err) => {
                return Err(err);
            },
        };
        let ghost m0 = self.mem();
        let ghost nonce = self.spec_nonce();
        let ghost hops = self.spec_max_hops() as nat;
        let mut al = self.freelist.take().unwrap();
        let ghost ss0 = al.slots_view();
        match c.existing {
            Some(e) => {
                proof {
                    assert(occupied_at(m0, c.index as int));
                }
                al.free(e.address as usize, e.key_len as usize + e.val_len as usize);
            },
            None => {},
        }
        let ghost ssf = al.slots_view();
        proof {
            lemma_freed_slots_fit(m0, BUCKETS as int, ss0, ssf, c.index as int, c.existing);
        }
        let total: usize = key.len() + val_len;
        let addr: usize = match al.allocate(total, None) {
            Some(a) => a,
            None => {
                proof {
                    lemma_free_never_shrinks_fits(ss0, ssf, total as int);
                    if !(exists|i: int| 0 <= i < BUCKETS && occupied_at(m0, i)) {
                        assert(forall|i: int| 0 <= i < BUCKETS ==> !occupied_at(m0, i));
                        assert(!slot_fits(ss0[0], total as int));
                    }
                }
                return Err(Error::StoreOverflow);
            },
        };
        let ghost ss1 = al.slots_view();
        let ghost k_pick = choose|k: int|
            {
                &&& crate::freespace::anon_pick_ok(ssf, total as int, al.strategy(), k)
                &&& addr == ssf[k].start
                &&& ss1 == ssf.update(
                    k,
                    Slot { start: (addr + total) as usize, end: ssf[k].end },
                )
            };
        proof {
            assert(slot_contains_range(ssf[k_pick], addr as int, total as int));
            assert(spec_data_start(BUCKETS as int) <= addr && addr + total <= spec_data_end(m0));
        }
        match self.adapter.write(addr, key) {
            Ok(_) => {},
            Err(ae) => {
                return Err(Error::AdapterError(ae));
            },
        }
        let ghost mk = self.mem();
        match fill_with {
            Some(f) => {
                match self.erase_bucket_content(addr + key.len(), val_len, f) {
                    Ok(_) => {},
                    Err(err) => {
                        return Err(err);
                    },
                }
            },
            None => {},
        }
        let ghost mv = self.mem();
        let ghost vbytes = mv.subrange(addr + key@.len(), addr + key@.len() + val_len);
        proof {
            assert(mv =~= crate::layout::write_bytes(mk, addr + key@.len(), vbytes));
            match fill_with {
                Some(f) => {
                    assert(vbytes =~= Seq::new(val_len as nat, |i: int| f));
                },
                None => {
                    assert(vbytes =~= m0.subrange(addr + key@.len(), addr + key@.len() + val_len));
                },
            }
        }
        let entry = BucketEntry {
            val_len: val_len as u16,
            key_len: key.len() as u8,
            address: addr as u32,
            hash: crate::grasshopper::hash_of_key(self.cfg.nonce, key),
        };
        match self.write_entry(c.index, &entry) {
            Ok(_) => {},
            Err(err) => {
                return Err(err);
            },
        }
        let ghost m1 = self.mem();
        self.freelist = Some(al);
        let b = Bucket {
            index: c.index,
            address: addr as u32,
            key_len: key.len() as u8,
            val_len: val_len as u16,
            hash: entry.hash,
        };
        proof {
            lemma_insert_writes(
                m0,
                mk,
                mv,
                m1,
                nonce,
                hops,
                BUCKETS as int,
                key@,
                vbytes,
                b,
                ssf,
                k_pick,
                c.existing,
            );
            lemma_insert_wf(m0, m1, BUCKETS as int, ssf, ss1, k_pick, b, c.existing);
            assert(val_at(m1, b.index as int) == vbytes);
        }
        Ok(b)
    }

    /// Rewrites `bucket`'s value from `offset` on with `patch`, growing the
    /// value in place — into adjacent free space — when the patch reaches
    /// past the old end. The updated entry is written before the patch
    /// bytes when the record grew.
    #[verifier::rlimit(80)]
    fn patch_value(
        &mut self,
        Ghost(key): Ghost<Seq<u8>>,
        bucket: Bucket,
        offset: usize,
        patch: &[u8],
    ) -> (r: Result<Bucket, Error<A::Error>>)
        requires
            old(self).wf(),
            old(self).slots_opt() is Some,
            old(self).lookup_ok(key, bucket),
            0 < key.len() <= MAX_KEY_LEN,
            offset <= bucket.val_len,
            patch@.len() > 0,
            offset + patch@.len() <= MAX_VALUE_LEN,
        ensures
            final(self).wf(),
            final(self).same_shape(old(self)),
            match r {
                Ok(b2) => patched(
                    old(self).mem(),
                    final(self).mem(),
                    old(self).spec_nonce(),
                    old(self).spec_max_hops() as nat,
                    BUCKETS as nat,
                    key,
                    offset as int,
                    patch@,
                    b2,
                ),
                Err(Error::ValueOverflow) => final(self).unchanged(old(self)) && offset
                    + patch@.len() > bucket.val_len && !can_alloc_directed(
                    old(self).slots_opt().unwrap(),
                    bucket.address + bucket.key_len + bucket.val_len,
                    offset + patch@.len() - bucket.val_len,
                ),
                Err(Error::AdapterError(_)) => true,
                Err(_) => false,
            },
            r is Ok ==> (if offset + patch@.len() > bucket.val_len {
                final(self).slots_opt() matches Some(ssf) && directed_effect(
                    old(self).slots_opt().unwrap(),
                    ssf,
                    bucket.address + bucket.key_len + bucket.val_len,
                    offset + patch@.len() - bucket.val_len,
                )
            } else {
                final(self).slots_opt() == old(self).slots_opt()
            }),
    {
        let ghost m0 = self.mem();
        let ghost nonce = self.spec_nonce();
        let ghost hops = self.spec_max_hops() as nat;
        let ghost n = BUCKETS as int;
        let idx = bucket.index;
        let ghost ss0 = self.slots_opt().unwrap();
        proof {
            assert(occupied_at(m0, idx as int));
            assert(index_wf(m0, n, ss0));
            assert(rec_addr(m0, idx as int) == bucket.address);
            assert(rec_len(m0, idx as int) == bucket.key_len + bucket.val_len);
            assert(spec_data_start(n) <= rec_addr(m0, idx as int));
            assert(rec_addr(m0, idx as int) + rec_len(m0, idx as int) <= spec_data_end(m0));
            crate::layout::lemma_find_hop_spec(m0, nonce, key, hops, BUCKETS as nat);
            assert(entry_matches(m0, idx as int, nonce, key));
        }
        let new_len: usize = if offset + patch.len() > bucket.val_len as usize {
            offset + patch.len()
        } else {
            bucket.val_len as usize
        };
        let mut b2 = bucket;
        let ghost mut ss1 = ss0;
        if new_len > bucket.val_len as usize {
            let grow: usize = new_len - bucket.val_len as usize;
            let rec_end: usize = bucket.address as usize + bucket.key_len as usize
                + bucket.val_len as usize;
            let mut al = self.freelist.take().unwrap();
            match al.allocate(grow, Some(rec_end)) {
                Some(_) => {},
                None => {
                    self.freelist = Some(al);
                    return Err(Error::ValueOverflow);
                },
            }
            proof {
                ss1 = al.slots_view();
                crate::freespace::lemma_directed_effect_shrinks(ss0, ss1, rec_end as int, grow as int);
            }
            let e2 = BucketEntry {
                val_len: new_len as u16,
                key_len: bucket.key_len,
                address: bucket.address,
                hash: bucket.hash,
            };
            match self.write_entry(idx, &e2) {
                Ok(_) => {},
                Err(err) => {
                    return Err(err);
                },
            }
            self.freelist = Some(al);
            b2 = Bucket {
                index: bucket.index,
                address: bucket.address,
                key_len: bucket.key_len,
                val_len: new_len as u16,
                hash: bucket.hash,
            };
        }
        let ghost me = self.mem();
        let waddr: usize = bucket.address as usize + bucket.key_len as usize + offset;
        match self.adapter.write(waddr, patch) {
            Ok(_) => {},
            Err(ae) => {
                self.freelist = None;
                return Err(Error::AdapterError(ae));
            },
        }
        let ghost m1 = self.mem();
        proof {
            lemma_patch_value_post(
                m0,
                me,
                m1,
                nonce,
                hops,
                n,
                key,
                bucket,
                b2,
                offset as int,
                patch@,
                ss0,
                ss1,
            );
        }
        Ok(b2)
    }

    /// Rewrites `key`'s value from `offset` on with `patch`. `offset` may
    /// equal the value's length (append at the end) but not exceed it —
    /// else `InvalidPatchOffset`; growing past the end takes adjacent free
    /// space, and `ValueOverflow` says there was none.
    pub fn patch(&mut self, key: &[u8], offset: usize, patch: &[u8]) -> (r: Result<
        Bucket,
        Error<A::Error>,
    >)
        requires
            old(self).wf(),
            0 < key@.len() <= MAX_KEY_LEN,
            patch@.len() > 0,
            offset + patch@.len() <= MAX_VALUE_LEN,
        ensures
            final(self).wf(),
            final(self).same_shape(old(self)),
            match r {
                Ok(b2) => patched(
                    old(self).mem(),
                    final(self).mem(),
                    old(self).spec_nonce(),
                    old(self).spec_max_hops() as nat,
                    BUCKETS as nat,
                    key@,
                    offset as int,
                    patch@,
                    b2,
                ),
                Err(Error::KeyNotFound) => find_hop(
                    old(self).mem(),
                    old(self).spec_nonce(),
                    key@,
                    old(self).spec_max_hops() as nat,
                    BUCKETS as nat,
                ) is None && final(self).mem() == old(self).mem(),
                Err(Error::InvalidPatchOffset) => {
                    let fi = found_index(
                        old(self).mem(),
                        old(self).spec_nonce(),
                        key@,
                        old(self).spec_max_hops() as nat,
                        BUCKETS as nat,
                    );
                    fi is Some && offset > entry_at(old(self).mem(), fi.unwrap()).val_len
                        && final(self).mem() == old(self).mem()
                },
                Err(Error::ReadOnlyStore) => SLOTS == 0 && final(self).unchanged(old(self)),
                Err(Error::ValueOverflow) => final(self).mem() == old(self).mem() && {
                    let fi = found_index(
                        old(self).mem(),
                        old(self).spec_nonce(),
                        key@,
                        old(self).spec_max_hops() as nat,
                        BUCKETS as nat,
                    );
                    &&& fi is Some
                    &&& offset <= entry_at(old(self).mem(), fi.unwrap()).val_len
                    &&& offset + patch@.len() > entry_at(old(self).mem(), fi.unwrap()).val_len
                    &&& (old(self).slots_opt() matches Some(ss) ==> !can_alloc_directed(
                        ss,
                        entry_at(old(self).mem(), fi.unwrap()).address + entry_at(
                            old(self).mem(),
                            fi.unwrap(),
                        ).key_len + entry_at(old(self).mem(), fi.unwrap()).val_len,
                        offset + patch@.len() - entry_at(old(self).mem(), fi.unwrap()).val_len,
                    ))
                },
                Err(Error::StoreOverflow) => final(self).mem() == old(self).mem() && old(
                    self,
                ).slots_opt() is None && (exists|i: int|
                    0 <= i < BUCKETS && occupied_at(old(self).mem(), i)),
                Err(Error::AdapterError(_)) => true,
                Err(_) => false,
            },
            r matches Ok(b2) ==> (old(self).slots_opt() matches Some(ss) ==> {
                let e0 = entry_at(old(self).mem(), b2.index as int);
                if offset + patch@.len() > e0.val_len {
                    final(self).slots_opt() matches Some(ssf) && directed_effect(
                        ss,
                        ssf,
                        e0.address + e0.key_len + e0.val_len,
                        offset + patch@.len() - e0.val_len,
                    )
                } else {
                    final(self).slots_opt() == old(self).slots_opt()
                }
            }),
    {
        if SLOTS == 0 {
            return Err(Error::ReadOnlyStore);
        }
        let bucket = match self.lookup(key) {
            Ok(b) => b,
            Err(err) => {
                return Err(err);
            },
        };
        match self.ensure_freelist() {
            Ok(_) => {},
            Err(err) => {
                return Err(err);
            },
        }
        if offset > bucket.val_len as usize {
            return Err(Error::InvalidPatchOffset);
        }
        self.patch_value(Ghost(key@), bucket, offset, patch)
    }

    /// Appends `val` to the end of `key`'s stored value, growing it in
    /// place; `ValueOverflow` when the grown value would not fit its length
    /// field or no adjacent free space exists.
    pub fn append(&mut self, key: &[u8], val: &[u8]) -> (r: Result<Bucket, Error<A::Error>>)
        requires
            old(self).wf(),
            0 < key@.len() <= MAX_KEY_LEN,
            0 < val@.len() <= MAX_VALUE_LEN,
        ensures
            final(self).wf(),
            final(self).same_shape(old(self)),
            match r {
                Ok(b2) => {
                    let fi = found_index(
                        old(self).mem(),
                        old(self).spec_nonce(),
                        key@,
                        old(self).spec_max_hops() as nat,
                        BUCKETS as nat,
                    );
                    fi is Some && patched(
                        old(self).mem(),
                        final(self).mem(),
                        old(self).spec_nonce(),
                        old(self).spec_max_hops() as nat,
                        BUCKETS as nat,
                        key@,
                        entry_at(old(self).mem(), fi.unwrap()).val_len as int,
                        val@,
                        b2,
                    )
                },
                Err(Error::KeyNotFound) => find_hop(
                    old(self).mem(),
                    old(self).spec_nonce(),
                    key@,
                    old(self).spec_max_hops() as nat,
                    BUCKETS as nat,
                ) is None && final(self).mem() == old(self).mem(),
                Err(Error::ReadOnlyStore) => SLOTS == 0 && final(self).unchanged(old(self)),
                Err(Error::ValueOverflow) => final(self).mem() == old(self).mem() && {
                    let fi = found_index(
                        old(self).mem(),
                        old(self).spec_nonce(),
                        key@,
                        old(self).spec_max_hops() as nat,
                        BUCKETS as nat,
                    );
                    &&& fi is Some
                    &&& (entry_at(old(self).mem(), fi.unwrap()).val_len + val@.len()
                        > MAX_VALUE_LEN || (old(self).slots_opt() matches Some(ss)
                        ==> !can_alloc_directed(
                        ss,
                        entry_at(old(self).mem(), fi.unwrap()).address + entry_at(
                            old(self).mem(),
                            fi.unwrap(),
                        ).key_len + entry_at(old(self).mem(), fi.unwrap()).val_len,
                        val@.len() as int,
                    )))
                },
                Err(Error::StoreOverflow) => final(self).mem() == old(self).mem() && old(
                    self,
                ).slots_opt() is None && (exists|i: int|
                    0 <= i < BUCKETS && occupied_at(old(self).mem(), i)),
                Err(Error::AdapterError(_)) => true,
                Err(_) => false,
            },
            r matches Ok(b2) ==> (old(self).slots_opt() matches Some(ss) ==> {
                let e0 = entry_at(old(self).mem(), b2.index as int);
                final(self).slots_opt() matches Some(ssf) && directed_effect(
                    ss,
                    ssf,
                    e0.address + e0.key_len + e0.val_len,
                    val@.len() as int,
                )
            }),
    {
        if SLOTS == 0 {
            return Err(Error::ReadOnlyStore);
        }
        let bucket = match self.lookup(key) {
            Ok(b) => b,
            Err(err) => {
                return Err(err);
            },
        };
        match self.ensure_freelist() {
            Ok(_) => {},
            Err(err) => {
                return Err(err);
            },
        }
        if bucket.val_len as usize + val.len() > MAX_VALUE_LEN {
            return Err(Error::ValueOverflow);
        }
        let offset = bucket.val_len as usize;
        self.patch_value(Ghost(key@), bucket, offset, val)
    }

    /// An iterator over the stored keys, in bucket-table order.
    pub fn keys(&self) -> (it: KeysIterator)
        ensures
            it.spec_cursor() == 0,
            it.spec_prefix() is None,
    {
        KeysIterator::new()
    }

    /// An iterator over the stored keys that start with `prefix`, in
    /// bucket-table order.
    pub fn keys_with_prefix(&self, prefix: &[u8]) -> (it: KeysIterator)
        ensures
            it.spec_cursor() == 0,
            it.spec_prefix() == Some(prefix@),
    {
        KeysIterator::with_prefix(prefix)
    }

    /// `load_at` from the start of the value.
    pub fn load(&mut self, key: &[u8], buf: &mut Vec<u8>) -> (r: Result<Bucket, Error<A::Error>>)
        requires
            old(self).wf(),
            0 < key@.len() <= MAX_KEY_LEN,
            old(buf).len() > 0,
            old(buf).len() <= MAX_VALUE_LEN,
        ensures
            final(self).wf(),
            final(self).unchanged(old(self)),
            final(buf).len() == old(buf).len(),
            match r {
                Ok(b) => old(self).lookup_ok(key@, b) && {
                    let n = if b.val_len < old(buf)@.len() {
                        b.val_len as int
                    } else {
                        old(buf)@.len() as int
                    };
                    let start = b.address + b.key_len;
                    &&& start + n <= old(self).mem().len()
                    &&& final(buf)@ == old(self).mem().subrange(start, start + n) + old(
                        buf,
                    )@.skip(n)
                },
                Err(Error::KeyNotFound) => find_hop(
                    old(self).mem(),
                    old(self).spec_nonce(),
                    key@,
                    old(self).spec_max_hops() as nat,
                    BUCKETS as nat,
                ) is None && final(buf)@ == old(buf)@,
                Err(Error::AdapterError(_)) => true,
                Err(_) => false,
            },
    {
        self.load_at(key, buf, 0)
    }
}


/// Whether the keys walk yields bucket `i`: the bucket is occupied, its key
/// bytes lie on the medium, and they start with the iterator's prefix.
pub open spec fn yields_at(mem: Seq<u8>, i: int, prefix: Option<Seq<u8>>) -> bool {
    &&& occupied_at(mem, i)
    &&& rec_addr(mem, i) + entry_at(mem, i).key_len <= mem.len()
    &&& match prefix {
        None => true,
        Some(p) => entry_at(mem, i).key_len >= p.len() && key_at(mem, i).take(p.len() as int) == p,
    }
}

/// One stored key, copied out of the index, with its value's length.
pub struct KeyReference {
    key: Vec<u8>,
    val_len: usize,
}

impl KeyReference {
    /// The key bytes.
    pub fn key(&self) -> (r: &Vec<u8>)
        ensures
            r@ == self.spec_key(),
    {
        &self.key
    }

    /// The stored value's length.
    pub fn val_len(&self) -> (r: usize)
        ensures
            r == self.spec_val_len(),
    {
        self.val_len
    }

    /// The key bytes, mathematically.
    pub closed spec fn spec_key(&self) -> Seq<u8> {
        self.key@
    }

    /// The stored value's length, mathematically.
    pub closed spec fn spec_val_len(&self) -> usize {
        self.val_len
    }
}

/// Walks the bucket table from index zero and yields each occupied bucket's
/// key (and value length), skipping keys that do not start with the
/// iterator's prefix. The order is bucket-table order: unsorted, and not
/// reproducible across stores with different nonces.
pub struct KeysIterator {
    cursor: usize,
    prefix: Option<Vec<u8>>,
}

impl KeysIterator {
    /// The next bucket the walk will look at.
    pub closed spec fn spec_cursor(&self) -> usize {
        self.cursor
    }

    /// The prefix the walk filters by, if any.
    pub closed spec fn spec_prefix(&self) -> Option<Seq<u8>> {
        match self.prefix {
            Some(ref p) => Some(p@),
            None => None,
        }
    }

    /// A walk over all keys.
    pub fn new() -> (it: Self)
        ensures
            it.spec_cursor() == 0,
            it.spec_prefix() is None,
    {
        KeysIterator { cursor: 0, prefix: None }
    }

    /// A walk over the keys that start with `prefix`.
    pub fn with_prefix(prefix: &[u8]) -> (it: Self)
        ensures
            it.spec_cursor() == 0,
            it.spec_prefix() == Some(prefix@),
    {
        KeysIterator { cursor: 0, prefix: Some(vstd::slice::slice_to_vec(prefix)) }
    }

    /// The next stored key at or past the cursor, or nothing once the table
    /// is exhausted.
    pub fn next<A, const BUCKETS: usize, const SLOTS: usize>(
        &mut self,
        store: &mut KVStore<A, BUCKETS, SLOTS>,
    ) -> (r: Result<Option<KeyReference>, Error<A::Error>>) where A: StoreAdapter
        requires
            old(store).wf(),
        ensures
            final(store).wf(),
            final(store).unchanged(old(store)),
            final(self).spec_prefix() == old(self).spec_prefix(),
            match r {
                Ok(Some(kr)) => {
                    let i = final(self).spec_cursor() - 1;
                    &&& old(self).spec_cursor() <= i < BUCKETS
                    &&& final(self).spec_cursor() == i + 1
                    &&& yields_at(old(store).mem(), i, old(self).spec_prefix())
                    &&& kr.spec_key() == key_at(old(store).mem(), i)
                    &&& kr.spec_val_len() == entry_at(old(store).mem(), i).val_len
                    &&& forall|j: int|
                        old(self).spec_cursor() <= j < i ==> !yields_at(
                            old(store).mem(),
                            j,
                            old(self).spec_prefix(),
                        )
                },
                Ok(None) => final(self).spec_cursor() == BUCKETS && forall|j: int|
                    old(self).spec_cursor() <= j < BUCKETS ==> !yields_at(
                        old(store).mem(),
                        j,
                        old(self).spec_prefix(),
                    ),
                Err(Error::AdapterError(_)) => true,
                Err(_) => false,
            },
    {
        if self.cursor >= BUCKETS {
            self.cursor = BUCKETS;
            return Ok(None);
        }
        while self.cursor < BUCKETS
            invariant
                old(self).spec_cursor() <= self.cursor,
                self.cursor <= BUCKETS,
                self.prefix == old(self).prefix,
                store.wf(),
                store.unchanged(old(store)),
                0 < BUCKETS <= 0xffff,
                forall|j: int|
                    old(self).spec_cursor() <= j < self.cursor ==> !yields_at(
                        old(store).mem(),
                        j,
                        old(self).spec_prefix(),
                    ),
            decreases BUCKETS - self.cursor,
        {
            let i = self.cursor;
            let e = match store.read_entry(i) {
                Ok(e) => e,
                Err(err) => {
                    return Err(err);
                },
            };
            if e.key_len == 0 {
                self.cursor = i + 1;
                continue ;
            }
            let data = match store.adapter.read(e.address as usize, e.key_len as usize) {
                Ok(d) => d,
                Err(ae) => {
                    return Err(Error::AdapterError(ae));
                },
            };
            proof {
                assert(data@ == key_at(old(store).mem(), i as int));
            }
            match &self.prefix {
                None => {},
                Some(p) => {
                    if (e.key_len as usize) < p.len() {
                        self.cursor = i + 1;
                        continue ;
                    }
                    let head = vstd::slice::slice_subrange(data.as_slice(), 0, p.len());
                    if !crate::bytes::bytes_eq(head, p.as_slice()) {
                        proof {
                            assert(key_at(old(store).mem(), i as int).take(p@.len() as int)
                                =~= head@);
                        }
                        self.cursor = i + 1;
                        continue ;
                    }
                    proof {
                        assert(key_at(old(store).mem(), i as int).take(p@.len() as int) =~= head@);
                    }
                },
            }
            proof {
                assert(yields_at(old(store).mem(), i as int, old(self).spec_prefix()));
            }
            self.cursor = i + 1;
            return Ok(Some(KeyReference { key: data, val_len: e.val_len as usize }));
        }
        Ok(None)
    }
}

} // verus!
