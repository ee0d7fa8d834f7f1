//! The on-medium layout, stated mathematically over the adapter's bytes.
//!
//! A store's address space begins with an 8-byte header (`magic` u32, `nonce`
//! u16, `buckets` u16, all big-endian), followed by one 8-byte entry per
//! bucket (`val_len:16 | key_len:8 | address:24 | hash:16`, packed most
//! significant field first), followed by the data region. A bucket is
//! occupied exactly when its `key_len` is non-zero; its record is the key
//! bytes followed by the value bytes at `address`.
use crate::bytes::be16;
use crate::bytes::be16_bytes;
use crate::bytes::be24;
use crate::bytes::be24_bytes;
use crate::bytes::be32;
use crate::bytes::be32_bytes;
use crate::grasshopper::key_hash;
use crate::grasshopper::probe_index;
use vstd::prelude::*;

verus! {

/// Bytes taken by the store header.
pub const HEADER_SIZE: usize = 8;

/// Bytes taken by one bucket entry.
pub const BUCKET_SIZE: usize = 8;

/// Byte offset of bucket `i`'s entry.
pub open spec fn bucket_off(i: int) -> int {
    8 + 8 * i
}

/// First byte of the data region of a store with `n` buckets.
pub open spec fn spec_data_start(n: int) -> int {
    8 + 8 * n
}

/// First byte of the data region, executably.
pub fn data_start(buckets: usize) -> (r: usize)
    requires
        buckets <= 0xffff,
    ensures
        r == spec_data_start(buckets as int),
{
    8 + 8 * buckets
}

/// One bucket entry, parsed.
#[derive(Clone, Copy, Debug, PartialEq, Eq, Structural)]
pub struct BucketEntry {
    /// Length of the value bytes of the record.
    pub val_len: u16,
    /// Length of the key bytes of the record; zero marks an empty bucket.
    pub key_len: u8,
    /// Address of the record in the data region (24 bits on the medium).
    pub address: u32,
    /// 16-bit hash summary of the key.
    pub hash: u16,
}

/// The all-zero entry of an empty bucket.
pub open spec fn empty_entry() -> BucketEntry {
    BucketEntry { val_len: 0, key_len: 0, address: 0, hash: 0 }
}

/// The 8 bytes an entry occupies on the medium.
pub open spec fn entry_bytes(e: BucketEntry) -> Seq<u8> {
    be16_bytes(e.val_len) + seq![e.key_len] + be24_bytes(e.address) + be16_bytes(e.hash)
}

/// The entry held by 8 bytes.
pub open spec fn entry_of_bytes(b: Seq<u8>) -> BucketEntry
    recommends
        b.len() == 8,
{
    BucketEntry {
        val_len: be16(b[0], b[1]),
        key_len: b[2],
        address: be24(b[3], b[4], b[5]),
        hash: be16(b[6], b[7]),
    }
}

/// Packing an entry and parsing it back is the identity while the address
/// fits in its 24 bits.
pub proof fn lemma_entry_roundtrip(e: BucketEntry)
    requires
        e.address < 0x1000000,
    ensures
        entry_of_bytes(entry_bytes(e)) == e,
{
    crate::bytes::lemma_be16_roundtrip(e.val_len);
    crate::bytes::lemma_be24_roundtrip(e.address);
    crate::bytes::lemma_be16_roundtrip(e.hash);
}

/// The entry of bucket `i` in `mem`.
pub open spec fn entry_at(mem: Seq<u8>, i: int) -> BucketEntry
    recommends
        bucket_off(i) + 8 <= mem.len(),
{
    entry_of_bytes(mem.subrange(bucket_off(i), bucket_off(i) + 8))
}

/// Whether bucket `i` is occupied.
pub open spec fn occupied_at(mem: Seq<u8>, i: int) -> bool {
    entry_at(mem, i).key_len != 0
}

/// Address of bucket `i`'s record.
pub open spec fn rec_addr(mem: Seq<u8>, i: int) -> int {
    entry_at(mem, i).address as int
}

/// Length of bucket `i`'s record: key bytes plus value bytes.
pub open spec fn rec_len(mem: Seq<u8>, i: int) -> int {
    entry_at(mem, i).key_len + entry_at(mem, i).val_len
}

/// The key bytes of bucket `i`'s record.
pub open spec fn key_at(mem: Seq<u8>, i: int) -> Seq<u8> {
    mem.subrange(rec_addr(mem, i), rec_addr(mem, i) + entry_at(mem, i).key_len)
}

/// The value bytes of bucket `i`'s record.
pub open spec fn val_at(mem: Seq<u8>, i: int) -> Seq<u8> {
    mem.subrange(
        rec_addr(mem, i) + entry_at(mem, i).key_len,
        rec_addr(mem, i) + entry_at(mem, i).key_len + entry_at(mem, i).val_len,
    )
}

/// Packs an entry into its 8 medium bytes.
pub fn pack_entry(e: &BucketEntry) -> (out: Vec<u8>)
    requires
        e.address < 0x1000000,
    ensures
        out@ == entry_bytes(*e),
        out@.len() == 8,
        entry_of_bytes(out@) == *e,
{
    let mut out: Vec<u8> = Vec::new();
    crate::bytes::push_be16(&mut out, e.val_len);
    out.push(e.key_len);
    crate::bytes::push_be24(&mut out, e.address);
    crate::bytes::push_be16(&mut out, e.hash);
    proof {
        assert(out@ =~= entry_bytes(*e));
        lemma_entry_roundtrip(*e);
    }
    out
}

/// Parses the entry held by an 8-byte buffer.
pub fn parse_entry(buf: &Vec<u8>) -> (e: BucketEntry)
    requires
        buf.len() == 8,
    ensures
        e == entry_of_bytes(buf@),
{
    BucketEntry {
        val_len: crate::bytes::read_be16(buf, 0),
        key_len: buf[2],
        address: crate::bytes::read_be24(buf, 3),
        hash: crate::bytes::read_be16(buf, 6),
    }
}

/// Lookup's acceptance test for bucket `i` and key `key`: occupied, the
/// stored hash and key length match, and the key bytes on the medium equal
/// the key.
pub open spec fn entry_matches(mem: Seq<u8>, i: int, nonce: u16, key: Seq<u8>) -> bool {
    let e = entry_at(mem, i);
    &&& e.key_len != 0
    &&& e.hash == key_hash(nonce, key)
    &&& e.key_len == key.len()
    &&& e.address + key.len() <= mem.len()
    &&& key_at(mem, i) == key
}

/// Insert's acceptance test for bucket `i`: empty, or already holding `key`.
pub open spec fn entry_suitable(mem: Seq<u8>, i: int, nonce: u16, key: Seq<u8>) -> bool {
    !occupied_at(mem, i) || entry_matches(mem, i, nonce, key)
}

/// The first hop in `[from, hops)` whose bucket matches `key`.
pub open spec fn find_hop_from(
    mem: Seq<u8>,
    nonce: u16,
    key: Seq<u8>,
    from: nat,
    hops: nat,
    n: nat,
) -> Option<nat>
    decreases hops - from,
{
    if from >= hops {
        None
    } else if entry_matches(mem, probe_index(nonce, key, from, n) as int, nonce, key) {
        Some(from)
    } else {
        find_hop_from(mem, nonce, key, from + 1, hops, n)
    }
}

/// The first hop of the probe walk whose bucket matches `key`: where lookup
/// stops. Lookup walks the whole budget and never stops early at an empty
/// bucket, so removals cannot hide a later match.
pub open spec fn find_hop(mem: Seq<u8>, nonce: u16, key: Seq<u8>, hops: nat, n: nat) -> Option<
    nat,
> {
    find_hop_from(mem, nonce, key, 0, hops, n)
}

/// The bucket index lookup finds for `key`, if any.
pub open spec fn found_index(mem: Seq<u8>, nonce: u16, key: Seq<u8>, hops: nat, n: nat) -> Option<
    int,
> {
    match find_hop(mem, nonce, key, hops, n) {
        Some(h) => Some(probe_index(nonce, key, h, n) as int),
        None => None,
    }
}

/// The first hop in `[from, hops)` whose bucket is empty or holds `key`.
pub open spec fn choice_hop_from(
    mem: Seq<u8>,
    nonce: u16,
    key: Seq<u8>,
    from: nat,
    hops: nat,
    n: nat,
) -> Option<nat>
    decreases hops - from,
{
    if from >= hops {
        None
    } else if entry_suitable(mem, probe_index(nonce, key, from, n) as int, nonce, key) {
        Some(from)
    } else {
        choice_hop_from(mem, nonce, key, from + 1, hops, n)
    }
}

/// The first hop of the probe walk whose bucket insert can take: an empty
/// bucket, or the bucket already holding `key` (a replace).
pub open spec fn choice_hop(mem: Seq<u8>, nonce: u16, key: Seq<u8>, hops: nat, n: nat) -> Option<
    nat,
> {
    choice_hop_from(mem, nonce, key, 0, hops, n)
}

/// What `find_hop_from` returns: the first matching hop at or past `from`,
/// or nothing when no hop below `hops` matches.
pub proof fn lemma_find_hop_from_spec(
    mem: Seq<u8>,
    nonce: u16,
    key: Seq<u8>,
    from: nat,
    hops: nat,
    n: nat,
)
    ensures
        match find_hop_from(mem, nonce, key, from, hops, n) {
            Some(h) => from <= h < hops && entry_matches(
                mem,
                probe_index(nonce, key, h, n) as int,
                nonce,
                key,
            ) && (forall|g: nat|
                from <= g < h ==> !entry_matches(
                    mem,
                    #[trigger] probe_index(nonce, key, g, n) as int,
                    nonce,
                    key,
                )),
            None => forall|g: nat|
                from <= g < hops ==> !entry_matches(
                    mem,
                    #[trigger] probe_index(nonce, key, g, n) as int,
                    nonce,
                    key,
                ),
        },
    decreases hops - from,
{
    if from >= hops {
    } else if entry_matches(mem, probe_index(nonce, key, from, n) as int, nonce, key) {
    } else {
        lemma_find_hop_from_spec(mem, nonce, key, from + 1, hops, n);
    }
}

/// What `find_hop` returns: the first matching hop of the walk, or nothing
/// when no hop of the budget matches.
pub proof fn lemma_find_hop_spec(mem: Seq<u8>, nonce: u16, key: Seq<u8>, hops: nat, n: nat)
    ensures
        match find_hop(mem, nonce, key, hops, n) {
            Some(h) => h < hops && entry_matches(
                mem,
                probe_index(nonce, key, h, n) as int,
                nonce,
                key,
            ) && (forall|g: nat|
                g < h ==> !entry_matches(
                    mem,
                    #[trigger] probe_index(nonce, key, g, n) as int,
                    nonce,
                    key,
                )),
            None => forall|g: nat|
                g < hops ==> !entry_matches(
                    mem,
                    #[trigger] probe_index(nonce, key, g, n) as int,
                    nonce,
                    key,
                ),
        },
{
    lemma_find_hop_from_spec(mem, nonce, key, 0, hops, n);
}

/// The converse: a first matching hop pins `find_hop` down.
pub proof fn lemma_find_hop_is(mem: Seq<u8>, nonce: u16, key: Seq<u8>, hops: nat, n: nat, h: nat)
    requires
        h < hops,
        entry_matches(mem, probe_index(nonce, key, h, n) as int, nonce, key),
        forall|g: nat|
            g < h ==> !entry_matches(
                mem,
                #[trigger] probe_index(nonce, key, g, n) as int,
                nonce,
                key,
            ),
    ensures
        find_hop(mem, nonce, key, hops, n) == Some(h),
{
    lemma_find_hop_spec(mem, nonce, key, hops, n);
    match find_hop(mem, nonce, key, hops, n) {
        Some(h2) => {
            if h2 < h {
                assert(!entry_matches(mem, probe_index(nonce, key, h2, n) as int, nonce, key));
            } else if h < h2 {
                assert(!entry_matches(mem, probe_index(nonce, key, h, n) as int, nonce, key));
            }
        },
        None => {
            assert(!entry_matches(mem, probe_index(nonce, key, h, n) as int, nonce, key));
        },
    }
}

/// No matching hop at all pins `find_hop` to nothing.
pub proof fn lemma_find_hop_is_none(mem: Seq<u8>, nonce: u16, key: Seq<u8>, hops: nat, n: nat)
    requires
        forall|g: nat|
            g < hops ==> !entry_matches(
                mem,
                #[trigger] probe_index(nonce, key, g, n) as int,
                nonce,
                key,
            ),
    ensures
        find_hop(mem, nonce, key, hops, n) is None,
{
    lemma_find_hop_spec(mem, nonce, key, hops, n);
    match find_hop(mem, nonce, key, hops, n) {
        Some(h) => {
            assert(!entry_matches(mem, probe_index(nonce, key, h, n) as int, nonce, key));
        },
        None => {},
    }
}

/// What `choice_hop_from` returns, in the same shape.
pub proof fn lemma_choice_hop_from_spec(
    mem: Seq<u8>,
    nonce: u16,
    key: Seq<u8>,
    from: nat,
    hops: nat,
    n: nat,
)
    ensures
        match choice_hop_from(mem, nonce, key, from, hops, n) {
            Some(h) => from <= h < hops && entry_suitable(
                mem,
                probe_index(nonce, key, h, n) as int,
                nonce,
                key,
            ) && (forall|g: nat|
                from <= g < h ==> !entry_suitable(
                    mem,
                    #[trigger] probe_index(nonce, key, g, n) as int,
                    nonce,
                    key,
                )),
            None => forall|g: nat|
                from <= g < hops ==> !entry_suitable(
                    mem,
                    #[trigger] probe_index(nonce, key, g, n) as int,
                    nonce,
                    key,
                ),
        },
    decreases hops - from,
{
    if from >= hops {
    } else if entry_suitable(mem, probe_index(nonce, key, from, n) as int, nonce, key) {
    } else {
        lemma_choice_hop_from_spec(mem, nonce, key, from + 1, hops, n);
    }
}

/// The converse for `choice_hop`: a first suitable hop pins it down.
pub proof fn lemma_choice_hop_is(mem: Seq<u8>, nonce: u16, key: Seq<u8>, hops: nat, n: nat, h: nat)
    requires
        h < hops,
        entry_suitable(mem, probe_index(nonce, key, h, n) as int, nonce, key),
        forall|g: nat|
            g < h ==> !entry_suitable(
                mem,
                #[trigger] probe_index(nonce, key, g, n) as int,
                nonce,
                key,
            ),
    ensures
        choice_hop(mem, nonce, key, hops, n) == Some(h),
{
    lemma_choice_hop_from_spec(mem, nonce, key, 0, hops, n);
    match choice_hop(mem, nonce, key, hops, n) {
        Some(h2) => {
            if h2 < h {
                assert(!entry_suitable(mem, probe_index(nonce, key, h2, n) as int, nonce, key));
            } else if h < h2 {
                assert(!entry_suitable(mem, probe_index(nonce, key, h, n) as int, nonce, key));
            }
        },
        None => {
            assert(!entry_suitable(mem, probe_index(nonce, key, h, n) as int, nonce, key));
        },
    }
}

/// No suitable hop at all pins `choice_hop` to nothing.
pub proof fn lemma_choice_hop_is_none(mem: Seq<u8>, nonce: u16, key: Seq<u8>, hops: nat, n: nat)
    requires
        forall|g: nat|
            g < hops ==> !entry_suitable(
                mem,
                #[trigger] probe_index(nonce, key, g, n) as int,
                nonce,
                key,
            ),
    ensures
        choice_hop(mem, nonce, key, hops, n) is None,
{
    lemma_choice_hop_from_spec(mem, nonce, key, 0, hops, n);
    match choice_hop(mem, nonce, key, hops, n) {
        Some(h) => {
            assert(!entry_suitable(mem, probe_index(nonce, key, h, n) as int, nonce, key));
        },
        None => {},
    }
}

/// The store's magic number, read from the header.
pub open spec fn mem_magic(mem: Seq<u8>) -> u32 {
    be32(mem[0], mem[1], mem[2], mem[3])
}

/// The store's nonce, read from the header.
pub open spec fn mem_nonce(mem: Seq<u8>) -> u16 {
    be16(mem[4], mem[5])
}

/// The store's bucket count, read from the header.
pub open spec fn mem_buckets(mem: Seq<u8>) -> u16 {
    be16(mem[6], mem[7])
}

/// The 8 header bytes for the given fields.
pub open spec fn header_bytes(magic: u32, nonce: u16, buckets: u16) -> Seq<u8> {
    be32_bytes(magic) + be16_bytes(nonce) + be16_bytes(buckets)
}

/// Reading back a packed header yields its fields.
pub proof fn lemma_header_roundtrip(magic: u32, nonce: u16, buckets: u16, mem: Seq<u8>)
    requires
        mem.len() >= 8,
        forall|j: int| 0 <= j < 8 ==> mem[j] == header_bytes(magic, nonce, buckets)[j],
    ensures
        mem_magic(mem) == magic,
        mem_nonce(mem) == nonce,
        mem_buckets(mem) == buckets,
{
    crate::bytes::lemma_be32_roundtrip(magic);
    crate::bytes::lemma_be16_roundtrip(nonce);
    crate::bytes::lemma_be16_roundtrip(buckets);
}

/// The bytes after writing `data` at `addr`: the write's range is replaced,
/// everything else keeps its byte, and the length never changes.
pub open spec fn write_bytes(m: Seq<u8>, addr: int, data: Seq<u8>) -> Seq<u8> {
    Seq::new(
        m.len(),
        |i: int|
            if addr <= i < addr + data.len() {
                data[i - addr]
            } else {
                m[i]
            },
    )
}

/// Two equal-length byte states that agree on a range have equal subranges.
pub proof fn lemma_agree_subrange(m0: Seq<u8>, m1: Seq<u8>, a: int, b: int)
    requires
        m1.len() == m0.len(),
        0 <= a <= b <= m0.len(),
        forall|j: int| a <= j < b ==> m1[j] == m0[j],
    ensures
        m1.subrange(a, b) == m0.subrange(a, b),
{
    assert(m1.subrange(a, b) =~= m0.subrange(a, b));
}

/// Two equal-length byte states that agree on bucket `i`'s entry bytes hold
/// the same entry there.
pub proof fn lemma_entry_frame(m0: Seq<u8>, m1: Seq<u8>, i: int)
    requires
        m1.len() == m0.len(),
        0 <= bucket_off(i),
        bucket_off(i) + 8 <= m0.len(),
        forall|j: int| bucket_off(i) <= j < bucket_off(i) + 8 ==> m1[j] == m0[j],
    ensures
        entry_at(m1, i) == entry_at(m0, i),
{
    lemma_agree_subrange(m0, m1, bucket_off(i), bucket_off(i) + 8);
}

} // verus!
