//! The store's laws: what holds of every sequence of operations, proved
//! once over the relations that the operations' own contracts establish.
use crate::freespace::can_free;
use crate::freespace::covered;
use crate::freespace::slots_wf;
use crate::freespace::Slot;
use crate::grasshopper::probe_index;
use crate::layout::entry_at;
use crate::layout::entry_matches;
use crate::layout::entry_suitable;
use crate::layout::find_hop;
use crate::layout::found_index;
use crate::layout::key_at;
use crate::layout::occupied_at;
use crate::layout::rec_addr;
use crate::layout::rec_len;
use crate::layout::val_at;
use crate::store::erased_key;
use crate::store::fresh_layout;
use crate::store::inserted;
use crate::store::lemma_find_hop_congruence;
use crate::store::patched;
use crate::store::records_wf;
use crate::store::removed_key;
use crate::store::Bucket;
use vstd::prelude::*;

verus! {

/// Round trip: after an insert, looking the key up finds the bucket the
/// insert handed back, the stored value bytes are the inserted ones, and
/// the stored value length is the value's length.
pub proof fn lemma_insert_round_trip(
    m0: Seq<u8>,
    m1: Seq<u8>,
    nonce: u16,
    hops: nat,
    n: nat,
    key: Seq<u8>,
    val: Seq<u8>,
    b: Bucket,
)
    requires
        inserted(m0, m1, nonce, hops, n, key, val, b),
    ensures
        found_index(m1, nonce, key, hops, n) == Some(b.index as int),
        val_at(m1, b.index as int) == val,
        entry_at(m1, b.index as int).val_len == val.len(),
        entry_at(m1, b.index as int).key_len == key.len(),
{
}

/// Replace semantics: inserting under the same key twice stores the second
/// value in the same bucket as the first, and looking the key up yields it.
#[verifier::rlimit(60)]
pub proof fn lemma_insert_replace(
    m0: Seq<u8>,
    m1: Seq<u8>,
    m2: Seq<u8>,
    nonce: u16,
    hops: nat,
    n: nat,
    key: Seq<u8>,
    v1: Seq<u8>,
    v2: Seq<u8>,
    b1: Bucket,
    b2: Bucket,
)
    requires
        inserted(m0, m1, nonce, hops, n, key, v1, b1),
        inserted(m1, m2, nonce, hops, n, key, v2, b2),
    ensures
        b2.index == b1.index,
        found_index(m2, nonce, key, hops, n) == Some(b1.index as int),
        val_at(m2, b1.index as int) == v2,
{
    let h = crate::layout::choice_hop(m0, nonce, key, hops, n).unwrap();
    let idx = b1.index as int;
    crate::layout::lemma_choice_hop_from_spec(m0, nonce, key, 0, hops, n);
    crate::layout::lemma_find_hop_spec(m1, nonce, key, hops, n);
    // in the bytes after the first insert, the same hop is still the first
    // suitable one, so the second insert lands on the same bucket
    assert(entry_matches(m1, idx, nonce, key));
    assert forall|g: nat| g < h implies !entry_suitable(
        m1,
        #[trigger] probe_index(nonce, key, g, n) as int,
        nonce,
        key,
    ) by {
        let ig = probe_index(nonce, key, g, n) as int;
        assert(!entry_suitable(m0, ig, nonce, key));
        assert(occupied_at(m0, ig));
        assert(ig != idx);
        assert(entry_at(m1, ig) == entry_at(m0, ig));
        if entry_at(m0, ig).hash == crate::grasshopper::key_hash(nonce, key) && entry_at(
            m0,
            ig,
        ).key_len == key.len() && entry_at(m0, ig).address + key.len() <= m0.len() {
            assert(key_at(m1, ig) == key_at(m0, ig));
        }
    }
    crate::layout::lemma_choice_hop_is(m1, nonce, key, hops, n, h);
}

/// Replace semantics, record-count side: starting from bytes where no
/// bucket of the probe walk holds the key, two inserts leave it held by
/// exactly one bucket of the walk.
#[verifier::rlimit(100)]
pub proof fn lemma_insert_unique(
    m0: Seq<u8>,
    m1: Seq<u8>,
    m2: Seq<u8>,
    nonce: u16,
    hops: nat,
    n: nat,
    key: Seq<u8>,
    v1: Seq<u8>,
    v2: Seq<u8>,
    b1: Bucket,
    b2: Bucket,
)
    requires
        forall|g: nat|
            g < hops ==> !entry_matches(
                m0,
                #[trigger] probe_index(nonce, key, g, n) as int,
                nonce,
                key,
            ),
        inserted(m0, m1, nonce, hops, n, key, v1, b1),
        inserted(m1, m2, nonce, hops, n, key, v2, b2),
    ensures
        b2.index == b1.index,
        forall|g: nat|
            g < hops ==> (entry_matches(
                m2,
                #[trigger] probe_index(nonce, key, g, n) as int,
                nonce,
                key,
            ) ==> probe_index(nonce, key, g, n) == b1.index),
{
    lemma_insert_replace(m0, m1, m2, nonce, hops, n, key, v1, v2, b1, b2);
    let idx = b1.index as int;
    assert forall|j: int| 0 <= j < n && j != idx implies entry_at(m2, j) == entry_at(m0, j) by {}
    assert forall|j: int|
        0 <= j < n && j != idx && #[trigger] occupied_at(m0, j) implies key_at(m2, j) == key_at(
        m0,
        j,
    ) by {
        assert(occupied_at(m1, j));
    }
    lemma_matches_pinned(m0, m2, nonce, key, hops, n, idx);
}

/// In bytes that differ from `m0` only at bucket `idx` (entry, or record
/// bytes), a key that matched nowhere in `m0` can match only at `idx`.
proof fn lemma_matches_pinned(
    m0: Seq<u8>,
    m2: Seq<u8>,
    nonce: u16,
    key: Seq<u8>,
    hops: nat,
    n: nat,
    idx: int,
)
    requires
        m2.len() == m0.len(),
        forall|g: nat|
            g < hops ==> !entry_matches(
                m0,
                #[trigger] probe_index(nonce, key, g, n) as int,
                nonce,
                key,
            ),
        forall|j: int| 0 <= j < n && j != idx ==> entry_at(m2, j) == entry_at(m0, j),
        forall|j: int|
            0 <= j < n && j != idx && #[trigger] occupied_at(m0, j) ==> key_at(m2, j) == key_at(
                m0,
                j,
            ),
        0 < n,
    ensures
        forall|g: nat|
            g < hops ==> (entry_matches(
                m2,
                #[trigger] probe_index(nonce, key, g, n) as int,
                nonce,
                key,
            ) ==> probe_index(nonce, key, g, n) == idx),
{
    assert forall|g: nat|
        g < hops && entry_matches(
            m2,
            #[trigger] probe_index(nonce, key, g, n) as int,
            nonce,
            key,
        ) implies probe_index(nonce, key, g, n) == idx by {
        let ig = probe_index(nonce, key, g, n) as int;
        if ig != idx {
            assert(entry_at(m2, ig) == entry_at(m0, ig));
            assert(occupied_at(m0, ig));
            assert(key_at(m2, ig) == key_at(m0, ig));
            assert(entry_matches(m0, ig, nonce, key));
            assert(!entry_matches(m0, ig, nonce, key));
        }
    }
}

/// Remove idempotence: when the key is held by exactly one bucket of its
/// probe walk, removing it leaves the walk finding nothing, so a second
/// remove changes nothing, and a lookup afterwards fails.
pub proof fn lemma_remove_idempotent(
    m0: Seq<u8>,
    m1: Seq<u8>,
    m2: Seq<u8>,
    nonce: u16,
    hops: nat,
    n: nat,
    key: Seq<u8>,
)
    requires
        0 < n,
        records_wf(m0, n as int),
        forall|g: nat|
            g < hops ==> (entry_matches(
                m0,
                #[trigger] probe_index(nonce, key, g, n) as int,
                nonce,
                key,
            ) ==> found_index(m0, nonce, key, hops, n) == Some(
                probe_index(nonce, key, g, n) as int,
            )),
        removed_key(m0, m1, nonce, hops, n, key),
        removed_key(m1, m2, nonce, hops, n, key),
    ensures
        find_hop(m1, nonce, key, hops, n) is None,
        m2 == m1,
{
    crate::layout::lemma_find_hop_spec(m0, nonce, key, hops, n);
    match found_index(m0, nonce, key, hops, n) {
        None => {
            assert(m1 == m0);
            crate::layout::lemma_find_hop_spec(m1, nonce, key, hops, n);
        },
        Some(idx) => {
            assert forall|g: nat| g < hops implies !entry_matches(
                m1,
                #[trigger] probe_index(nonce, key, g, n) as int,
                nonce,
                key,
            ) by {
                let ig = probe_index(nonce, key, g, n) as int;
                if ig == idx {
                    assert(!occupied_at(m1, ig));
                } else {
                    if entry_matches(m1, ig, nonce, key) {
                        assert(entry_at(m1, ig) == entry_at(m0, ig));
                        assert(occupied_at(m0, ig));
                        assert(spec_data_start_le(m0, n as int, ig));
                        crate::layout::lemma_agree_subrange(
                            m0,
                            m1,
                            rec_addr(m0, ig),
                            rec_addr(m0, ig) + entry_at(m0, ig).key_len,
                        );
                        assert(key_at(m1, ig) =~= key_at(m0, ig));
                        assert(entry_matches(m0, ig, nonce, key));
                        assert(found_index(m0, nonce, key, hops, n) == Some(ig));
                        assert(false);
                    }
                }
            }
            crate::layout::lemma_find_hop_is_none(m1, nonce, key, hops, n);
        },
    }
    assert(found_index(m1, nonce, key, hops, n) is None);
}

/// Helper naming the fact that an occupied bucket's record starts in the
/// data region, so table writes cannot have touched its bytes.
spec fn spec_data_start_le(m: Seq<u8>, n: int, i: int) -> bool {
    crate::layout::spec_data_start(n) <= rec_addr(m, i)
}

/// Probe completeness under collision (the broken-chain property): removing
/// one key leaves every other key found exactly as before — lookup walks
/// the full probe budget and does not stop at the emptied bucket.
pub proof fn lemma_remove_preserves_others(
    m0: Seq<u8>,
    m1: Seq<u8>,
    nonce: u16,
    hops: nat,
    n: nat,
    key: Seq<u8>,
    key2: Seq<u8>,
)
    requires
        0 < n,
        records_wf(m0, n as int),
        removed_key(m0, m1, nonce, hops, n, key),
        key2 != key,
    ensures
        find_hop(m1, nonce, key2, hops, n) == find_hop(m0, nonce, key2, hops, n),
{
    match found_index(m0, nonce, key, hops, n) {
        None => {
            assert(m1 == m0);
        },
        Some(idx) => {
            crate::layout::lemma_find_hop_spec(m0, nonce, key, hops, n);
            assert(key_at(m0, idx) == key);
            assert forall|g: nat| g < hops implies (entry_matches(
                m1,
                #[trigger] probe_index(nonce, key2, g, n) as int,
                nonce,
                key2,
            ) == entry_matches(m0, probe_index(nonce, key2, g, n) as int, nonce, key2)) by {
                let ig = probe_index(nonce, key2, g, n) as int;
                if ig == idx {
                    assert(!occupied_at(m1, ig));
                    assert(!entry_matches(m1, ig, nonce, key2));
                    assert(key_at(m0, idx) != key2);
                    assert(!entry_matches(m0, ig, nonce, key2));
                } else {
                    assert(entry_at(m1, ig) == entry_at(m0, ig));
                    if occupied_at(m0, ig) {
                        assert(spec_data_start_le(m0, n as int, ig));
                        crate::layout::lemma_agree_subrange(
                            m0,
                            m1,
                            rec_addr(m0, ig),
                            rec_addr(m0, ig) + entry_at(m0, ig).key_len,
                        );
                        assert(key_at(m1, ig) =~= key_at(m0, ig));
                    }
                }
            }
            lemma_find_hop_congruence(m0, m1, nonce, key2, 0, hops, n);
        },
    }
}

/// Patch growth: when a patch reaches past the old end of the value, the
/// stored length becomes exactly `off + |p|`, the patched window holds the
/// patch bytes, and the key is still found at its bucket.
#[verifier::rlimit(60)]
pub proof fn lemma_patch_growth(
    m0: Seq<u8>,
    m1: Seq<u8>,
    nonce: u16,
    hops: nat,
    n: nat,
    key: Seq<u8>,
    off: int,
    p: Seq<u8>,
    b: Bucket,
)
    requires
        patched(m0, m1, nonce, hops, n, key, off, p, b),
        0 <= off,
        off + p.len() > entry_at(m0, b.index as int).val_len,
        off <= entry_at(m0, b.index as int).val_len,
        0 <= rec_addr(m0, b.index as int),
        rec_addr(m0, b.index as int) + rec_len(m0, b.index as int) <= m0.len(),
    ensures
        entry_at(m1, b.index as int).val_len == off + p.len(),
        found_index(m1, nonce, key, hops, n) == Some(b.index as int),
        val_at(m1, b.index as int).len() == off + p.len(),
        val_at(m1, b.index as int).subrange(off, off + p.len()) == p,
{
    let oldv = val_at(m0, b.index as int);
    assert(oldv.len() == entry_at(m0, b.index as int).val_len);
    assert(val_at(m1, b.index as int) == oldv.take(off) + p);
    assert(oldv.take(off).len() == off);
    assert(val_at(m1, b.index as int).subrange(off, off + p.len()) =~= p);
}

/// A fresh store holds nothing: no key is found in a zeroed bucket table.
pub proof fn lemma_fresh_store_finds_nothing(
    mem: Seq<u8>,
    magic: u32,
    store_nonce: u16,
    nonce: u16,
    hops: nat,
    n: nat,
    key: Seq<u8>,
)
    requires
        0 < n,
        fresh_layout(mem, magic, store_nonce, n as int),
    ensures
        find_hop(mem, nonce, key, hops, n) is None,
        forall|g: nat|
            g < hops ==> !entry_matches(
                mem,
                #[trigger] probe_index(nonce, key, g, n) as int,
                nonce,
                key,
            ),
{
    assert forall|g: nat| g < hops implies !entry_matches(
        mem,
        #[trigger] probe_index(nonce, key, g, n) as int,
        nonce,
        key,
    ) by {
        let ig = probe_index(nonce, key, g, n) as int;
        assert(entry_at(mem, ig) == crate::layout::empty_entry());
    }
    crate::layout::lemma_find_hop_is_none(mem, nonce, key, hops, n);
}

/// Replace semantics from a fresh store, with no hypothesis beyond
/// freshness: on a just-created store, two inserts under one key land in
/// one and the same bucket, and that bucket is the only one of the probe
/// walk holding the key.
pub proof fn lemma_fresh_insert_insert_unique(
    m0: Seq<u8>,
    m1: Seq<u8>,
    m2: Seq<u8>,
    magic: u32,
    store_nonce: u16,
    nonce: u16,
    hops: nat,
    n: nat,
    key: Seq<u8>,
    v1: Seq<u8>,
    v2: Seq<u8>,
    b1: Bucket,
    b2: Bucket,
)
    requires
        0 < n,
        fresh_layout(m0, magic, store_nonce, n as int),
        inserted(m0, m1, nonce, hops, n, key, v1, b1),
        inserted(m1, m2, nonce, hops, n, key, v2, b2),
    ensures
        b2.index == b1.index,
        found_index(m2, nonce, key, hops, n) == Some(b1.index as int),
        val_at(m2, b1.index as int) == v2,
        forall|g: nat|
            g < hops ==> (entry_matches(
                m2,
                #[trigger] probe_index(nonce, key, g, n) as int,
                nonce,
                key,
            ) ==> probe_index(nonce, key, g, n) == b1.index),
{
    lemma_fresh_store_finds_nothing(m0, magic, store_nonce, nonce, hops, n, key);
    lemma_insert_unique(m0, m1, m2, nonce, hops, n, key, v1, v2, b1, b2);
    lemma_insert_replace(m0, m1, m2, nonce, hops, n, key, v1, v2, b1, b2);
}

/// Allocator coalescing, one round: reserving a range anonymously and then
/// freeing that same range restores exactly the coverage the free list had,
/// whatever slot the strategy picked and however the free coalesced.
pub proof fn lemma_alloc_free_restores(
    ss0: Seq<Slot>,
    ss1: Seq<Slot>,
    ss2: Seq<Slot>,
    k: int,
    a: int,
    size: int,
)
    requires
        slots_wf(ss0),
        size > 0,
        0 <= k < ss0.len(),
        a == ss0[k].start,
        a + size <= ss0[k].end,
        ss1 == ss0.update(k, Slot { start: (a + size) as usize, end: ss0[k].end }),
        ss2.len() == ss1.len(),
        // what `free(a, size)` guarantees about its result
        forall|x: int|
            covered(ss2, x) <==> (covered(ss1, x) || (can_free(ss1, a, size) && a <= x < a
                + size)),
    ensures
        forall|x: int| covered(ss2, x) <==> covered(ss0, x),
{
    assert(ss1[k].start == a + size);
    assert(can_free(ss1, a, size));
    assert forall|x: int| covered(ss2, x) implies covered(ss0, x) by {
        if covered(ss1, x) {
            let j = choose|j: int|
                0 <= j < ss1.len() && (#[trigger] ss1[j]).start <= x < ss1[j].end;
            if j == k {
                assert(ss0[k].start <= x < ss0[k].end);
            } else {
                assert(ss0[j].start <= x < ss0[j].end);
            }
        } else {
            assert(ss0[k].start <= x < ss0[k].end);
        }
    }
    assert forall|x: int| covered(ss0, x) implies covered(ss2, x) by {
        let j = choose|j: int| 0 <= j < ss0.len() && (#[trigger] ss0[j]).start <= x < ss0[j].end;
        if j == k && x < a + size {
            assert(a <= x < a + size);
        } else {
            assert(ss1[j].start <= x < ss1[j].end);
            assert(covered(ss1, x));
        }
    }
}

/// Persistence, free-list side: under the consistency that the rebuilt
/// free list establishes, no free slot overlaps the record of any key a
/// lookup can find.
pub proof fn lemma_rebuilt_free_list_avoids_records(
    mem: Seq<u8>,
    n: nat,
    ss: Seq<Slot>,
    nonce: u16,
    hops: nat,
    key: Seq<u8>,
)
    requires
        crate::store::index_wf(mem, n as int, ss),
        found_index(mem, nonce, key, hops, n) is Some,
        found_index(mem, nonce, key, hops, n).unwrap() < n,
    ensures
        forall|k: int|
            0 <= k < ss.len() ==> crate::freespace::ranges_disjoint(
                rec_addr(mem, found_index(mem, nonce, key, hops, n).unwrap()),
                rec_addr(mem, found_index(mem, nonce, key, hops, n).unwrap()) + rec_len(
                    mem,
                    found_index(mem, nonce, key, hops, n).unwrap(),
                ),
                (#[trigger] ss[k]).start as int,
                ss[k].end as int,
            ),
{
    let idx = found_index(mem, nonce, key, hops, n).unwrap();
    crate::layout::lemma_find_hop_spec(mem, nonce, key, hops, n);
    assert(occupied_at(mem, idx));
}

/// Erase hygiene: after an erase, every byte of the record that held the
/// key reads as the fill byte.
pub proof fn lemma_erase_fills(
    m0: Seq<u8>,
    m1: Seq<u8>,
    nonce: u16,
    hops: nat,
    n: nat,
    key: Seq<u8>,
    fill: u8,
)
    requires
        erased_key(m0, m1, nonce, hops, n, key, fill),
        found_index(m0, nonce, key, hops, n) is Some,
    ensures
        forall|x: int|
            rec_addr(m0, found_index(m0, nonce, key, hops, n).unwrap()) <= x < rec_addr(
                m0,
                found_index(m0, nonce, key, hops, n).unwrap(),
            ) + rec_len(m0, found_index(m0, nonce, key, hops, n).unwrap()) ==> m1[x] == fill,
{
}

} // verus!
