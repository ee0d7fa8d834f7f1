//! A fixed-capacity persistent key-value store for byte-addressable media.
//!
//! The store keeps an open-addressed bucket index whose probe sequence is a
//! deterministic pseudo-random walk derived from a Murmur3 hash of the key,
//! a free-space allocator over the data region, and a bit-exact on-medium
//! layout (an 8-byte header, a table of 8-byte buckets, then records).
#![allow(unused_imports)]
use vstd::prelude::*;

pub mod adapter;
pub mod bytes;
pub mod freespace;
pub mod grasshopper;
pub mod hash;
pub mod hole;
pub mod laws;
pub mod layout;
pub mod record_ref;
pub mod store;

pub use adapter::MemoryAdapter;
pub use adapter::StoreAdapter;
pub use freespace::Alloc;
pub use freespace::AllocStrategy;
pub use freespace::Slot;
pub use grasshopper::Grasshopper;
pub use hole::Hole;
pub use record_ref::RecordRef;
pub use store::Bucket;
pub use store::KVStore;
pub use store::KeyReference;
pub use store::KeysIterator;
pub use store::ReadOnlyKVStore;
pub use store::StoreConfig;

verus! {

/// Byte offset within the adapter's address space.
pub type Address = usize;

/// Longest key the bucket format can hold: the key length lives in one byte.
pub const MAX_KEY_LEN: usize = 255;

/// Longest value the bucket format can hold: the value length lives in 16 bits.
pub const MAX_VALUE_LEN: usize = 65535;

/// Everything a store operation can fail with.
#[derive(Debug, PartialEq, Eq)]
pub enum Error<E> {
    /// The byte adapter itself failed; the wrapped error is the adapter's own.
    AdapterError(E),
    /// The probe sequence was exhausted without finding a bucket to insert into.
    IndexOverflow,
    /// The header's bucket count does not match the compile-time capacity.
    InvalidCapacity,
    /// The header's nonce does not match the configured nonce.
    InvalidNonce,
    /// A patch offset lies beyond the end of the stored value.
    InvalidPatchOffset,
    /// No bucket along the probe sequence holds the key.
    KeyNotFound,
    /// A mutation was attempted on a store built with no allocator slots.
    ReadOnlyStore,
    /// The header's magic does not match the configured magic.
    StoreNotFound,
    /// The free-space allocator could not satisfy an allocation,
    /// or the free list could not be rebuilt from the bucket table.
    StoreOverflow,
    /// A value could not be grown in place.
    ValueOverflow,
    /// A typed create found the key already present.
    KeyAlreadyExists,
}

} // verus!
