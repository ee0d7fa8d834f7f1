//! The byte collaborator the store runs on, and the in-RAM reference
//! implementation.
//!
//! An adapter exposes a flat byte address space. Reads hand back exactly the
//! bytes of the requested range; writes replace exactly the written range
//! and never change the medium's size. An adapter may also fail with its
//! own error (a transfer fault, an out-of-range request); a failed read
//! leaves the medium as it was, while a failed write may have replaced any
//! part of the range it was asked to write.
use crate::layout::write_bytes;
use vstd::prelude::*;

verus! {

/// What the store requires of a byte medium.
pub trait StoreAdapter: Sized {
    /// The adapter's own error type, wrapped by the store as `AdapterError`.
    type Error;

    /// The bytes of the medium. Verified implementations define it; the
    /// default stands in for unverified adapters, which Verus never reasons
    /// about.
    open spec fn mem(&self) -> Seq<u8> {
        Seq::empty()
    }

    /// Reads `len` bytes starting at `addr`. A successful read returns
    /// exactly the bytes of `[addr, addr + len)` and proves the range in
    /// bounds; reading never changes the medium.
    fn read(&mut self, addr: usize, len: usize) -> (r: Result<Vec<u8>, Self::Error>)
        ensures
            final(self).mem() == old(self).mem(),
            r matches Ok(bytes) ==> bytes@.len() == len && addr + len <= old(self).mem().len()
                && bytes@ == old(self).mem().subrange(addr as int, addr + len),
    ;

    /// Writes `data` starting at `addr`. A successful write replaces
    /// exactly `[addr, addr + data.len())`; the medium's size never
    /// changes, even on failure.
    fn write(&mut self, addr: usize, data: &[u8]) -> (r: Result<(), Self::Error>)
        ensures
            final(self).mem().len() == old(self).mem().len(),
            r matches Ok(_) ==> addr + data@.len() <= old(self).mem().len() && final(self).mem()
                == write_bytes(old(self).mem(), addr as int, data@),
    ;

    /// Total usable byte count.
    fn max_address(&self) -> (r: usize)
        ensures
            r == self.mem().len(),
    ;
}

/// A byte medium held in memory; the reference adapter, and the one the
/// tests run on. Reads and writes fail exactly when they reach past the
/// end, and a failed write changes nothing.
pub struct MemoryAdapter {
    /// The backing bytes.
    pub memory: Vec<u8>,
}

impl MemoryAdapter {
    /// Wraps a byte buffer as a medium.
    pub fn new(memory: Vec<u8>) -> (a: Self)
        ensures
            a.mem() == memory@,
    {
        MemoryAdapter { memory }
    }

    /// Hands the backing bytes back.
    pub fn release(self) -> (r: Vec<u8>)
        ensures
            r@ == self.mem(),
    {
        self.memory
    }
}

impl StoreAdapter for MemoryAdapter {
    type Error = ();

    closed spec fn mem(&self) -> Seq<u8> {
        self.memory@
    }

    fn read(&mut self, addr: usize, len: usize) -> (r: Result<Vec<u8>, ()>)
        ensures
            r is Ok <==> addr + len <= old(self).mem().len(),
    {
        let total = self.memory.len();
        if len > total || addr > total - len {
            Err(())
        } else {
            let mut out: Vec<u8> = Vec::new();
            let mut i: usize = 0;
            while i < len
                invariant
                    i <= len,
                    addr + len <= usize::MAX,
                    addr + len <= self.memory@.len(),
                    out@.len() == i,
                    forall|j: int| 0 <= j < i ==> out@[j] == self.memory@[addr + j],
                decreases len - i,
            {
                out.push(self.memory[addr + i]);
                i += 1;
            }
            proof {
                assert(out@ =~= self.memory@.subrange(addr as int, addr + len));
            }
            Ok(out)
        }
    }

    fn write(&mut self, addr: usize, data: &[u8]) -> (r: Result<(), ()>)
        ensures
            r is Ok <==> addr + data@.len() <= old(self).mem().len(),
            r is Err ==> final(self).mem() == old(self).mem(),
    {
        let total = self.memory.len();
        if data.len() > total || addr > total - data.len() {
            Err(())
        } else {
            let len = data.len();
            let mut i: usize = 0;
            while i < len
                invariant
                    i <= len,
                    len == data@.len(),
                    addr + len <= usize::MAX,
                    addr + len <= self.memory@.len(),
                    self.memory@.len() == old(self).memory@.len(),
                    forall|j: int|
                        0 <= j < self.memory@.len() ==> self.memory@[j] == (if addr <= j < addr
                            + i {
                            data@[j - addr]
                        } else {
                            old(self).memory@[j]
                        }),
                decreases len - i,
            {
                let b: u8 = *vstd::slice::slice_index_get(data, i);
                self.memory[addr + i] = b;
                i += 1;
            }
            proof {
                assert(self.memory@ =~= write_bytes(old(self).memory@, addr as int, data@));
            }
            Ok(())
        }
    }

    fn max_address(&self) -> (r: usize) {
        self.memory.len()
    }
}

} // verus!
