//! A compact reference to a paged record, packed into one 32-bit word:
//! an 11-bit key hash, a 12-bit length and a 9-bit page number, stored
//! big-endian on the medium.
use crate::bytes::be32;
use crate::hash::murmur3;
use crate::hash::murmur3_of;
use vstd::prelude::*;

verus! {

/// A reference to a record held in pages.
#[derive(Debug, Default, Copy, Clone, PartialEq, Eq, Structural)]
pub struct RecordRef {
    /// Position of the reference in its table; never stored on the medium.
    pub idx: u16,
    /// 11-bit hash summary of the record's key.
    pub hash: u16,
    /// 9-bit page number; zero marks an inactive reference.
    pub page: u16,
    /// 12-bit record length in bytes.
    pub len: u16,
}

/// The 32-bit word a reference packs into: the low 11 bits hold the hash,
/// the next 12 the length, the next 9 the page.
pub open spec fn packed_word(r: RecordRef) -> u32 {
    ((r.hash as int % 2048) + (r.len as int % 4096) * 2048 + (r.page as int % 512) * 0x800000) as u32
}

/// The reference a 32-bit word unpacks to; the table position is not stored
/// and comes back as zero.
pub open spec fn unpacked(val: u32) -> RecordRef {
    RecordRef {
        idx: 0,
        hash: (val as int % 2048) as u16,
        len: ((val as int / 2048) % 4096) as u16,
        page: ((val as int / 0x800000) % 512) as u16,
    }
}

/// Packing then unpacking is the identity on references whose fields fit
/// their widths (and whose table position is zero).
pub proof fn lemma_record_ref_roundtrip(r: RecordRef)
    requires
        r.idx == 0,
        r.hash < 2048,
        r.len < 4096,
        r.page < 512,
    ensures
        unpacked(packed_word(r)) == r,
{
    let h = r.hash;
    let l = r.len;
    let p = r.page;
    assert(h < 2048 && l < 4096 && p < 512 ==> {
        let w = ((h as int % 2048) + (l as int % 4096) * 2048 + (p as int % 512) * 0x800000) as u32;
        (w as int % 2048) as u16 == h && ((w as int / 2048) % 4096) as u16 == l && ((w as int
            / 0x800000) % 512) as u16 == p
    }) by (bit_vector);
}

impl RecordRef {
    /// The 11-bit hash summary of a key: the low bits of its Murmur3 digest.
    pub fn hash(buf: &[u8]) -> (r: u16)
        requires
            buf@.len() <= 0xffff_ffff,
        ensures
            r == (murmur3_of(buf@) as int % 2048) as u16,
    {
        let m: u32 = murmur3(buf);
        proof {
            assert((m & 2047) as u16 == (m as int % 2048) as u16) by (bit_vector);
        }
        (m & 2047) as u16
    }

    /// Whether the reference points at a live record.
    pub fn active(self) -> (r: bool)
        ensures
            r == (self.page != 0),
    {
        self.page != 0
    }

    /// How many pages of `page_size` bytes the record spans, rounding up.
    pub fn pages(self, page_size: u16) -> (r: u16)
        requires
            page_size > 0,
        ensures
            r == (self.len as int + page_size - 1) / (page_size as int),
    {
        let pages = self.len / page_size;
        let rem = self.len % page_size;
        proof {
            assert(rem > 0 ==> page_size >= 2) by (nonlinear_arith)
                requires
                    page_size > 0,
                    rem == self.len as int % page_size as int,
            ;
            assert(page_size >= 2 ==> self.len as int / page_size as int <= 0x7fff)
                by (nonlinear_arith);
        }
        let r = if rem > 0 {
            pages + 1
        } else {
            pages
        };
        proof {
            assert(r == (self.len as int + page_size - 1) / (page_size as int))
                by (nonlinear_arith)
                requires
                    page_size > 0,
                    pages == self.len / page_size,
                    r == if self.len as int % page_size as int > 0 {
                        pages + 1int
                    } else {
                        pages as int
                    },
            ;
        }
        r
    }

    /// Parses a reference from the first four bytes of `buf`.
    pub fn deserialize(buf: &Vec<u8>) -> (r: RecordRef)
        requires
            buf.len() >= 4,
        ensures
            r == unpacked(be32(buf@[0], buf@[1], buf@[2], buf@[3])),
    {
        let val = crate::bytes::read_be32(buf, 0);
        let hash = (val & 2047) as u16;
        let len = ((val >> 11) & 4095) as u16;
        let page = ((val >> 23) & 511) as u16;
        proof {
            assert((val & 2047) as u16 == (val as int % 2048) as u16) by (bit_vector);
            assert(((val >> 11) & 4095) as u16 == ((val as int / 2048) % 4096) as u16)
                by (bit_vector);
            assert(((val >> 23) & 511) as u16 == ((val as int / 0x800000) % 512) as u16)
                by (bit_vector);
        }
        RecordRef { idx: 0, len, page, hash }
    }

    /// The four big-endian bytes of the packed reference.
    pub fn serialize(self) -> (out: Vec<u8>)
        ensures
            out@ == crate::bytes::be32_bytes(packed_word(self)),
    {
        let val: u32 = (self.hash as u32 & 2047) | ((self.len as u32 & 4095) << 11) | ((
        self.page as u32 & 511) << 23);
        proof {
            let h = self.hash;
            let l = self.len;
            let p = self.page;
            assert((h as u32 & 2047) | ((l as u32 & 4095) << 11) | ((p as u32 & 511) << 23) == ((
            h as int % 2048) + (l as int % 4096) * 2048 + (p as int % 512) * 0x800000) as u32)
                by (bit_vector);
        }
        let mut out: Vec<u8> = Vec::new();
        crate::bytes::push_be32(&mut out, val);
        out
    }
}

} // verus!
