//! Big-endian byte packing and small byte-sequence helpers.
//!
//! The on-medium format stores every multi-byte integer most significant
//! byte first; these functions state that layout exactly and prove the
//! executable packing against it.
use vstd::prelude::*;

verus! {

/// The 16-bit big-endian integer held by two bytes.
pub open spec fn be16(b0: u8, b1: u8) -> u16 {
    (b0 * 0x100 + b1) as u16
}

/// The 24-bit big-endian integer held by three bytes.
pub open spec fn be24(b0: u8, b1: u8, b2: u8) -> u32 {
    (b0 * 0x10000 + b1 * 0x100 + b2) as u32
}

/// The 32-bit big-endian integer held by four bytes.
pub open spec fn be32(b0: u8, b1: u8, b2: u8, b3: u8) -> u32 {
    (b0 * 0x1000000 + b1 * 0x10000 + b2 * 0x100 + b3) as u32
}

/// The two big-endian bytes of a 16-bit integer.
pub open spec fn be16_bytes(x: u16) -> Seq<u8> {
    seq![(x / 0x100) as u8, (x % 0x100) as u8]
}

/// The three big-endian bytes of the low 24 bits of a 32-bit integer.
pub open spec fn be24_bytes(x: u32) -> Seq<u8> {
    seq![((x / 0x10000) % 0x100) as u8, ((x / 0x100) % 0x100) as u8, (x % 0x100) as u8]
}

/// The four big-endian bytes of a 32-bit integer.
pub open spec fn be32_bytes(x: u32) -> Seq<u8> {
    seq![
        (x / 0x1000000) as u8,
        ((x / 0x10000) % 0x100) as u8,
        ((x / 0x100) % 0x100) as u8,
        (x % 0x100) as u8,
    ]
}

/// Packing a 16-bit integer and reading it back is the identity.
pub proof fn lemma_be16_roundtrip(x: u16)
    ensures
        be16(be16_bytes(x)[0], be16_bytes(x)[1]) == x,
{
    assert(x / 0x100 < 0x100) by (nonlinear_arith);
    assert((x / 0x100) * 0x100 + x % 0x100 == x) by (nonlinear_arith);
}

/// Packing the low 24 bits and reading them back is the identity when they fit.
pub proof fn lemma_be24_roundtrip(x: u32)
    requires
        x < 0x1000000,
    ensures
        be24(be24_bytes(x)[0], be24_bytes(x)[1], be24_bytes(x)[2]) == x,
{
    assert((x / 0x10000) % 0x100 == x / 0x10000) by (nonlinear_arith)
        requires
            x < 0x1000000,
    ;
    assert(((x / 0x10000) % 0x100) * 0x10000 + ((x / 0x100) % 0x100) * 0x100 + x % 0x100 == x)
        by (nonlinear_arith)
        requires
            x < 0x1000000,
    ;
}

/// Packing a 32-bit integer and reading it back is the identity.
pub proof fn lemma_be32_roundtrip(x: u32)
    ensures
        be32(be32_bytes(x)[0], be32_bytes(x)[1], be32_bytes(x)[2], be32_bytes(x)[3]) == x,
{
    assert(x / 0x1000000 < 0x100) by (nonlinear_arith);
    assert((x / 0x1000000) * 0x1000000 + ((x / 0x10000) % 0x100) * 0x10000 + ((x / 0x100) % 0x100)
        * 0x100 + x % 0x100 == x) by (nonlinear_arith);
}

/// Appends the two big-endian bytes of `x` to `out`.
pub fn push_be16(out: &mut Vec<u8>, x: u16)
    ensures
        final(out)@ == old(out)@ + be16_bytes(x),
{
    let b0: u8 = (x >> 8) as u8;
    let b1: u8 = (x & 0xff) as u8;
    proof {
        assert(x >> 8 == x / 0x100) by (bit_vector);
        assert(x & 0xff == x % 0x100) by (bit_vector);
        assert(x / 0x100 < 0x100) by (nonlinear_arith);
    }
    out.push(b0);
    out.push(b1);
    proof {
        assert(out@ =~= old(out)@ + be16_bytes(x));
    }
}

/// Appends the three big-endian bytes of the low 24 bits of `x` to `out`.
pub fn push_be24(out: &mut Vec<u8>, x: u32)
    ensures
        final(out)@ == old(out)@ + be24_bytes(x),
{
    let b0: u8 = ((x >> 16) & 0xff) as u8;
    let b1: u8 = ((x >> 8) & 0xff) as u8;
    let b2: u8 = (x & 0xff) as u8;
    proof {
        assert((x >> 16) & 0xff == (x / 0x10000) % 0x100) by (bit_vector);
        assert((x >> 8) & 0xff == (x / 0x100) % 0x100) by (bit_vector);
        assert(x & 0xff == x % 0x100) by (bit_vector);
    }
    out.push(b0);
    out.push(b1);
    out.push(b2);
    proof {
        assert(out@ =~= old(out)@ + be24_bytes(x));
    }
}

/// Appends the four big-endian bytes of `x` to `out`.
pub fn push_be32(out: &mut Vec<u8>, x: u32)
    ensures
        final(out)@ == old(out)@ + be32_bytes(x),
{
    let b0: u8 = (x >> 24) as u8;
    let b1: u8 = ((x >> 16) & 0xff) as u8;
    let b2: u8 = ((x >> 8) & 0xff) as u8;
    let b3: u8 = (x & 0xff) as u8;
    proof {
        assert(x >> 24 == x / 0x1000000) by (bit_vector);
        assert((x >> 16) & 0xff == (x / 0x10000) % 0x100) by (bit_vector);
        assert((x >> 8) & 0xff == (x / 0x100) % 0x100) by (bit_vector);
        assert(x & 0xff == x % 0x100) by (bit_vector);
        assert(x / 0x1000000 < 0x100) by (nonlinear_arith);
    }
    out.push(b0);
    out.push(b1);
    out.push(b2);
    out.push(b3);
    proof {
        assert(out@ =~= old(out)@ + be32_bytes(x));
    }
}

/// Reads the 16-bit big-endian integer at `off` in `buf`.
pub fn read_be16(buf: &Vec<u8>, off: usize) -> (r: u16)
    requires
        off + 2 <= buf.len(),
    ensures
        r == be16(buf@[off as int], buf@[off as int + 1]),
{
    let b0: u16 = buf[off] as u16;
    let b1: u16 = buf[off + 1] as u16;
    proof {
        let v0 = buf@[off as int];
        let v1 = buf@[off as int + 1];
        assert((v0 as u16) << 8 | (v1 as u16) == v0 * 0x100 + v1) by (bit_vector);
    }
    (b0 << 8) | b1
}

/// Reads the 24-bit big-endian integer at `off` in `buf`.
pub fn read_be24(buf: &Vec<u8>, off: usize) -> (r: u32)
    requires
        off + 3 <= buf.len(),
    ensures
        r == be24(buf@[off as int], buf@[off as int + 1], buf@[off as int + 2]),
{
    let b0: u32 = buf[off] as u32;
    let b1: u32 = buf[off + 1] as u32;
    let b2: u32 = buf[off + 2] as u32;
    proof {
        let v0 = buf@[off as int];
        let v1 = buf@[off as int + 1];
        let v2 = buf@[off as int + 2];
        assert((v0 as u32) << 16 | (v1 as u32) << 8 | (v2 as u32) == v0 * 0x10000 + v1 * 0x100
            + v2) by (bit_vector);
    }
    (b0 << 16) | (b1 << 8) | b2
}

/// Reads the 32-bit big-endian integer at `off` in `buf`.
pub fn read_be32(buf: &Vec<u8>, off: usize) -> (r: u32)
    requires
        off + 4 <= buf.len(),
    ensures
        r == be32(
            buf@[off as int],
            buf@[off as int + 1],
            buf@[off as int + 2],
            buf@[off as int + 3],
        ),
{
    let b0: u32 = buf[off] as u32;
    let b1: u32 = buf[off + 1] as u32;
    let b2: u32 = buf[off + 2] as u32;
    let b3: u32 = buf[off + 3] as u32;
    proof {
        let v0 = buf@[off as int];
        let v1 = buf@[off as int + 1];
        let v2 = buf@[off as int + 2];
        let v3 = buf@[off as int + 3];
        assert((v0 as u32) << 24 | (v1 as u32) << 16 | (v2 as u32) << 8 | (v3 as u32) == v0
            * 0x1000000 + v1 * 0x10000 + v2 * 0x100 + v3) by (bit_vector);
    }
    (b0 << 24) | (b1 << 16) | (b2 << 8) | b3
}

/// True exactly when the two byte slices hold the same bytes.
pub fn bytes_eq(a: &[u8], b: &[u8]) -> (r: bool)
    ensures
        r == (a@ == b@),
{
    if a.len() != b.len() {
        return false;
    }
    let mut i: usize = 0;
    while i < a.len()
        invariant
            i <= a@.len(),
            a@.len() == b@.len(),
            forall|j: int| 0 <= j < i ==> a@[j] == b@[j],
        decreases a@.len() - i,
    {
        if *vstd::slice::slice_index_get(a, i) != *vstd::slice::slice_index_get(b, i) {
            return false;
        }
        i += 1;
    }
    proof {
        assert(a@ =~= b@);
    }
    true
}

} // verus!
