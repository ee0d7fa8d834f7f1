//! The probe-sequence generator: a bounded deterministic pseudo-random walk
//! over bucket indices, derived from a Murmur3 hash of the salted key.
//!
//! The initial token is the Murmur3 digest of `big_endian(nonce) || key`
//! (the nonce bytes are omitted when the nonce is zero, for compatibility
//! with stores written without one). Each hop rehashes the big-endian bytes
//! of the current token followed by the low byte of the key length, and
//! yields the new token reduced modulo the bucket count. The low 16 bits of
//! the initial token are the key's hash summary stored in buckets.
use crate::bytes::be16_bytes;
use crate::bytes::be32_bytes;
use crate::bytes::push_be32;
use crate::hash::murmur3;
use crate::hash::murmur3_of;
use vstd::prelude::*;

verus! {

/// The bytes whose Murmur3 digest seeds the walk for `(nonce, key)`.
pub open spec fn seed_input(nonce: u16, key: Seq<u8>) -> Seq<u8> {
    if nonce == 0 {
        key
    } else {
        be16_bytes(nonce) + key
    }
}

/// The walk's initial token.
pub open spec fn initial_token(nonce: u16, key: Seq<u8>) -> u32 {
    murmur3_of(seed_input(nonce, key))
}

/// The 16-bit hash summary of a key, stored in its bucket for fast rejection.
pub open spec fn key_hash(nonce: u16, key: Seq<u8>) -> u16 {
    initial_token(nonce, key) as u16
}

/// The bytes rehashed to advance the walk by one hop.
pub open spec fn step_input(token: u32, key_len_byte: u8) -> Seq<u8> {
    be32_bytes(token) + seq![key_len_byte]
}

/// The token after `hop` advances of the walk for `(nonce, key)`.
pub open spec fn token_at(nonce: u16, key: Seq<u8>, hop: nat) -> u32
    decreases hop,
{
    if hop == 0 {
        initial_token(nonce, key)
    } else {
        murmur3_of(step_input(token_at(nonce, key, (hop - 1) as nat), (key.len() % 256) as u8))
    }
}

/// The bucket index visited at `hop` (counting from zero) of the walk.
pub open spec fn probe_index(nonce: u16, key: Seq<u8>, hop: nat, buckets: nat) -> nat
    recommends
        buckets > 0,
{
    (token_at(nonce, key, hop + 1) as nat) % buckets
}

/// The 16-bit hash summary of a key, computed without a walker.
pub fn hash_of_key(nonce: u16, key: &[u8]) -> (h: u16)
    requires
        key@.len() <= 0xffff_fff0,
    ensures
        h == key_hash(nonce, key@),
{
    let mut input: Vec<u8> = Vec::new();
    if nonce != 0 {
        crate::bytes::push_be16(&mut input, nonce);
    }
    input.extend_from_slice(key);
    proof {
        assert(input@ =~= seed_input(nonce, key@));
    }
    let token = murmur3(input.as_slice());
    token as u16
}

/// Walks up to a fixed budget of bucket indices in `[0, SIZE)`.
pub struct Grasshopper<const SIZE: usize> {
    hops: usize,
    hash: u16,
    key_len: u8,
    token: u32,
    key: Ghost<Seq<u8>>,
    nonce: Ghost<u16>,
    hop: Ghost<nat>,
}

impl<const SIZE: usize> Grasshopper<SIZE> {
    /// The key this walk was derived from.
    pub closed spec fn spec_key(&self) -> Seq<u8> {
        self.key@
    }

    /// The nonce this walk was salted with.
    pub closed spec fn spec_nonce(&self) -> u16 {
        self.nonce@
    }

    /// How many hops have been taken so far.
    pub closed spec fn cur_hop(&self) -> nat {
        self.hop@
    }

    /// How many hops of the budget are left.
    pub closed spec fn hops_left(&self) -> usize {
        self.hops
    }

    /// The walker's state matches the mathematical walk.
    pub closed spec fn wf(&self) -> bool {
        &&& self.token == token_at(self.nonce@, self.key@, self.hop@)
        &&& self.key_len == (self.key@.len() % 256) as u8
        &&& self.hash == key_hash(self.nonce@, self.key@)
    }

    /// Seeds a walk of at most `hops` hops for `key` salted with `nonce`.
    pub fn new(hops: usize, nonce: u16, key: &[u8]) -> (g: Self)
        requires
            key@.len() <= 0xffff_fff0,
        ensures
            g.wf(),
            g.spec_key() == key@,
            g.spec_nonce() == nonce,
            g.cur_hop() == 0,
            g.hops_left() == hops,
    {
        let mut input: Vec<u8> = Vec::new();
        if nonce != 0 {
            crate::bytes::push_be16(&mut input, nonce);
        }
        input.extend_from_slice(key);
        proof {
            assert(input@ =~= seed_input(nonce, key@));
        }
        let token = murmur3(input.as_slice());
        let key_len: u8 = (key.len() % 256) as u8;
        Grasshopper {
            hops,
            token,
            hash: token as u16,
            key_len,
            key: Ghost(key@),
            nonce: Ghost(nonce),
            hop: Ghost(0),
        }
    }

    /// The 16-bit hash summary of the key.
    pub fn hash(&self) -> (h: u16)
        requires
            self.wf(),
        ensures
            h == key_hash(self.spec_nonce(), self.spec_key()),
    {
        self.hash
    }

    /// Advances the walk one hop and yields the bucket index it lands on;
    /// yields nothing once the hop budget is spent.
    pub fn next(&mut self) -> (r: Option<usize>)
        requires
            old(self).wf(),
            SIZE > 0,
        ensures
            final(self).wf(),
            final(self).spec_key() == old(self).spec_key(),
            final(self).spec_nonce() == old(self).spec_nonce(),
            match r {
                Some(i) => {
                    &&& old(self).hops_left() > 0
                    &&& final(self).hops_left() == old(self).hops_left() - 1
                    &&& final(self).cur_hop() == old(self).cur_hop() + 1
                    &&& i == probe_index(
                        old(self).spec_nonce(),
                        old(self).spec_key(),
                        old(self).cur_hop(),
                        SIZE as nat,
                    )
                    &&& i < SIZE
                },
                None => {
                    &&& old(self).hops_left() == 0
                    &&& final(self).hops_left() == 0
                    &&& final(self).cur_hop() == old(self).cur_hop()
                },
            },
    {
        if self.hops == 0 {
            return None;
        }
        let mut buf: Vec<u8> = Vec::new();
        push_be32(&mut buf, self.token);
        buf.push(self.key_len);
        proof {
            assert(buf@ =~= step_input(self.token, self.key_len));
        }
        let token = murmur3(buf.as_slice());
        self.token = token;
        self.hops = self.hops - 1;
        proof {
            self.hop@ = self.hop@ + 1;
        }
        Some((self.token as usize) % SIZE)
    }
}

} // verus!
