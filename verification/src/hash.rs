//! The 64-bit FNV-1a hash, computed in one go or over a stream of chunks.

use vstd::prelude::*;
use crate::numfmt::{format_hex64, hex_digits_fixed};

verus! {

/// The FNV-1a offset basis: the hash of no bytes.
pub const FNV_OFFSET: u64 = 0xcbf29ce484222325;

/// The FNV-1a prime.
pub const FNV_PRIME: u64 = 0x00000100000001B3;

/// One FNV-1a step: fold the byte into the low bits, then multiply by the prime modulo 2^64.
pub open spec fn fnv1a_step(h: u64, b: u8) -> u64 {
    (h ^ (b as u64)).wrapping_mul(FNV_PRIME)
}

/// The state reached from `h` after feeding every byte of `s`, first to last.
pub open spec fn fnv1a_from(h: u64, s: Seq<u8>) -> u64
    decreases s.len(),
{
    if s.len() == 0 {
        h
    } else {
        fnv1a_step(fnv1a_from(h, s.drop_last()), s.last())
    }
}

/// The FNV-1a hash of `s`.
pub open spec fn fnv1a(s: Seq<u8>) -> u64 {
    fnv1a_from(FNV_OFFSET, s)
}

/// Feeds the bytes of `data` into the running hash `h`.
pub fn fnv1a_update(h: u64, data: &[u8]) -> (res: u64)
    ensures
        res == fnv1a_from(h, data@),
{
    let mut hash = h;
    let mut i: usize = 0;
    while i < data.len()
        invariant
            0 <= i <= data@.len(),
            hash == fnv1a_from(h, data@.take(i as int)),
        decreases data@.len() - i,
    {
        assert(data@.take(i + 1).drop_last() =~= data@.take(i as int));
        hash = (hash ^ data[i] as u64).wrapping_mul(FNV_PRIME);
        i += 1;
    }
    assert(data@.take(i as int) =~= data@);
    hash
}

/// The FNV-1a hash of `data`.
pub fn fnv1a_hash(data: &[u8]) -> (res: u64)
    ensures
        res == fnv1a(data@),
{
    fnv1a_update(FNV_OFFSET, data)
}

/// The hash as the tool prints it: 16 lower-case hexadecimal digits and a newline.
pub fn hash_line(h: u64) -> (res: Vec<u8>)
    ensures
        res@ == hex_digits_fixed(h as nat, 16).push(10u8),
{
    let mut out = format_hex64(h);
    out.push(10u8);
    out
}

/// Hashing a stream chunk by chunk gives the hash of the whole: feeding `a` and then `b`
/// reaches the same state as feeding `a + b`.
pub proof fn law_fnv1a_chunks(h: u64, a: Seq<u8>, b: Seq<u8>)
    ensures
        fnv1a_from(fnv1a_from(h, a), b) == fnv1a_from(h, a + b),
    decreases b.len(),
{
    if b.len() == 0 {
        assert(a + b =~= a);
    } else {
        law_fnv1a_chunks(h, a, b.drop_last());
        assert((a + b).drop_last() =~= a + b.drop_last());
        assert((a + b).last() == b.last());
    }
}

} // verus!
