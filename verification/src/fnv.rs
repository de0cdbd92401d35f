//! The 64-bit FNV-1a hash, used to name documents, to fingerprint a
//! training corpus and to index fixed-size passages.
use vstd::prelude::*;

verus! {

/// The FNV-1a offset basis.
pub const FNV_OFFSET: u64 = 0xcbf29ce484222325;

/// The FNV-1a prime.
pub const FNV_PRIME: u64 = 0x100000001b3;

/// One FNV-1a step: mix in a byte, then multiply modulo 2^64.
pub open spec fn fnv_step(h: u64, b: u8) -> u64 {
    (h ^ (b as u64)).wrapping_mul(FNV_PRIME)
}

/// The FNV-1a state after the bytes of `s`, starting from `h`.
pub open spec fn fnv_from(h: u64, s: Seq<u8>) -> u64
    decreases s.len(),
{
    if s.len() == 0 {
        h
    } else {
        fnv_step(fnv_from(h, s.drop_last()), s.last())
    }
}

/// The FNV-1a hash of `s`.
pub open spec fn fnv1a(s: Seq<u8>) -> u64 {
    fnv_from(FNV_OFFSET, s)
}

/// Hashing a concatenation continues from the hash of its first part.
pub proof fn lemma_fnv_append(h: u64, s: Seq<u8>, t: Seq<u8>)
    ensures
        fnv_from(h, s + t) == fnv_from(fnv_from(h, s), t),
    decreases t.len(),
{
    if t.len() > 0 {
        assert((s + t).drop_last() =~= s + t.drop_last());
        lemma_fnv_append(h, s, t.drop_last());
    } else {
        assert(s + t =~= s);
    }
}

/// The FNV-1a hash of `s[start..end]`.
pub fn fnv1a_range(s: &[u8], start: usize, end: usize) -> (h: u64)
    requires
        start <= end <= s@.len(),
    ensures
        h == fnv1a(s@.subrange(start as int, end as int)),
{
    let mut h: u64 = FNV_OFFSET;
    let mut k: usize = start;
    assert(s@.subrange(start as int, start as int) =~= Seq::<u8>::empty());
    while k < end
        invariant
            start <= k <= end <= s@.len(),
            h == fnv1a(s@.subrange(start as int, k as int)),
        decreases end - k,
    {
        assert(s@.subrange(start as int, k + 1).drop_last() =~= s@.subrange(start as int, k as int));
        h = (h ^ s[k] as u64).wrapping_mul(FNV_PRIME);
        k += 1;
    }
    h
}

/// The FNV-1a hash of all of `s`.
pub fn fnv1a_bytes(s: &[u8]) -> (h: u64)
    ensures
        h == fnv1a(s@),
{
    let h = fnv1a_range(s, 0, s.len());
    assert(s@.subrange(0, s@.len() as int) =~= s@);
    h
}

} // verus!
