//! The single default hashing strategy used for all keys: the 64-bit
//! Fowler-Noll-Vo (FNV-1a) digest of the key bytes.  It is deterministic,
//! so the same key always yields the same digest.

use vstd::prelude::*;

verus! {

/// Starting value of the FNV-1a 64-bit digest.
pub const FNV_OFFSET: u64 = 0xcbf2_9ce4_8422_2325;

/// Multiplier applied after each byte of the key is mixed in.
pub const FNV_PRIME: u64 = 0x100_0000_01b3;

/// One FNV-1a round: fold one byte into the running digest.
pub open spec fn fnv_step(h: u64, b: u8) -> u64 {
    (((h ^ (b as u64)) as nat * FNV_PRIME as nat) % 0x1_0000_0000_0000_0000nat) as u64
}

/// The digest of a whole key: the FNV-1a rounds folded over its bytes,
/// starting from the offset basis.
pub open spec fn hash_of(k: Seq<u8>) -> u64
    decreases k.len(),
{
    if k.len() == 0 {
        FNV_OFFSET
    } else {
        fnv_step(hash_of(k.drop_last()), k.last())
    }
}

/// Computes the FNV-1a digest of `key`, byte by byte.
pub fn fnv1a(key: &Vec<u8>) -> (r: u64)
    ensures
        r == hash_of(key@),
{
    let mut h: u64 = FNV_OFFSET;
    let mut i: usize = 0;
    while i < key.len()
        invariant
            i <= key.len(),
            h == hash_of(key@.take(i as int)),
        decreases key.len() - i,
    {
        let b = key[i];
        h = (h ^ (b as u64)).wrapping_mul(FNV_PRIME);
        i = i + 1;
        proof {
            assert(key@.take(i as int).drop_last() =~= key@.take(i - 1));
            assert(key@.take(i as int).last() == key@[i - 1]);
        }
    }
    proof {
        assert(key@.take(key@.len() as int) =~= key@);
    }
    h
}

} // verus!
