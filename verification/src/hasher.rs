//! The hashing capability that the tree depends on, and one concrete hasher.

use vstd::prelude::*;

verus! {

/// A hashing capability: a pure, deterministic function from arbitrary-length
/// byte input to a digest, itself a byte sequence.
///
/// The tree is generic over this trait so that a concrete digest algorithm can
/// be substituted without touching the tree logic. `hash_spec` gives the
/// mathematical meaning of the function; `hash` must return exactly the bytes
/// that `hash_spec` names for its input. Determinism therefore holds by
/// construction: equal inputs yield equal digests.
pub trait Hasher {
    /// The mathematical hash function: the digest for each input.
    spec fn hash_spec(data: Seq<u8>) -> Seq<u8>;

    /// Hash the given data.
    fn hash(data: &[u8]) -> (digest: Vec<u8>)
        ensures
            digest@ == Self::hash_spec(data@),
    ;
}

/// One step of the rolling hash: multiply the accumulator by a fixed odd
/// constant, add the next byte, and reduce modulo 2^64.
pub open spec fn roll_step(acc: u64, byte: u8) -> u64 {
    (((acc as int) * 1099511628211 + byte as int) % 0x1_0000_0000_0000_0000) as u64
}

/// The accumulator after folding every byte of `data` in, left to right,
/// starting from a fixed seed.
pub open spec fn roll_accum(data: Seq<u8>) -> u64
    decreases data.len(),
{
    if data.len() == 0 {
        0xcbf2_9ce4_8422_2325u64
    } else {
        roll_step(roll_accum(data.drop_last()), data.last())
    }
}

/// The eight bytes of a 64-bit value, least significant first.
pub open spec fn le_bytes(x: u64) -> Seq<u8> {
    seq![
        (x % 256) as u8,
        ((x / 256) % 256) as u8,
        ((x / 0x1_0000) % 256) as u8,
        ((x / 0x100_0000) % 256) as u8,
        ((x / 0x1_0000_0000) % 256) as u8,
        ((x / 0x100_0000_0000) % 256) as u8,
        ((x / 0x1_0000_0000_0000) % 256) as u8,
        (x / 0x100_0000_0000_0000) as u8,
    ]
}

/// A polynomial rolling hash with an eight-byte digest.
///
/// It is not a cryptographic digest; it exists so that the tree has a concrete,
/// fully verified hasher for exercising and testing the structure.
pub struct PolyHasher;

impl Hasher for PolyHasher {
    open spec fn hash_spec(data: Seq<u8>) -> Seq<u8> {
        le_bytes(roll_accum(data))
    }

    fn hash(data: &[u8]) -> (digest: Vec<u8>) {
        let mut acc: u64 = 0xcbf2_9ce4_8422_2325;
        let mut k: usize = 0;
        while k < data.len()
            invariant
                k <= data@.len(),
                acc == roll_accum(data@.subrange(0, k as int)),
            decreases data@.len() - k,
        {
            let wide: u128 = (acc as u128) * 1099511628211 + (data[k] as u128);
            let next: u64 = (wide % 0x1_0000_0000_0000_0000) as u64;
            proof {
                assert(data@.subrange(0, k + 1).drop_last() =~= data@.subrange(0, k as int));
                assert(data@.subrange(0, k + 1).last() == data@[k as int]);
                assert(next == roll_step(acc, data@[k as int]));
            }
            acc = next;
            k = k + 1;
        }
        proof {
            assert(data@.subrange(0, data@.len() as int) =~= data@);
        }
        let mut digest: Vec<u8> = Vec::new();
        digest.push((acc % 256) as u8);
        digest.push(((acc / 256) % 256) as u8);
        digest.push(((acc / 0x1_0000) % 256) as u8);
        digest.push(((acc / 0x100_0000) % 256) as u8);
        digest.push(((acc / 0x1_0000_0000) % 256) as u8);
        digest.push(((acc / 0x100_0000_0000) % 256) as u8);
        digest.push(((acc / 0x1_0000_0000_0000) % 256) as u8);
        digest.push((acc / 0x100_0000_0000_0000) as u8);
        proof {
            assert(digest@ =~= le_bytes(acc));
        }
        digest
    }
}

} // verus!
