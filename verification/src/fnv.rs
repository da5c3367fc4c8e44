//! The FNV-1a hash function over byte streams.

use vstd::prelude::*;

verus! {

/// The 64-bit FNV offset basis: the state of a fresh FNV-1a hasher.
pub const FNV_OFFSET_BASIS: u64 = 0xcbf2_9ce4_8422_2325;

/// The 64-bit FNV prime.
pub const FNV_PRIME: u64 = 0x100_0000_01b3;

/// One FNV-1a round: xor the byte in, then multiply by the prime modulo 2^64.
pub open spec fn fnv_step(h: u64, b: u8) -> u64 {
    (((h ^ (b as u64)) as nat * FNV_PRIME as nat) % 0x1_0000_0000_0000_0000nat) as u64
}

/// The state reached from `h` after feeding `bytes` in order.
pub open spec fn fnv_fold(h: u64, bytes: Seq<u8>) -> u64
    decreases bytes.len(),
{
    if bytes.len() == 0 {
        h
    } else {
        fnv_step(fnv_fold(h, bytes.drop_last()), bytes.last())
    }
}

/// The FNV-1a hash of a byte sequence.
pub open spec fn fnv1a(bytes: Seq<u8>) -> u64 {
    fnv_fold(FNV_OFFSET_BASIS, bytes)
}

/// The bytes a `u64` key contributes to the hash: its eight little-endian bytes. (A
/// `u64` hashed through `Hash` feeds its native-endian bytes, the same bytes on the
/// little-endian targets the kernel runs on.)
pub open spec fn key_bytes(key: u64) -> Seq<u8> {
    vstd::bytes::spec_u64_to_le_bytes(key)
}

/// The hash of a `u64` key.
pub open spec fn hash_u64(key: u64) -> u64 {
    fnv1a(key_bytes(key))
}

/// A streaming FNV-1a hasher.
pub struct FnvHasher {
    hash: u64,
}

impl View for FnvHasher {
    type V = u64;

    open spec fn view(&self) -> u64 {
        self.state()
    }
}

impl FnvHasher {
    /// The current hash state.
    pub closed spec fn state(&self) -> u64 {
        self.hash
    }

    /// A hasher in the FNV-1a initial state.
    pub fn new() -> (h: Self)
        ensures
            h@ == FNV_OFFSET_BASIS,
    {
        FnvHasher { hash: FNV_OFFSET_BASIS }
    }

    /// The hash of everything written so far.
    pub fn finish(&self) -> (r: u64)
        ensures
            r == self@,
    {
        self.hash
    }

    /// Feeds `bytes` into the hasher, one FNV-1a round per byte.
    pub fn write(&mut self, bytes: &[u8])
        ensures
            final(self)@ == fnv_fold(old(self)@, bytes@),
    {
        let ghost start = self.hash;
        let mut i: usize = 0;
        while i < bytes.len()
            invariant
                0 <= i <= bytes@.len(),
                self.hash == fnv_fold(start, bytes@.take(i as int)),
            decreases bytes@.len() - i,
        {
            let b = bytes[i];
            let x = self.hash ^ (b as u64);
            let next = x.wrapping_mul(FNV_PRIME);
            proof {
                let t = bytes@.take(i as int + 1);
                assert(t.drop_last() =~= bytes@.take(i as int));
                assert(t.last() == b);
            }
            self.hash = next;
            i = i + 1;
        }
        proof {
            assert(bytes@.take(bytes@.len() as int) =~= bytes@);
        }
    }
}

/// The FNV-1a hash of a `u64` key, fed to the hasher as its little-endian bytes (its
/// native-endian bytes on little-endian targets).
pub fn hash(value: &u64) -> (r: u64)
    ensures
        r == hash_u64(*value),
{
    let mut hasher = FnvHasher::new();
    let bytes = vstd::bytes::u64_to_le_bytes(*value);
    hasher.write(bytes.as_slice());
    hasher.finish()
}

/// Writing a stream in two pieces leaves the hasher where writing it at once does.
pub proof fn lemma_fnv_fold_append(h: u64, a: Seq<u8>, b: Seq<u8>)
    ensures
        fnv_fold(h, a + b) == fnv_fold(fnv_fold(h, a), b),
    decreases b.len(),
{
    if b.len() == 0 {
        assert(a + b =~= a);
    } else {
        assert((a + b).drop_last() =~= a + b.drop_last());
        assert((a + b).last() == b.last());
        lemma_fnv_fold_append(h, a, b.drop_last());
    }
}

} // verus!
