//! The grouping primitive: a fast, non-cryptographic streaming byte hash.
//!
//! Seeded with zero; each byte folds in as `hash = (hash * PI) ^ byte`, with
//! a wrapping multiply.  It is deterministic across runs and used only to
//! bucket a small, trusted key population, so collision resistance is not a
//! goal.
use vstd::prelude::*;

verus! {

/// The fixed odd 64-bit multiplier, chosen for good bit dispersion on short
/// ASCII keys.
pub const PI: u64 = 0x0100_0000_01b3;

/// One step of the stream: fold `byte` into `h`.
pub open spec fn fx_step(h: u64, byte: u8) -> u64 {
    vstd::wrapping::u64_specs::wrapping_mul(h, PI) ^ (byte as u64)
}

/// The whole stream: fold every byte of `bytes` into `h`, left to right.
pub open spec fn fx_fold(h: u64, bytes: Seq<u8>) -> u64
    decreases bytes.len(),
{
    if bytes.len() == 0 {
        h
    } else {
        fx_step(fx_fold(h, bytes.drop_last()), bytes.last())
    }
}

/// A streaming hasher over bytes.
pub struct FxHasher {
    hash: u64,
}

impl View for FxHasher {
    type V = u64;

    closed spec fn view(&self) -> u64 {
        self.hash
    }
}

impl Default for FxHasher {
    /// A fresh hasher, seeded with zero.
    fn default() -> (r: Self)
        ensures
            r@ == 0u64,
    {
        FxHasher { hash: 0 }
    }
}

impl FxHasher {
    /// The hash of the stream seen so far.
    pub fn finish(&self) -> (r: u64)
        ensures
            r == self@,
    {
        self.hash
    }

    /// Folds every byte of `bytes` into the running hash, in order.
    pub fn write(&mut self, bytes: &Vec<u8>)
        ensures
            final(self)@ == fx_fold(old(self)@, bytes@),
    {
        let mut i: usize = 0;
        while i < bytes.len()
            invariant
                0 <= i <= bytes.len(),
                self@ == fx_fold(old(self)@, bytes@.take(i as int)),
            decreases bytes.len() - i,
        {
            self.hash = self.hash.wrapping_mul(PI) ^ (bytes[i] as u64);
            proof {
                assert(bytes@.take(i + 1).drop_last() =~= bytes@.take(i as int));
                assert(bytes@.take(i + 1).last() == bytes@[i as int]);
            }
            i = i + 1;
        }
        proof {
            assert(bytes@.take(bytes@.len() as int) =~= bytes@);
        }
    }
}

} // verus!
