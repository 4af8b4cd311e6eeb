//! Hashing of packed site numbers.

use std::hash::Hasher;
use vstd::prelude::*;

verus! {

/// Hasher for maps with packed sites as keys. Such a key is already a uniformly
/// useful integer, so hashing it again only adds overhead.
pub struct IdentityHasher(u64);

impl View for IdentityHasher {
    type V = u64;

    closed spec fn view(&self) -> u64 {
        self.0
    }
}

impl Default for IdentityHasher {
    /// A hasher that nothing was written to.
    fn default() -> (hasher: Self)
        ensures
            hasher@ == 0,
    {
        IdentityHasher(0)
    }
}

/// One byte taken into a 64-bit FNV-1a hash.
pub open spec fn fnv1a_step(hash: u64, byte: u8) -> u64 {
    ((hash ^ (byte as u64)) * 0x0000_0100_0000_01b3 % 0x1_0000_0000_0000_0000) as u64
}

/// The 64-bit FNV-1a hash of a byte string.
pub open spec fn fnv1a(bytes: Seq<u8>) -> u64
    decreases bytes.len(),
{
    if bytes.len() == 0 {
        0xcbf2_9ce4_8422_2325
    } else {
        fnv1a_step(fnv1a(bytes.drop_last()), bytes.last())
    }
}

/// The hash of no bytes is the offset of FNV-1a, and one more byte is taken in by
/// exclusive or and a product with the prime of FNV-1a, to 64 bits.
pub proof fn law_fnv1a_grows(bytes: Seq<u8>, byte: u8)
    ensures
        fnv1a(Seq::empty()) == 14_695_981_039_346_656_037u64,
        fnv1a(bytes.push(byte)) as nat == (fnv1a(bytes) ^ byte as u64) as nat
            * 1_099_511_628_211nat % 18_446_744_073_709_551_616nat,
{
    assert(bytes.push(byte).drop_last() =~= bytes);
}

impl Hasher for IdentityHasher {
    fn finish(&self) -> (hash: u64)
        ensures
            hash == self@,
    {
        self.0
    }

    fn write(&mut self, bytes: &[u8])
        ensures
            final(self)@ == fnv1a(bytes@),
    {
        let mut hash: u64 = 0xcbf2_9ce4_8422_2325;
        let mut i: usize = 0;
        assert(bytes@.take(0) =~= Seq::<u8>::empty());
        while i < bytes.len()
            invariant
                i <= bytes.len(),
                hash == fnv1a(bytes@.take(i as int)),
            decreases bytes.len() - i,
        {
            hash = hash ^ (bytes[i] as u64);
            hash = hash.wrapping_mul(0x0000_0100_0000_01b3);
            assert(bytes@.take(i + 1).drop_last() =~= bytes@.take(i as int));
            i = i + 1;
        }
        assert(bytes@.take(i as int) =~= bytes@);
        self.0 = hash;
    }

    fn write_u64(&mut self, value: u64)
        ensures
            final(self)@ == value,
    {
        self.0 = value;
    }
}

} // verus!
