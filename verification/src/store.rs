//! Trusted interface to the memory-mapped bit vector.
//!
//! The bit vector is modelled as a sequence of booleans, `bv_bits`.  A
//! range of up to 128 bits is read or written as a `u128` whose most
//! significant bit of the range width corresponds to the lowest index of
//! the range; writing ORs the pattern into the range and never clears a
//! bit.  Each wrapper states over that model what the crate's source
//! shows of the call it makes.

use vstd::prelude::*;

use mmap_bitvec::{BitVector, MmapBitVec};

use crate::bitops::{exp2, seq_pop, word_bits};

verus! {

#[verifier::external_type_specification]
#[verifier::external_body]
pub struct ExMmapBitVec(MmapBitVec);

#[verifier::external_type_specification]
#[verifier::external_body]
pub struct ExIoError(std::io::Error);

/// The contents of the bit vector, one boolean per bit.
pub uninterp spec fn bv_bits(bv: MmapBitVec) -> Seq<bool>;

/// Whether the mapping accepts writes.
pub uninterp spec fn bv_writable(bv: MmapBitVec) -> bool;

/// Relies on MmapBitVec::from_memory: a zero-filled, writable, anonymous
/// mapping of `size` bits.
#[verifier::external_body]
pub fn bv_from_memory(size: usize) -> (r: Result<MmapBitVec, std::io::Error>)
    requires
        1 <= size,
    ensures
        r matches Ok(bv) ==> {
            &&& bv_bits(bv).len() == size
            &&& forall|i: int| 0 <= i < size ==> !bv_bits(bv)[i]
            &&& bv_writable(bv)
        },
{
    MmapBitVec::from_memory(size)
}

/// Relies on BitVector::size for MmapBitVec: the length in bits.
#[verifier::external_body]
pub fn bv_size(bv: &MmapBitVec) -> (r: usize)
    ensures
        r == bv_bits(*bv).len(),
{
    bv.size()
}

/// Relies on BitVector::get_range for MmapBitVec: the bits of [lo, hi),
/// most significant first.  The length floor keeps the unaligned 16-byte
/// read inside the mapping.
#[verifier::external_body]
pub fn bv_get_range(bv: &MmapBitVec, lo: usize, hi: usize) -> (r: u128)
    requires
        lo < hi,
        hi - lo <= 128,
        hi <= bv_bits(*bv).len(),
        128 <= bv_bits(*bv).len(),
    ensures
        (r as nat) < exp2((hi - lo) as nat),
        word_bits(r as nat, (hi - lo) as nat) == bv_bits(*bv).subrange(lo as int, hi as int),
{
    bv.get_range(lo..hi)
}

/// Relies on BitVector::set_range for MmapBitVec: ORs the pattern's low
/// hi - lo bits into [lo, hi), most significant first; no bit is cleared
/// and nothing outside the range changes.  The pattern must fit the range
/// width: the crate's front-byte shift would otherwise spill high pattern
/// bits onto earlier positions.
#[verifier::external_body]
pub fn bv_set_range(bv: &mut MmapBitVec, lo: usize, hi: usize, pat: u128)
    requires
        lo < hi,
        hi - lo <= 128,
        hi <= bv_bits(*old(bv)).len(),
        bv_writable(*old(bv)),
        (pat as nat) < exp2((hi - lo) as nat),
    ensures
        bv_bits(*final(bv)) == Seq::new(
            bv_bits(*old(bv)).len(),
            |i: int|
                if lo <= i < hi {
                    bv_bits(*old(bv))[i] || word_bits(pat as nat, (hi - lo) as nat)[i - lo]
                } else {
                    bv_bits(*old(bv))[i]
                },
        ),
        bv_writable(*final(bv)),
{
    bv.set_range(lo..hi, pat)
}

/// Relies on BitVector::rank for MmapBitVec: the number of set bits in a
/// byte-aligned range (the crate's partial-byte masks are only correct on
/// byte boundaries).
#[verifier::external_body]
pub fn bv_rank(bv: &MmapBitVec, lo: usize, hi: usize) -> (r: usize)
    requires
        lo < hi,
        lo % 8 == 0,
        hi % 8 == 0,
        hi <= bv_bits(*bv).len(),
    ensures
        r == seq_pop(bv_bits(*bv).subrange(lo as int, hi as int)),
{
    bv.rank(lo..hi)
}

/// Relies on murmurhash3_x64_128: the 128-bit hash depends on the bytes
/// and the seed alone.
#[verifier::external_body]
pub fn hash128(key: &[u8], seed: u64) -> (r: (u64, u64))
    ensures
        r == hash128_of(key@, seed),
{
    murmurhash3::murmurhash3_x64_128(key, seed)
}

/// What murmurhash3_x64_128 returns for the given bytes and seed.
pub uninterp spec fn hash128_of(key: Seq<u8>, seed: u64) -> (u64, u64);

} // verus!
