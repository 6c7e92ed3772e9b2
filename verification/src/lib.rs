//! Reading and writing of SARC archives, the flat container format of
//! Nintendo's first-party titles.
//!
//! A [`Sarc`] reads an archive image without copying it; a [`SarcWriter`]
//! collects named files and lays them out with the alignment that each of
//! them needs.
use vstd::prelude::*;

pub mod alignment;
pub mod codec;
pub mod file_map;
pub mod laws;
pub mod layout;
pub mod parse;
pub mod roundtrip;
pub mod tables;
pub mod text;
pub mod writer;

pub use parse::File;
pub use parse::Sarc;
pub use parse::SarcError;
pub use tables::AglEnvInfo;
pub use writer::SarcWriteError;
pub use writer::SarcWriter;

verus! {

/// The byte order of an archive's multi-byte fields.
#[derive(Debug, PartialEq, Eq, Structural, Clone, Copy)]
pub enum Endian {
    /// Most significant byte first; the byte order mark is `FE FF`.
    Big,
    /// Least significant byte first; the byte order mark is `FF FE`.
    Little,
}

/// The hash multiplier that archives use unless told otherwise.
pub const DEFAULT_HASH_MULTIPLIER: u32 = 0x65;

/// The hash of a byte string: starting from zero, each byte in turn
/// replaces the hash by `hash * multiplier + byte`, modulo 2^32.
pub open spec fn spec_hash_bytes(multiplier: u32, bytes: Seq<u8>) -> u32
    decreases bytes.len(),
{
    if bytes.len() == 0 {
        0
    } else {
        spec_hash_bytes(multiplier, bytes.drop_last()).wrapping_mul(multiplier).wrapping_add(
            bytes.last() as u32,
        )
    }
}

/// The hash of a file name: the hash of its UTF-8 encoding.
pub open spec fn spec_hash_name(multiplier: u32, name: Seq<char>) -> u32 {
    spec_hash_bytes(multiplier, vstd::utf8::encode_utf8(name))
}

/// Hashes `bytes` with the given multiplier.
pub fn hash_bytes(multiplier: u32, bytes: &[u8]) -> (hash: u32)
    ensures
        hash == spec_hash_bytes(multiplier, bytes@),
{
    let mut hash: u32 = 0;
    let mut i: usize = 0;
    while i < bytes.len()
        invariant
            i <= bytes.len(),
            hash == spec_hash_bytes(multiplier, bytes@.take(i as int)),
        decreases bytes.len() - i,
    {
        assert(bytes@.take(i + 1).drop_last() == bytes@.take(i as int));
        hash = hash.wrapping_mul(multiplier).wrapping_add(bytes[i] as u32);
        i += 1;
    }
    assert(bytes@.take(i as int) == bytes@);
    hash
}

/// Hashes a file name with the given multiplier.
pub fn hash_name(multiplier: u32, name: &str) -> (hash: u32)
    ensures
        hash == spec_hash_name(multiplier, name@),
{
    hash_bytes(multiplier, name.as_bytes())
}

/// An alignment is valid when it is a power of two, which zero is not.
pub open spec fn spec_is_valid_alignment(alignment: usize) -> bool {
    alignment::spec_is_power_of_two(alignment as int)
}

/// Tells whether `alignment` is a non-zero power of two.
pub fn is_valid_alignment(alignment: usize) -> (valid: bool)
    ensures
        valid == spec_is_valid_alignment(alignment),
{
    proof {
        let a = alignment as u64;
        alignment::lemma_power_of_two_bits(a);
        assert((alignment != 0 && alignment & (alignment - 1) as usize == 0) <==> (a != 0 && a & (a
            - 1) as u64 == 0)) by (bit_vector)
            requires
                a == alignment as u64,
        ;
    }
    alignment != 0 && (alignment & (alignment - 1)) == 0
}

} // verus!
