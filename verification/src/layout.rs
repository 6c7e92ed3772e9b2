//! The layout of an archive image: where the writer puts each name and each
//! payload, and the bytes that come of it.
use crate::alignment::lemma_round_up;
use crate::alignment::spec_round_up;
use crate::codec::spec_u16_bytes;
use crate::codec::spec_u32_bytes;
use crate::Endian;
use crate::file_map::Entry;
use crate::parse::spec_names_offset;
use crate::parse::spec_sarc_magic;
use crate::parse::spec_sfat_magic;
use crate::parse::spec_sfnt_magic;
use crate::spec_hash_name;
use crate::spec_is_valid_alignment;
use vstd::prelude::*;
use vstd::utf8::encode_utf8;

verus! {

/// A run of `count` zero bytes.
pub open spec fn spec_zeros(count: int) -> Seq<u8> {
    Seq::new(count as nat, |i: int| 0u8)
}

/// The room that a name takes in the name table: its UTF-8 bytes and a
/// terminating zero, filled up to a multiple of four.
pub open spec fn spec_name_size(name: Seq<char>) -> int {
    spec_round_up((encode_utf8(name).len() + 1) as int, 4)
}

/// The room that the first `count` names take in the name table, which is
/// where the name behind them starts.
pub open spec fn spec_names_size(files: Seq<Entry>, count: int) -> int
    decreases count,
{
    if count <= 0 {
        0
    } else {
        spec_names_size(files, count - 1) + spec_name_size(files[count - 1].0)
    }
}

/// Where the data region ends once the first `count` payloads are placed,
/// counted from the region's start: each payload starts at the next
/// multiple of its alignment.
pub open spec fn spec_data_end(files: Seq<Entry>, alignments: Seq<usize>, count: int) -> int
    decreases count,
{
    if count <= 0 {
        0
    } else {
        spec_round_up(spec_data_end(files, alignments, count - 1), alignments[count - 1] as int)
            + files[count - 1].1.len()
    }
}

/// Where the payload with the given index starts, counted from the start
/// of the data region.
pub open spec fn spec_data_begin(files: Seq<Entry>, alignments: Seq<usize>, index: int) -> int {
    spec_round_up(spec_data_end(files, alignments, index), alignments[index] as int)
}

/// The largest of the first `count` alignments, and 1 where there is none:
/// the least common multiple of powers of two.
pub open spec fn spec_required_alignment(alignments: Seq<usize>, count: int) -> int
    decreases count,
{
    if count <= 0 {
        1
    } else {
        let rest = spec_required_alignment(alignments, count - 1);
        if rest <= alignments[count - 1] {
            alignments[count - 1] as int
        } else {
            rest
        }
    }
}

/// Where the data region starts in the image: at the first multiple of the
/// required alignment behind the name table.
pub open spec fn spec_data_offset(files: Seq<Entry>, alignments: Seq<usize>) -> int {
    spec_round_up(
        spec_names_offset(files.len() as int) + spec_names_size(files, files.len() as int),
        spec_required_alignment(alignments, files.len() as int),
    )
}

/// The length of the image.
pub open spec fn spec_file_size(files: Seq<Entry>, alignments: Seq<usize>) -> int {
    spec_data_offset(files, alignments) + spec_data_end(files, alignments, files.len() as int)
}

/// Whether the archive fits the format: fewer than 0x4000 files, every name
/// within reach of a 24-bit count of four-byte steps, and a length that 32
/// bits hold.
pub open spec fn spec_fits(files: Seq<Entry>, alignments: Seq<usize>) -> bool {
    &&& files.len() < 0x4000
    &&& spec_names_size(files, files.len() - 1) < 0x400_0000
    &&& spec_file_size(files, alignments) <= u32::MAX
}

/// The archive header: magic, header size, byte order mark, length of the
/// image, start of the data region, version, and a reserved field.
#[verifier::opaque]
pub open spec fn spec_header_bytes(endian: Endian, file_size: u32, data_offset: u32) -> Seq<u8> {
    spec_sarc_magic() + spec_u16_bytes(endian, 0x14) + spec_u16_bytes(endian, 0xFEFF)
        + spec_u32_bytes(endian, file_size) + spec_u32_bytes(endian, data_offset) + spec_u16_bytes(
        endian,
        0x0100,
    ) + spec_u16_bytes(endian, 0)
}

/// The header of the file allocation table: magic, header size, number of
/// files and hash multiplier.
#[verifier::opaque]
pub open spec fn spec_fat_header_bytes(endian: Endian, num_files: u16, multiplier: u32) -> Seq<u8> {
    spec_sfat_magic() + spec_u16_bytes(endian, 0x0C) + spec_u16_bytes(endian, num_files)
        + spec_u32_bytes(endian, multiplier)
}

/// The header of the name table: magic, header size, and a reserved field.
#[verifier::opaque]
pub open spec fn spec_fnt_header_bytes(endian: Endian) -> Seq<u8> {
    spec_sfnt_magic() + spec_u16_bytes(endian, 0x08) + spec_u16_bytes(endian, 0)
}

/// The name field of a table entry for a name that starts `offset` bytes
/// into the name table: the flag 1 in the high byte, and the offset in
/// four-byte steps below it.
pub open spec fn spec_name_field(offset: int) -> u32 {
    0x0100_0000u32 | ((offset / 4) as u32)
}

/// The table entry of the file with the given index.
#[verifier::opaque]
pub open spec fn spec_fat_entry_bytes(
    endian: Endian,
    multiplier: u32,
    files: Seq<Entry>,
    alignments: Seq<usize>,
    index: int,
) -> Seq<u8> {
    spec_u32_bytes(endian, spec_hash_name(multiplier, files[index].0)) + spec_u32_bytes(
        endian,
        spec_name_field(spec_names_size(files, index)),
    ) + spec_u32_bytes(endian, spec_data_begin(files, alignments, index) as u32) + spec_u32_bytes(
        endian,
        spec_data_end(files, alignments, index + 1) as u32,
    )
}

/// The first `count` entries of the file allocation table.
pub open spec fn spec_fat_entries_bytes(
    endian: Endian,
    multiplier: u32,
    files: Seq<Entry>,
    alignments: Seq<usize>,
    count: int,
) -> Seq<u8>
    decreases count,
{
    if count <= 0 {
        Seq::empty()
    } else {
        spec_fat_entries_bytes(endian, multiplier, files, alignments, count - 1)
            + spec_fat_entry_bytes(endian, multiplier, files, alignments, count - 1)
    }
}

/// A name as it stands in the name table: its UTF-8 bytes, then zeros up to
/// a multiple of four, and at least one.
pub open spec fn spec_name_bytes(name: Seq<char>) -> Seq<u8> {
    encode_utf8(name) + spec_zeros(spec_name_size(name) - encode_utf8(name).len())
}

/// The first `count` names of the name table.
pub open spec fn spec_name_table_bytes(files: Seq<Entry>, count: int) -> Seq<u8>
    decreases count,
{
    if count <= 0 {
        Seq::empty()
    } else {
        spec_name_table_bytes(files, count - 1) + spec_name_bytes(files[count - 1].0)
    }
}

/// The data region with the first `count` payloads, each behind the zeros
/// that bring it to its start.
pub open spec fn spec_data_bytes(files: Seq<Entry>, alignments: Seq<usize>, count: int) -> Seq<u8>
    decreases count,
{
    if count <= 0 {
        Seq::empty()
    } else {
        spec_data_bytes(files, alignments, count - 1) + spec_zeros(
            spec_data_begin(files, alignments, count - 1) - spec_data_end(
                files,
                alignments,
                count - 1,
            ),
        ) + files[count - 1].1
    }
}

/// The image of an archive with the given files, in the given order, each
/// with its alignment.
#[verifier::opaque]
pub open spec fn spec_archive_bytes(
    endian: Endian,
    multiplier: u32,
    files: Seq<Entry>,
    alignments: Seq<usize>,
) -> Seq<u8> {
    let count = files.len() as int;
    let names_end = spec_names_offset(count) + spec_names_size(files, count);
    spec_header_bytes(
        endian,
        spec_file_size(files, alignments) as u32,
        spec_data_offset(files, alignments) as u32,
    ) + spec_fat_header_bytes(endian, count as u16, multiplier) + spec_fat_entries_bytes(
        endian,
        multiplier,
        files,
        alignments,
        count,
    ) + spec_fnt_header_bytes(endian) + spec_name_table_bytes(files, count) + spec_zeros(
        spec_data_offset(files, alignments) - names_end,
    ) + spec_data_bytes(files, alignments, count)
}

/// Every one of the alignments is a valid one.
pub open spec fn spec_all_valid(alignments: Seq<usize>) -> bool {
    forall|i: int| 0 <= i < alignments.len() ==> spec_is_valid_alignment(#[trigger] alignments[i])
}

/// The room of a name is a multiple of four with room for the name and a
/// terminating zero.
pub proof fn lemma_name_size(name: Seq<char>)
    ensures
        encode_utf8(name).len() < spec_name_size(name) <= encode_utf8(name).len() + 4,
        spec_name_size(name) % 4 == 0,
{
    lemma_round_up((encode_utf8(name).len() + 1) as int, 4);
}

/// The name table grows with every name, by multiples of four.
pub proof fn lemma_names_size(files: Seq<Entry>, low: int, high: int)
    requires
        0 <= low <= high,
    ensures
        0 <= spec_names_size(files, low) <= spec_names_size(files, high),
        spec_names_size(files, low) % 4 == 0,
        high > low ==> spec_names_size(files, low) < spec_names_size(files, high),
    decreases high,
{
    if low > 0 {
        lemma_names_size(files, low - 1, low - 1);
        lemma_name_size(files[low - 1].0);
    }
    if high > low {
        lemma_names_size(files, low, high - 1);
        lemma_name_size(files[high - 1].0);
    }
}

/// The data region grows with every payload.
pub proof fn lemma_data_end(files: Seq<Entry>, alignments: Seq<usize>, low: int, high: int)
    requires
        0 <= low <= high <= alignments.len(),
        spec_all_valid(alignments),
    ensures
        0 <= spec_data_end(files, alignments, low) <= spec_data_end(files, alignments, high),
    decreases high,
{
    if low > 0 {
        lemma_data_end(files, alignments, low - 1, low - 1);
        let a = alignments[low - 1];
        crate::alignment::lemma_power_of_two_divides(a as int, a as int);
        lemma_round_up(spec_data_end(files, alignments, low - 1), a as int);
    }
    if high > low {
        lemma_data_end(files, alignments, low, high - 1);
        let a = alignments[high - 1];
        crate::alignment::lemma_power_of_two_divides(a as int, a as int);
        lemma_round_up(spec_data_end(files, alignments, high - 1), a as int);
    }
}

/// The required alignment is a power of two that every alignment divides.
pub proof fn lemma_required_alignment(alignments: Seq<usize>, count: int, index: int)
    requires
        0 <= index < count <= alignments.len(),
        spec_all_valid(alignments),
    ensures
        crate::alignment::spec_is_power_of_two(spec_required_alignment(alignments, count)),
        spec_required_alignment(alignments, count) % (alignments[index] as int) == 0,
        alignments[index] > 0,
    decreases count,
{
    lemma_required_alignment_valid(alignments, count);
    let rest = spec_required_alignment(alignments, count - 1);
    let last = alignments[count - 1] as int;
    lemma_required_alignment_valid(alignments, count - 1);
    if index < count - 1 {
        lemma_required_alignment(alignments, count - 1, index);
        if rest <= last {
            let a = alignments[index] as int;
            crate::alignment::lemma_power_of_two_divides(rest, last);
            // a divides rest, rest divides last
            vstd::arithmetic::div_mod::lemma_fundamental_div_mod(rest, a);
            vstd::arithmetic::div_mod::lemma_fundamental_div_mod(last, rest);
            let p = rest / a;
            let q = last / rest;
            assert(last == a * (p * q)) by (nonlinear_arith)
                requires
                    rest == a * p,
                    last == rest * q,
            ;
            vstd::arithmetic::mul::lemma_mul_is_commutative(a, p * q);
            vstd::arithmetic::div_mod::lemma_mod_multiples_basic(p * q, a);
        }
    } else {
        if rest <= last {
            crate::alignment::lemma_power_of_two_divides(last, last);
        } else {
            crate::alignment::lemma_power_of_two_divides(last, rest);
        }
    }
}

/// The required alignment is a power of two.
pub proof fn lemma_required_alignment_valid(alignments: Seq<usize>, count: int)
    requires
        0 <= count <= alignments.len(),
        spec_all_valid(alignments),
    ensures
        crate::alignment::spec_is_power_of_two(spec_required_alignment(alignments, count)),
        spec_required_alignment(alignments, count) >= 1,
    decreases count,
{
    crate::alignment::lemma_small_alignments_are_valid();
    if count > 0 {
        lemma_required_alignment_valid(alignments, count - 1);
        crate::alignment::lemma_power_of_two_divides(
            alignments[count - 1] as int,
            alignments[count - 1] as int,
        );
    }
}

/// Every part of the image lies within its length.
pub proof fn lemma_file_size_bounds(files: Seq<Entry>, alignments: Seq<usize>, index: int)
    requires
        0 <= index <= files.len() == alignments.len(),
        spec_all_valid(alignments),
    ensures
        0 <= spec_names_size(files, index),
        spec_names_offset(files.len() as int) + spec_names_size(files, index) <= spec_data_offset(
            files,
            alignments,
        ),
        spec_data_offset(files, alignments) <= spec_file_size(files, alignments),
        0 <= spec_data_end(files, alignments, index) <= spec_data_end(
            files,
            alignments,
            files.len() as int,
        ),
        index < files.len() ==> spec_data_end(files, alignments, index) <= spec_data_begin(
            files,
            alignments,
            index,
        ) <= spec_data_end(files, alignments, index + 1),
{
    let count = files.len() as int;
    lemma_names_size(files, index, count);
    lemma_required_alignment_valid(alignments, count);
    lemma_round_up(
        spec_names_offset(count) + spec_names_size(files, count),
        spec_required_alignment(alignments, count),
    );
    lemma_data_end(files, alignments, index, count);
    lemma_data_end(files, alignments, 0, count);
    if index < count {
        let a = alignments[index];
        crate::alignment::lemma_power_of_two_divides(a as int, a as int);
        lemma_round_up(spec_data_end(files, alignments, index), a as int);
        lemma_data_end(files, alignments, index + 1, count);
    }
}

} // verus!
