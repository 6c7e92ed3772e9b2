//! What holds of the reader and the writer on every input.
use crate::alignment::lemma_round_up;
use crate::alignment::spec_is_power_of_two;
use crate::codec::spec_read_u16;
use crate::file_map::Entry;
use crate::file_map::spec_is_stable_sort;
use crate::file_map::spec_sorted_in_order;
use crate::layout::lemma_required_alignment;
use crate::layout::spec_all_valid;
use crate::layout::spec_data_begin;
use crate::layout::spec_data_end;
use crate::layout::spec_data_offset;
use crate::layout::spec_names_size;
use crate::layout::spec_required_alignment;
use crate::parse::Fault;
use crate::parse::FileView;
use crate::parse::Header;
use crate::parse::spec_byte_order;
use crate::parse::spec_fat_entry;
use crate::parse::spec_file_at;
use crate::parse::spec_find;
use crate::parse::spec_get_file;
use crate::parse::spec_names_offset;
use crate::parse::spec_open;
use crate::spec_hash_bytes;
use crate::spec_hash_name;
use crate::text::spec_byte_chars;
use crate::text::spec_decimal;
use crate::writer::SarcWriterView;
use crate::writer::spec_file_alignment;
use vstd::prelude::*;

verus! {

/// The hash of no bytes is zero, and every further byte multiplies the hash
/// by the multiplier and adds the byte, modulo 2^32.
pub proof fn lemma_hash_step(multiplier: u32, bytes: Seq<u8>, byte: u8)
    ensures
        spec_hash_bytes(multiplier, Seq::empty()) == 0,
        spec_hash_bytes(multiplier, bytes.push(byte)) == (spec_hash_bytes(multiplier, bytes)
            * multiplier + byte) % 0x1_0000_0000,
{
    let before = spec_hash_bytes(multiplier, bytes);
    assert(bytes.push(byte).drop_last() == bytes);
    let product = before as nat * multiplier as nat;
    vstd::arithmetic::div_mod::lemma_add_mod_noop(product as int, byte as int, 0x1_0000_0000);
    vstd::arithmetic::div_mod::lemma_small_mod(byte as nat, 0x1_0000_0000);
    vstd::arithmetic::div_mod::lemma_mod_bound(product as int, 0x1_0000_0000);
    let wrapped = product % 0x1_0000_0000;
    if wrapped + byte > u32::MAX {
        vstd::arithmetic::div_mod::lemma_mod_sub_multiples_vanish(
            wrapped + byte,
            0x1_0000_0000,
        );
        vstd::arithmetic::div_mod::lemma_small_mod(
            (wrapped + byte - 0x1_0000_0000) as nat,
            0x1_0000_0000,
        );
    } else {
        vstd::arithmetic::div_mod::lemma_small_mod((wrapped + byte) as nat, 0x1_0000_0000);
    }
}

/// A changed byte in the magic, the header size or the version of an image
/// that opens is reported as invalid data under the name of its field.
pub proof fn lemma_corrupted_header_byte(good: Seq<u8>, at: int, byte: u8)
    requires
        spec_open(good) is Ok,
        0 <= at < 0x14,
        byte != good[at],
    ensures
        at < 4 ==> spec_open(good.update(at, byte)) == Err::<Header, Fault>(
            Fault::InvalidData(
                "SARC magic"@,
                spec_byte_chars(good.update(at, byte).subrange(0, 4)),
            ),
        ),
        4 <= at < 6 ==> spec_open(good.update(at, byte)) == Err::<Header, Fault>(
            Fault::InvalidData(
                "SARC header size"@,
                spec_decimal(
                    spec_read_u16(spec_byte_order(good)->Some_0, good.update(at, byte), 0x04)
                        as nat,
                ),
            ),
        ),
        0x10 <= at < 0x12 ==> spec_open(good.update(at, byte)) == Err::<Header, Fault>(
            Fault::InvalidData(
                "SARC version"@,
                spec_decimal(
                    spec_read_u16(spec_byte_order(good)->Some_0, good.update(at, byte), 0x10)
                        as nat,
                ),
            ),
        ),
{
    let bad = good.update(at, byte);
    if at >= 4 {
        assert(bad.subrange(0, 4) == good.subrange(0, 4));
    }
}

/// The table hashes of an image are strictly ascending.
pub open spec fn spec_table_is_sorted(bytes: Seq<u8>) -> bool {
    let header = spec_open(bytes)->Ok_0;
    forall|i: int, j: int|
        0 <= i < j < header.num_files ==> (#[trigger] spec_fat_entry(
            header.endian,
            bytes,
            i,
        )).name_hash < (#[trigger] spec_fat_entry(header.endian, bytes, j)).name_hash
}

/// In a table of strictly ascending hashes, the search for the hash of an
/// entry ends on that entry.
pub proof fn lemma_find_in_sorted_table(bytes: Seq<u8>, index: int, lo: int, hi: int)
    requires
        spec_open(bytes) is Ok,
        spec_table_is_sorted(bytes),
        0 <= lo <= index < hi <= spec_open(bytes)->Ok_0.num_files,
    ensures
        spec_find(
            spec_open(bytes)->Ok_0.endian,
            bytes,
            spec_fat_entry(spec_open(bytes)->Ok_0.endian, bytes, index).name_hash,
            lo,
            hi,
        ) == Some(index),
    decreases hi - lo,
{
    let mid = (lo + hi - 1) / 2;
    if index < mid {
        lemma_find_in_sorted_table(bytes, index, lo, mid);
    } else if index > mid {
        lemma_find_in_sorted_table(bytes, index, mid + 1, hi);
    }
}

/// In a table of ascending hashes, the search for a hash that no entry has
/// ends on nothing.
pub proof fn lemma_find_nothing(bytes: Seq<u8>, hash: u32, lo: int, hi: int)
    requires
        spec_open(bytes) is Ok,
        0 <= lo <= hi <= spec_open(bytes)->Ok_0.num_files,
        forall|i: int|
            lo <= i < hi ==> (#[trigger] spec_fat_entry(
                spec_open(bytes)->Ok_0.endian,
                bytes,
                i,
            )).name_hash != hash,
    ensures
        spec_find(spec_open(bytes)->Ok_0.endian, bytes, hash, lo, hi) is None,
    decreases hi - lo,
{
    if lo < hi {
        let mid = (lo + hi - 1) / 2;
        lemma_find_nothing(bytes, hash, lo, mid);
        lemma_find_nothing(bytes, hash, mid + 1, hi);
    }
}

/// Name lookup: in an image whose table hashes are strictly ascending, a
/// file whose table entry holds the hash of its name is found by that
/// name, with its payload.
pub proof fn lemma_lookup_by_name(bytes: Seq<u8>, index: int, file: FileView)
    requires
        spec_open(bytes) is Ok,
        spec_table_is_sorted(bytes),
        spec_file_at(bytes, index) == Ok::<FileView, Fault>(file),
        file.name is Some,
        spec_fat_entry(spec_open(bytes)->Ok_0.endian, bytes, index).name_hash == spec_hash_name(
            spec_open(bytes)->Ok_0.hash_multiplier,
            file.name->Some_0,
        ),
    ensures
        spec_get_file(bytes, file.name->Some_0) == Ok::<Option<FileView>, Fault>(Some(file)),
{
    let header = spec_open(bytes)->Ok_0;
    lemma_find_in_sorted_table(bytes, index, 0, header.num_files as int);
}

/// The alignment invariant: every payload of an archive starts at an
/// offset of the image that is a multiple of the payload's alignment, which
/// is a power of two.
pub proof fn lemma_payload_is_aligned(files: Seq<Entry>, alignments: Seq<usize>, index: int)
    requires
        alignments.len() == files.len(),
        spec_all_valid(alignments),
        0 <= index < files.len(),
    ensures
        spec_is_power_of_two(alignments[index] as int),
        (spec_data_offset(files, alignments) + spec_data_begin(files, alignments, index)) % (
        alignments[index] as int) == 0,
{
    let count = files.len() as int;
    let a = alignments[index] as int;
    let required = spec_required_alignment(alignments, count);
    lemma_required_alignment(alignments, count, index);
    crate::layout::lemma_file_size_bounds(files, alignments, index);
    crate::layout::lemma_file_size_bounds(files, alignments, count);
    lemma_round_up(spec_names_offset(count) + spec_names_size(files, count), required);
    lemma_round_up(spec_data_end(files, alignments, index), a);
    let offset = spec_data_offset(files, alignments);
    let begin = spec_data_begin(files, alignments, index);
    // the data offset is a multiple of the required alignment, and that of
    // the payload's own
    vstd::arithmetic::div_mod::lemma_fundamental_div_mod(offset, required);
    vstd::arithmetic::div_mod::lemma_fundamental_div_mod(required, a);
    vstd::arithmetic::div_mod::lemma_fundamental_div_mod(begin, a);
    let p = offset / required;
    let q = required / a;
    let r = begin / a;
    assert(offset + begin == a * (q * p + r)) by (nonlinear_arith)
        requires
            offset == required * p,
            required == a * q,
            begin == a * r,
    ;
    vstd::arithmetic::mul::lemma_mul_is_commutative(a, q * p + r);
    vstd::arithmetic::div_mod::lemma_mod_multiples_basic(q * p + r, a);
}

/// The sort order: after sorting, the hashes of the names ascend, and they
/// ascend strictly where no two names of the archive have the same hash.
pub proof fn lemma_sorted_hashes(before: Seq<Entry>, after: Seq<Entry>, multiplier: u32)
    requires
        spec_is_stable_sort(before, after, multiplier),
    ensures
        forall|i: int, j: int|
            0 <= i < j < after.len() ==> spec_hash_name(multiplier, (#[trigger] after[i]).0)
                <= spec_hash_name(multiplier, (#[trigger] after[j]).0),
        (forall|i: int, j: int|
            0 <= i < j < before.len() ==> spec_hash_name(multiplier, (#[trigger] before[i]).0)
                != spec_hash_name(multiplier, (#[trigger] before[j]).0)) ==> (forall|
            i: int,
            j: int,
        |
            0 <= i < j < after.len() ==> spec_hash_name(multiplier, (#[trigger] after[i]).0)
                < spec_hash_name(multiplier, (#[trigger] after[j]).0)),
{
}

/// Sorting keeps every file: each entry of the sorted files is one of the
/// files before, and each file before is one of the sorted.
pub proof fn lemma_sorting_keeps_the_files(before: Seq<Entry>, after: Seq<Entry>, multiplier: u32)
    requires
        spec_is_stable_sort(before, after, multiplier),
    ensures
        after.len() == before.len(),
        forall|i: int| 0 <= i < after.len() ==> before.contains(#[trigger] after[i]),
{
}

/// The alignment of a file depends on nothing but the writer's settings,
/// the file's name and its payload.
pub proof fn lemma_alignment_is_a_function(
    first: SarcWriterView,
    second: SarcWriterView,
    name: Seq<char>,
    data: Seq<u8>,
)
    requires
        first.endian == second.endian,
        first.legacy == second.legacy,
        first.min_alignment == second.min_alignment,
        first.alignment_map == second.alignment_map,
        first.factory_names == second.factory_names,
    ensures
        spec_file_alignment(first, name, data) == spec_file_alignment(second, name, data),
{
}

} // verus!
