//! What the reader finds in an image that the writer made.
use crate::codec::spec_mark_at;
use crate::codec::spec_read_u16;
use crate::codec::spec_read_u32;
use crate::codec::spec_u16_bytes;
use crate::codec::spec_u32_bytes;
use crate::Endian;
use crate::file_map::Entry;
use crate::file_map::spec_distinct_names;
use crate::file_map::spec_is_permutation;
use crate::file_map::spec_is_stable_sort;
use crate::file_map::spec_position;
use crate::file_map::spec_sorted_in_order;
use crate::laws::lemma_lookup_by_name;
use crate::laws::lemma_payload_is_aligned;
use crate::laws::lemma_sorted_hashes;
use crate::layout::lemma_file_size_bounds;
use crate::layout::lemma_name_size;
use crate::layout::lemma_names_size;
use crate::layout::spec_all_valid;
use crate::layout::spec_archive_bytes;
use crate::layout::spec_data_begin;
use crate::layout::spec_data_bytes;
use crate::layout::spec_data_end;
use crate::layout::spec_data_offset;
use crate::layout::spec_fat_entries_bytes;
use crate::layout::spec_fat_entry_bytes;
use crate::layout::spec_fat_header_bytes;
use crate::layout::spec_file_size;
use crate::layout::spec_fits;
use crate::layout::spec_fnt_header_bytes;
use crate::layout::spec_header_bytes;
use crate::layout::spec_name_bytes;
use crate::layout::spec_name_field;
use crate::layout::spec_name_size;
use crate::layout::spec_name_table_bytes;
use crate::layout::spec_names_size;
use crate::layout::spec_zeros;
use crate::parse::FatEntry;
use crate::parse::Fault;
use crate::parse::FileView;
use crate::parse::Header;
use crate::parse::spec_entry_name;
use crate::parse::spec_fat_entry;
use crate::parse::spec_file_at;
use crate::parse::spec_files;
use crate::parse::spec_first_zero;
use crate::parse::spec_get_file;
use crate::parse::spec_names_offset;
use crate::parse::spec_open;
use crate::parse::spec_sarc_magic;
use crate::parse::spec_sfat_magic;
use crate::parse::spec_sfnt_magic;
use crate::spec_hash_name;
use crate::writer::lemma_alignments_valid;
use crate::writer::lemma_first_invalid_from;
use crate::writer::SarcWriteError;
use crate::writer::SarcWriterView;
use crate::writer::spec_alignments;
use crate::writer::spec_default_requirements;
use crate::writer::spec_file_alignment;
use crate::writer::spec_first_invalid;
use crate::writer::spec_image;
use crate::writer::spec_named_entries;
use crate::writer::spec_with_requirements;
use crate::writer::spec_write_outcome;
use crate::writer::spec_written;
use vstd::prelude::*;
use vstd::utf8::encode_utf8;

verus! {

/// The fields of an archive header stand where the format puts them.
pub proof fn lemma_header_fields(endian: Endian, file_size: u32, data_offset: u32)
    ensures
        spec_header_bytes(endian, file_size, data_offset).len() == 0x14,
        spec_header_bytes(endian, file_size, data_offset).subrange(0, 4) == spec_sarc_magic(),
        spec_read_u16(endian, spec_header_bytes(endian, file_size, data_offset), 0x04) == 0x14,
        spec_mark_at(spec_header_bytes(endian, file_size, data_offset), 0x06) == Some(endian),
        spec_read_u32(endian, spec_header_bytes(endian, file_size, data_offset), 0x08)
            == file_size,
        spec_read_u32(endian, spec_header_bytes(endian, file_size, data_offset), 0x0C)
            == data_offset,
        spec_read_u16(endian, spec_header_bytes(endian, file_size, data_offset), 0x10) == 0x0100,
{
    reveal(spec_header_bytes);
    let bytes = spec_header_bytes(endian, file_size, data_offset);
    assert(bytes.subrange(4, 6) =~= spec_u16_bytes(endian, 0x14));
    assert(bytes.subrange(8, 12) =~= spec_u32_bytes(endian, file_size));
    assert(bytes.subrange(12, 16) =~= spec_u32_bytes(endian, data_offset));
    assert(bytes.subrange(16, 18) =~= spec_u16_bytes(endian, 0x0100));
    lemma_read_u16_at(endian, bytes, 4, 0x14);
    lemma_read_u16_at(endian, bytes, 0x10, 0x0100);
    lemma_read_u32_at(endian, bytes, 8, file_size);
    lemma_read_u32_at(endian, bytes, 0x0C, data_offset);
}

/// A 16-bit field whose bytes stand at `pos` is read there.
pub proof fn lemma_read_u16_at(endian: Endian, bytes: Seq<u8>, pos: int, value: u16)
    requires
        0 <= pos,
        pos + 2 <= bytes.len(),
        bytes.subrange(pos, pos + 2) == spec_u16_bytes(endian, value),
    ensures
        spec_read_u16(endian, bytes, pos) == value,
{
}

/// A 32-bit field whose bytes stand at `pos` is read there.
pub proof fn lemma_read_u32_at(endian: Endian, bytes: Seq<u8>, pos: int, value: u32)
    requires
        0 <= pos,
        pos + 4 <= bytes.len(),
        bytes.subrange(pos, pos + 4) == spec_u32_bytes(endian, value),
    ensures
        spec_read_u32(endian, bytes, pos) == value,
{
}

/// The fields of a table header stand where the format puts them.
pub proof fn lemma_fat_header_fields(endian: Endian, num_files: u16, multiplier: u32)
    ensures
        spec_fat_header_bytes(endian, num_files, multiplier).len() == 0x0C,
        spec_fat_header_bytes(endian, num_files, multiplier).subrange(0, 4) == spec_sfat_magic(),
        spec_read_u16(endian, spec_fat_header_bytes(endian, num_files, multiplier), 0x04) == 0x0C,
        spec_read_u16(endian, spec_fat_header_bytes(endian, num_files, multiplier), 0x06)
            == num_files,
        spec_read_u32(endian, spec_fat_header_bytes(endian, num_files, multiplier), 0x08)
            == multiplier,
{
    reveal(spec_fat_header_bytes);
    let bytes = spec_fat_header_bytes(endian, num_files, multiplier);
    assert(bytes.subrange(4, 6) =~= spec_u16_bytes(endian, 0x0C));
    assert(bytes.subrange(6, 8) =~= spec_u16_bytes(endian, num_files));
    assert(bytes.subrange(8, 12) =~= spec_u32_bytes(endian, multiplier));
    lemma_read_u16_at(endian, bytes, 4, 0x0C);
    lemma_read_u16_at(endian, bytes, 6, num_files);
    lemma_read_u32_at(endian, bytes, 8, multiplier);
}

/// The fields of a name table header stand where the format puts them.
pub proof fn lemma_fnt_header_fields(endian: Endian)
    ensures
        spec_fnt_header_bytes(endian).len() == 0x08,
        spec_fnt_header_bytes(endian).subrange(0, 4) == spec_sfnt_magic(),
        spec_read_u16(endian, spec_fnt_header_bytes(endian), 0x04) == 0x08,
{
    reveal(spec_fnt_header_bytes);
    let bytes = spec_fnt_header_bytes(endian);
    assert(bytes.len() == 0x08);
    assert(bytes.subrange(4, 6) =~= spec_u16_bytes(endian, 0x08));
    lemma_read_u16_at(endian, bytes, 4, 0x08);
}

/// The four fields of a table entry stand in their order.
pub proof fn lemma_fat_entry_fields(
    endian: Endian,
    multiplier: u32,
    files: Seq<Entry>,
    alignments: Seq<usize>,
    index: int,
)
    ensures
        spec_fat_entry_bytes(endian, multiplier, files, alignments, index).len() == 0x10,
        spec_read_u32(endian, spec_fat_entry_bytes(endian, multiplier, files, alignments, index), 0)
            == spec_hash_name(multiplier, files[index].0),
        spec_read_u32(endian, spec_fat_entry_bytes(endian, multiplier, files, alignments, index), 4)
            == spec_name_field(spec_names_size(files, index)),
        spec_read_u32(endian, spec_fat_entry_bytes(endian, multiplier, files, alignments, index), 8)
            == spec_data_begin(files, alignments, index) as u32,
        spec_read_u32(
            endian,
            spec_fat_entry_bytes(endian, multiplier, files, alignments, index),
            12,
        ) == spec_data_end(files, alignments, index + 1) as u32,
{
    reveal(spec_fat_entry_bytes);
    let bytes = spec_fat_entry_bytes(endian, multiplier, files, alignments, index);
    let hash = spec_hash_name(multiplier, files[index].0);
    let field = spec_name_field(spec_names_size(files, index));
    let begin = spec_data_begin(files, alignments, index) as u32;
    let end = spec_data_end(files, alignments, index + 1) as u32;
    assert(bytes.subrange(0, 4) =~= spec_u32_bytes(endian, hash));
    assert(bytes.subrange(4, 8) =~= spec_u32_bytes(endian, field));
    assert(bytes.subrange(8, 12) =~= spec_u32_bytes(endian, begin));
    assert(bytes.subrange(12, 16) =~= spec_u32_bytes(endian, end));
    lemma_read_u32_at(endian, bytes, 0, hash);
    lemma_read_u32_at(endian, bytes, 4, field);
    lemma_read_u32_at(endian, bytes, 8, begin);
    lemma_read_u32_at(endian, bytes, 12, end);
}

/// The table of `count` entries is 0x10 bytes for each, and every entry
/// stands at its place.
pub proof fn lemma_fat_entries(
    endian: Endian,
    multiplier: u32,
    files: Seq<Entry>,
    alignments: Seq<usize>,
    count: int,
    index: int,
)
    requires
        0 <= index < count,
    ensures
        spec_fat_entries_bytes(endian, multiplier, files, alignments, count).len() == 0x10 * count,
        spec_fat_entries_bytes(endian, multiplier, files, alignments, count).subrange(
            0x10 * index,
            0x10 * index + 0x10,
        ) == spec_fat_entry_bytes(endian, multiplier, files, alignments, index),
    decreases count,
{
    lemma_fat_entries_len(endian, multiplier, files, alignments, count);
    lemma_fat_entries_len(endian, multiplier, files, alignments, count - 1);
    lemma_fat_entry_fields(endian, multiplier, files, alignments, count - 1);
    if index < count - 1 {
        lemma_fat_entries(endian, multiplier, files, alignments, count - 1, index);
    }
}

/// The table of `count` entries is 0x10 bytes for each.
pub proof fn lemma_fat_entries_len(
    endian: Endian,
    multiplier: u32,
    files: Seq<Entry>,
    alignments: Seq<usize>,
    count: int,
)
    requires
        0 <= count,
    ensures
        spec_fat_entries_bytes(endian, multiplier, files, alignments, count).len() == 0x10 * count,
    decreases count,
{
    if count > 0 {
        lemma_fat_entries_len(endian, multiplier, files, alignments, count - 1);
        lemma_fat_entry_fields(endian, multiplier, files, alignments, count - 1);
    }
}

/// A name in the name table takes the room of its size.
pub proof fn lemma_name_bytes_len(name: Seq<char>)
    ensures
        spec_name_bytes(name).len() == spec_name_size(name),
{
    lemma_name_size(name);
}

/// The name table of `count` names has the size of its names.
pub proof fn lemma_name_table_len(files: Seq<Entry>, count: int)
    requires
        0 <= count,
    ensures
        spec_name_table_bytes(files, count).len() == spec_names_size(files, count),
    decreases count,
{
    if count > 0 {
        lemma_name_table_len(files, count - 1);
        lemma_name_bytes_len(files[count - 1].0);
    }
}

/// Every name stands in the name table where the names before it end.
pub proof fn lemma_name_table(files: Seq<Entry>, count: int, index: int)
    requires
        0 <= index < count,
    ensures
        spec_name_table_bytes(files, count).len() == spec_names_size(files, count),
        0 <= spec_names_size(files, index),
        spec_names_size(files, index) + spec_name_size(files[index].0) <= spec_names_size(
            files,
            count,
        ),
        spec_name_table_bytes(files, count).subrange(
            spec_names_size(files, index),
            spec_names_size(files, index) + spec_name_size(files[index].0),
        ) == spec_name_bytes(files[index].0),
    decreases count,
{
    lemma_name_table_len(files, count);
    lemma_name_table_len(files, count - 1);
    lemma_name_bytes_len(files[count - 1].0);
    lemma_names_size(files, index, count - 1);
    lemma_names_size(files, index + 1, count);
    if index < count - 1 {
        lemma_name_table(files, count - 1, index);
    }
}

/// The data region of `count` payloads ends where the layout says.
pub proof fn lemma_data_bytes_len(files: Seq<Entry>, alignments: Seq<usize>, count: int)
    requires
        0 <= count <= files.len() == alignments.len(),
        spec_all_valid(alignments),
    ensures
        spec_data_bytes(files, alignments, count).len() == spec_data_end(files, alignments, count),
    decreases count,
{
    if count > 0 {
        lemma_data_bytes_len(files, alignments, count - 1);
        lemma_file_size_bounds(files, alignments, count - 1);
    }
}

/// Every payload stands in the data region where the layout says.
pub proof fn lemma_data_bytes(files: Seq<Entry>, alignments: Seq<usize>, count: int, index: int)
    requires
        0 <= index < count <= files.len() == alignments.len(),
        spec_all_valid(alignments),
    ensures
        spec_data_bytes(files, alignments, count).len() == spec_data_end(files, alignments, count),
        0 <= spec_data_begin(files, alignments, index) <= spec_data_end(
            files,
            alignments,
            index + 1,
        ) <= spec_data_end(files, alignments, count),
        spec_data_bytes(files, alignments, count).subrange(
            spec_data_begin(files, alignments, index),
            spec_data_end(files, alignments, index + 1),
        ) == files[index].1,
    decreases count,
{
    lemma_data_bytes_len(files, alignments, count);
    lemma_data_bytes_len(files, alignments, count - 1);
    lemma_file_size_bounds(files, alignments, index);
    lemma_file_size_bounds(files, alignments, count - 1);
    crate::layout::lemma_data_end(files, alignments, index + 1, count);
    if index < count - 1 {
        lemma_data_bytes(files, alignments, count - 1, index);
        crate::layout::lemma_data_end(files, alignments, index + 1, count - 1);
    }
}

/// Where the parts of an image stand in it.
pub proof fn lemma_image_parts(
    endian: Endian,
    multiplier: u32,
    files: Seq<Entry>,
    alignments: Seq<usize>,
)
    requires
        alignments.len() == files.len(),
        spec_all_valid(alignments),
        spec_fits(files, alignments),
    ensures
        ({
            let image = spec_archive_bytes(endian, multiplier, files, alignments);
            let count = files.len() as int;
            let names_offset = spec_names_offset(count);
            let names_end = names_offset + spec_names_size(files, count);
            let data_offset = spec_data_offset(files, alignments);
            let file_size = spec_file_size(files, alignments);
            &&& image.len() == file_size
            &&& names_end <= data_offset <= file_size <= u32::MAX
            &&& 0 <= spec_names_size(files, count)
            &&& image.subrange(0, 0x14) == spec_header_bytes(
                endian,
                file_size as u32,
                data_offset as u32,
            )
            &&& image.subrange(0x14, 0x20) == spec_fat_header_bytes(
                endian,
                count as u16,
                multiplier,
            )
            &&& image.subrange(0x20, 0x20 + 0x10 * count) == spec_fat_entries_bytes(
                endian,
                multiplier,
                files,
                alignments,
                count,
            )
            &&& image.subrange(names_offset - 8, names_offset) == spec_fnt_header_bytes(endian)
            &&& image.subrange(names_offset, names_end) == spec_name_table_bytes(files, count)
            &&& image.subrange(data_offset, file_size) == spec_data_bytes(files, alignments, count)
        }),
{
    reveal(spec_archive_bytes);
    let image = spec_archive_bytes(endian, multiplier, files, alignments);
    let count = files.len() as int;
    let names_offset = spec_names_offset(count);
    let names_end = names_offset + spec_names_size(files, count);
    let data_offset = spec_data_offset(files, alignments);
    let file_size = spec_file_size(files, alignments);
    lemma_file_size_bounds(files, alignments, count);
    lemma_header_fields(endian, file_size as u32, data_offset as u32);
    lemma_fat_header_fields(endian, count as u16, multiplier);
    lemma_fat_entries_len(endian, multiplier, files, alignments, count);
    lemma_fnt_header_fields(endian);
    lemma_name_table_len(files, count);
    lemma_data_bytes_len(files, alignments, count);
    let names = spec_name_table_bytes(files, count);
    assert(image.subrange(names_offset, names_end) =~= names);
}

/// A 16-bit field of a part of an image is read in the image where the
/// part stands.
pub proof fn lemma_read_u16_in_part(endian: Endian, image: Seq<u8>, from: int, to: int, at: int)
    requires
        0 <= from,
        to <= image.len(),
        0 <= at,
        from + at + 2 <= to,
    ensures
        spec_read_u16(endian, image, from + at) == spec_read_u16(
            endian,
            image.subrange(from, to),
            at,
        ),
{
    let part = image.subrange(from, to);
    assert(part[at] == image[from + at]);
}

/// A 32-bit field of a part of an image is read in the image where the
/// part stands.
pub proof fn lemma_read_u32_in_part(endian: Endian, image: Seq<u8>, from: int, to: int, at: int)
    requires
        0 <= from,
        to <= image.len(),
        0 <= at,
        from + at + 4 <= to,
    ensures
        spec_read_u32(endian, image, from + at) == spec_read_u32(
            endian,
            image.subrange(from, to),
            at,
        ),
{
}

/// The reader opens every image that the writer makes, and finds in its
/// headers what the writer put there.
pub proof fn lemma_image_opens(
    endian: Endian,
    multiplier: u32,
    files: Seq<Entry>,
    alignments: Seq<usize>,
)
    requires
        alignments.len() == files.len(),
        spec_all_valid(alignments),
        spec_fits(files, alignments),
    ensures
        spec_archive_bytes(endian, multiplier, files, alignments).len() == spec_file_size(
            files,
            alignments,
        ),
        spec_open(spec_archive_bytes(endian, multiplier, files, alignments)) == Ok::<
            Header,
            Fault,
        >(
            Header {
                endian,
                num_files: files.len() as u16,
                hash_multiplier: multiplier,
                data_offset: spec_data_offset(files, alignments) as u32,
            },
        ),
{
    let image = spec_archive_bytes(endian, multiplier, files, alignments);
    let count = files.len() as int;
    let names_offset = spec_names_offset(count);
    let data_offset = spec_data_offset(files, alignments);
    let file_size = spec_file_size(files, alignments);
    lemma_image_parts(endian, multiplier, files, alignments);
    lemma_header_fields(endian, file_size as u32, data_offset as u32);
    lemma_fat_header_fields(endian, count as u16, multiplier);
    lemma_fnt_header_fields(endian);
    let header = image.subrange(0, 0x14);
    assert(header.subrange(0, 4) =~= image.subrange(0, 4));
    lemma_read_u16_in_part(endian, image, 0, 0x14, 0x04);
    lemma_read_u16_in_part(endian, image, 0, 0x14, 0x10);
    lemma_read_u32_in_part(endian, image, 0, 0x14, 0x0C);
    let fat_header = image.subrange(0x14, 0x20);
    assert(fat_header.subrange(0, 4) =~= image.subrange(0x14, 0x18));
    lemma_read_u16_in_part(endian, image, 0x14, 0x20, 0x04);
    lemma_read_u16_in_part(endian, image, 0x14, 0x20, 0x06);
    lemma_read_u32_in_part(endian, image, 0x14, 0x20, 0x08);
    let fnt = names_offset - 8;
    let fnt_header = image.subrange(fnt, names_offset);
    assert(fnt_header.subrange(0, 4) =~= image.subrange(fnt, fnt + 4));
    lemma_read_u16_in_part(endian, image, fnt, names_offset, 0x04);
}

/// The reader finds in the table of an image the entries that the writer
/// put there.
pub proof fn lemma_image_entry(
    endian: Endian,
    multiplier: u32,
    files: Seq<Entry>,
    alignments: Seq<usize>,
    index: int,
)
    requires
        alignments.len() == files.len(),
        spec_all_valid(alignments),
        spec_fits(files, alignments),
        0 <= index < files.len(),
    ensures
        spec_fat_entry(endian, spec_archive_bytes(endian, multiplier, files, alignments), index)
            == (FatEntry {
            name_hash: spec_hash_name(multiplier, files[index].0),
            rel_name_opt_offset: spec_name_field(spec_names_size(files, index)),
            data_begin: spec_data_begin(files, alignments, index) as u32,
            data_end: spec_data_end(files, alignments, index + 1) as u32,
        }),
{
    let image = spec_archive_bytes(endian, multiplier, files, alignments);
    let count = files.len() as int;
    lemma_image_parts(endian, multiplier, files, alignments);
    lemma_fat_entries(endian, multiplier, files, alignments, count, index);
    lemma_fat_entry_fields(endian, multiplier, files, alignments, index);
    let table = image.subrange(0x20, 0x20 + 0x10 * count);
    let at = 0x20 + 0x10 * index;
    assert(image.subrange(at, at + 0x10) =~= table.subrange(0x10 * index, 0x10 * index + 0x10));
    lemma_read_u32_in_part(endian, image, at, at + 0x10, 0);
    lemma_read_u32_in_part(endian, image, at, at + 0x10, 4);
    lemma_read_u32_in_part(endian, image, at, at + 0x10, 8);
    lemma_read_u32_in_part(endian, image, at, at + 0x10, 12);
}

/// No name of the files holds a zero byte.
pub open spec fn spec_names_without_zero(files: Seq<Entry>) -> bool {
    forall|i: int, k: int|
        0 <= i < files.len() && 0 <= k < encode_utf8(files[i].0).len() ==> #[trigger] encode_utf8(
            files[i].0,
        )[k] != 0
}

/// A file of a writer as the reader gives it.
pub open spec fn spec_file_view(entry: Entry) -> FileView {
    FileView { name: Some(entry.0), data: entry.1 }
}

/// The first zero byte behind a run of bytes that are not zero.
pub proof fn lemma_first_zero(bytes: Seq<u8>, from: int, zero: int)
    requires
        0 <= from <= zero < bytes.len(),
        bytes[zero] == 0,
        forall|k: int| from <= k < zero ==> bytes[k] != 0,
    ensures
        spec_first_zero(bytes, from) == zero,
    decreases zero - from,
{
    if from < zero {
        lemma_first_zero(bytes, from + 1, zero);
    }
}

/// The name field of a table entry gives back the offset of the name.
pub proof fn lemma_name_field(offset: int)
    requires
        0 <= offset < 0x400_0000,
        offset % 4 == 0,
    ensures
        spec_name_field(offset) != 0,
        (spec_name_field(offset) & 0x00FF_FFFF) * 4 == offset,
{
    let steps: u32 = (offset / 4) as u32;
    assert((0x0100_0000u32 | steps) != 0 && (0x0100_0000u32 | steps) & 0x00FF_FFFF == steps)
        by (bit_vector)
        requires
            steps < 0x100_0000,
    ;
}

/// The reader finds the name of every file of an image where the writer
/// put it.
pub proof fn lemma_image_name(
    endian: Endian,
    multiplier: u32,
    files: Seq<Entry>,
    alignments: Seq<usize>,
    index: int,
)
    requires
        alignments.len() == files.len(),
        spec_all_valid(alignments),
        spec_fits(files, alignments),
        spec_names_without_zero(files),
        0 <= index < files.len(),
    ensures
        spec_entry_name(
            spec_archive_bytes(endian, multiplier, files, alignments),
            files.len() as int,
            spec_fat_entry(endian, spec_archive_bytes(endian, multiplier, files, alignments), index),
        ) == Ok::<Option<Seq<char>>, Fault>(Some(files[index].0)),
{
    broadcast use {vstd::utf8::encode_utf8_valid_utf8, vstd::utf8::encode_utf8_decode_utf8};

    let image = spec_archive_bytes(endian, multiplier, files, alignments);
    let count = files.len() as int;
    let names_offset = spec_names_offset(count);
    let names_end = names_offset + spec_names_size(files, count);
    lemma_image_parts(endian, multiplier, files, alignments);
    lemma_image_entry(endian, multiplier, files, alignments, index);
    let name = files[index].0;
    let encoded = encode_utf8(name);
    let offset = spec_names_size(files, index);
    lemma_names_size(files, index, count - 1);
    lemma_name_field(offset);
    lemma_name_table(files, count, index);
    lemma_name_size(name);
    let start = names_offset + offset;
    let end = start + encoded.len();
    let table = image.subrange(names_offset, names_end);
    let slot = table.subrange(offset, offset + spec_name_size(name));
    assert(slot == spec_name_bytes(name));
    assert forall|k: int| start <= k < end implies image[k] != 0 by {
        assert(image[k] == table[k - names_offset]);
        assert(table[k - names_offset] == slot[k - start]);
        assert(slot[k - start] == encoded[k - start]);
    }
    assert(image[end] == 0) by {
        assert(image[end] == table[end - names_offset]);
        assert(table[end - names_offset] == slot[encoded.len() as int]);
    }
    lemma_first_zero(image, start, end);
    assert(image.subrange(start, end) =~= encoded) by {
        assert forall|k: int| 0 <= k < encoded.len() implies image.subrange(start, end)[k]
            == encoded[k] by {
            assert(image[start + k] == table[offset + k]);
            assert(table[offset + k] == slot[k]);
        }
    }
}

/// The reader finds the payload of every file of an image where the table
/// says.
pub proof fn lemma_image_payload(
    endian: Endian,
    multiplier: u32,
    files: Seq<Entry>,
    alignments: Seq<usize>,
    index: int,
)
    requires
        alignments.len() == files.len(),
        spec_all_valid(alignments),
        spec_fits(files, alignments),
        0 <= index < files.len(),
    ensures
        0 <= spec_data_begin(files, alignments, index) <= spec_data_end(
            files,
            alignments,
            index + 1,
        ),
        spec_data_offset(files, alignments) + spec_data_end(files, alignments, index + 1)
            <= spec_file_size(files, alignments) <= u32::MAX,
        spec_archive_bytes(endian, multiplier, files, alignments).subrange(
            spec_data_offset(files, alignments) + spec_data_begin(files, alignments, index),
            spec_data_offset(files, alignments) + spec_data_end(files, alignments, index + 1),
        ) == files[index].1,
{
    let image = spec_archive_bytes(endian, multiplier, files, alignments);
    let count = files.len() as int;
    let data_offset = spec_data_offset(files, alignments);
    let file_size = spec_file_size(files, alignments);
    lemma_image_parts(endian, multiplier, files, alignments);
    lemma_data_bytes(files, alignments, count, index);
    let begin = spec_data_begin(files, alignments, index);
    let stop = spec_data_end(files, alignments, index + 1);
    let region = image.subrange(data_offset, file_size);
    assert(image.subrange(data_offset + begin, data_offset + stop) =~= region.subrange(
        begin,
        stop,
    ));
}

/// The reader finds every file that the writer put into an image, with its
/// name and its payload, at the file's place in the writer's order.
pub proof fn lemma_image_file(
    endian: Endian,
    multiplier: u32,
    files: Seq<Entry>,
    alignments: Seq<usize>,
    index: int,
)
    requires
        alignments.len() == files.len(),
        spec_all_valid(alignments),
        spec_fits(files, alignments),
        spec_names_without_zero(files),
        0 <= index < files.len(),
    ensures
        spec_file_at(spec_archive_bytes(endian, multiplier, files, alignments), index) == Ok::<
            FileView,
            Fault,
        >(spec_file_view(files[index])),
{
    lemma_image_parts(endian, multiplier, files, alignments);
    lemma_image_opens(endian, multiplier, files, alignments);
    lemma_image_entry(endian, multiplier, files, alignments, index);
    lemma_image_name(endian, multiplier, files, alignments, index);
    lemma_image_payload(endian, multiplier, files, alignments, index);
    let image = spec_archive_bytes(endian, multiplier, files, alignments);
    let header = spec_open(image)->Ok_0;
    let entry = spec_fat_entry(endian, image, index);
    assert(header.data_offset == spec_data_offset(files, alignments));
    assert(entry.data_begin == spec_data_begin(files, alignments, index));
    assert(entry.data_end == spec_data_end(files, alignments, index + 1));
}

/// Reading back: the reader opens the image of a writer whose names hold no
/// zero byte, finds the writer's byte order, hash multiplier and number of
/// files in it, and at every index the writer's file of that index.
pub proof fn lemma_written_image_reads_back(writer: SarcWriterView, index: int)
    requires
        writer.well_formed(),
        spec_image(writer) is Ok,
        spec_names_without_zero(writer.files),
        0 <= index < writer.files.len(),
    ensures
        spec_open(spec_image(writer)->Ok_0) is Ok,
        spec_open(spec_image(writer)->Ok_0)->Ok_0.endian == writer.endian,
        spec_open(spec_image(writer)->Ok_0)->Ok_0.hash_multiplier == writer.hash_multiplier,
        spec_open(spec_image(writer)->Ok_0)->Ok_0.num_files == writer.files.len(),
        spec_file_at(spec_image(writer)->Ok_0, index) == Ok::<FileView, Fault>(
            spec_file_view(writer.files[index]),
        ),
        spec_fat_entry(writer.endian, spec_image(writer)->Ok_0, index).name_hash
            == spec_hash_name(writer.hash_multiplier, writer.files[index].0),
{
    let count = writer.files.len() as int;
    lemma_alignments_valid(writer, count);
    let alignments = spec_alignments(writer, count)->Ok_0;
    lemma_image_opens(writer.endian, writer.hash_multiplier, writer.files, alignments);
    lemma_image_entry(writer.endian, writer.hash_multiplier, writer.files, alignments, index);
    lemma_image_file(writer.endian, writer.hash_multiplier, writer.files, alignments, index);
}

/// Name lookup in a written image: where the hashes of the writer's names
/// ascend strictly, every file is found by its name, with its payload.
pub proof fn lemma_written_image_finds_by_name(writer: SarcWriterView, index: int)
    requires
        writer.well_formed(),
        spec_image(writer) is Ok,
        spec_names_without_zero(writer.files),
        0 <= index < writer.files.len(),
        forall|i: int, j: int|
            0 <= i < j < writer.files.len() ==> spec_hash_name(
                writer.hash_multiplier,
                (#[trigger] writer.files[i]).0,
            ) < spec_hash_name(writer.hash_multiplier, (#[trigger] writer.files[j]).0),
    ensures
        spec_get_file(spec_image(writer)->Ok_0, writer.files[index].0) == Ok::<
            Option<FileView>,
            Fault,
        >(Some(spec_file_view(writer.files[index]))),
{
    let image = spec_image(writer)->Ok_0;
    lemma_written_image_reads_back(writer, index);
    let header = spec_open(image)->Ok_0;
    assert forall|i: int, j: int| 0 <= i < j < header.num_files implies (#[trigger] spec_fat_entry(
        header.endian,
        image,
        i,
    )).name_hash < (#[trigger] spec_fat_entry(header.endian, image, j)).name_hash by {
        lemma_written_image_reads_back(writer, i);
        lemma_written_image_reads_back(writer, j);
    }
    lemma_lookup_by_name(image, index, spec_file_view(writer.files[index]));
}

/// The files that the reader lists in a written image are the writer's
/// files, in the writer's order.
pub proof fn lemma_written_image_files(writer: SarcWriterView, count: int)
    requires
        writer.well_formed(),
        spec_image(writer) is Ok,
        spec_names_without_zero(writer.files),
        0 <= count <= writer.files.len(),
    ensures
        spec_files(spec_image(writer)->Ok_0, count) == writer.files.take(count).map_values(
            |entry: Entry| spec_file_view(entry),
        ),
    decreases count,
{
    if count > 0 {
        lemma_written_image_files(writer, count - 1);
        lemma_written_image_reads_back(writer, count - 1);
    }
}

/// A name that no entry has is at no position.
pub proof fn lemma_position_of_new_name(entries: Seq<Entry>, name: Seq<char>)
    requires
        forall|i: int| 0 <= i < entries.len() ==> (#[trigger] entries[i]).0 != name,
    ensures
        spec_position(entries, name) == entries.len(),
    decreases entries.len(),
{
    if entries.len() > 0 {
        let rest = entries.drop_first();
        lemma_position_of_new_name(rest, name);
    }
}

/// Files with names of their own, inserted in their order, stand in that
/// order.
pub proof fn lemma_named_entries(entries: Seq<Entry>, count: int)
    requires
        spec_distinct_names(entries),
        0 <= count <= entries.len(),
    ensures
        spec_named_entries(
            entries.map_values(|entry: Entry| spec_file_view(entry)),
            count,
        ) == entries.take(count),
    decreases count,
{
    if count > 0 {
        lemma_named_entries(entries, count - 1);
        let before = entries.take(count - 1);
        let last = entries[count - 1];
        lemma_position_of_new_name(before, last.0);
    }
}

/// An order that lists every index below `len` once, and ascends up to
/// `upto`, starts with the indices in their own order.
proof fn lemma_ascending_order(order: Seq<int>, len: nat, upto: int)
    requires
        spec_is_permutation(order, len),
        forall|i: int, j: int| 0 <= i < j < len ==> #[trigger] order[i] < #[trigger] order[j],
        0 <= upto <= len,
    ensures
        forall|i: int| len - upto <= i < len ==> #[trigger] order[i] == i,
    decreases upto,
{
    if upto > 0 {
        lemma_ascending_order(order, len, upto - 1);
        let at = len - upto;
        // the indices behind `at` are taken by themselves, and those before
        // it hold smaller values, of which there are just enough
        lemma_ascending_lower_bound(order, len, at);
        if at + 1 < len {
            assert(order[at] < order[at + 1]);
        }
    }
}

/// In an ascending order, no index holds less than itself.
proof fn lemma_ascending_lower_bound(order: Seq<int>, len: nat, at: int)
    requires
        spec_is_permutation(order, len),
        forall|i: int, j: int| 0 <= i < j < len ==> #[trigger] order[i] < #[trigger] order[j],
        0 <= at < len,
    ensures
        order[at] >= at,
    decreases at,
{
    if at > 0 {
        lemma_ascending_lower_bound(order, len, at - 1);
    }
}

/// Two orders that sort the same files agree from `upto` on once they
/// agree before it.
proof fn lemma_sorting_orders_agree(
    before: Seq<Entry>,
    first: Seq<Entry>,
    second: Seq<Entry>,
    multiplier: u32,
    first_order: Seq<int>,
    second_order: Seq<int>,
    upto: int,
)
    requires
        spec_sorted_in_order(before, first, multiplier, first_order),
        spec_sorted_in_order(before, second, multiplier, second_order),
        0 <= upto <= before.len(),
        forall|i: int| 0 <= i < upto ==> first_order[i] == second_order[i],
    ensures
        forall|i: int| 0 <= i < before.len() ==> first_order[i] == second_order[i],
    decreases before.len() - upto,
{
    if upto < before.len() {
        let x = first_order[upto];
        let y = second_order[upto];
        if x != y {
            // each of the two stands further behind in the other order,
            // which puts them both ways round
            assert(second_order.contains(x));
            let j = choose|j: int| 0 <= j < second_order.len() && second_order[j] == x;
            assert(first_order.contains(y));
            let k = choose|k: int| 0 <= k < first_order.len() && first_order[k] == y;
            assert(first[upto] == before[x] && first[k] == before[y]);
            assert(second[upto] == before[y] && second[j] == before[x]);
        }
        lemma_sorting_orders_agree(
            before,
            first,
            second,
            multiplier,
            first_order,
            second_order,
            upto + 1,
        );
    }
}

/// Sorting has one outcome: files that are sorted stably by the hash of
/// their names come out in one order only.
pub proof fn lemma_sorting_is_unique(
    before: Seq<Entry>,
    first: Seq<Entry>,
    second: Seq<Entry>,
    multiplier: u32,
)
    requires
        spec_is_stable_sort(before, first, multiplier),
        spec_is_stable_sort(before, second, multiplier),
    ensures
        first == second,
{
    let first_order = choose|order: Seq<int>|
        spec_sorted_in_order(before, first, multiplier, order);
    let second_order = choose|order: Seq<int>|
        spec_sorted_in_order(before, second, multiplier, order);
    lemma_sorting_orders_agree(before, first, second, multiplier, first_order, second_order, 0);
}

/// The hashes of the names ascend.
pub open spec fn spec_sorted_by_hash(files: Seq<Entry>, multiplier: u32) -> bool {
    forall|i: int, j: int|
        0 <= i < j < files.len() ==> spec_hash_name(multiplier, (#[trigger] files[i]).0)
            <= spec_hash_name(multiplier, (#[trigger] files[j]).0)
}

/// Sorting leaves sorted files as they are.
pub proof fn lemma_sorting_sorted_files(before: Seq<Entry>, after: Seq<Entry>, multiplier: u32)
    requires
        spec_sorted_by_hash(before, multiplier),
        spec_is_stable_sort(before, after, multiplier),
    ensures
        after == before,
{
    let order = choose|order: Seq<int>| spec_sorted_in_order(before, after, multiplier, order);
    let len = before.len();
    assert forall|i: int, j: int| 0 <= i < j < len implies #[trigger] order[i] < #[trigger] order[j] by {
        let a = order[i];
        let b = order[j];
        assert(after[i] == before[a]);
        assert(after[j] == before[b]);
    }
    lemma_ascending_order(order, len, len as int);
}

/// The image of a writer depends on its byte order, its hash multiplier,
/// its files and their alignments, and on nothing else.
pub proof fn lemma_image_of_same_alignments(first: SarcWriterView, second: SarcWriterView)
    requires
        first.endian == second.endian,
        first.hash_multiplier == second.hash_multiplier,
        first.files == second.files,
        forall|i: int|
            0 <= i < first.files.len() ==> spec_file_alignment(
                first,
                (#[trigger] first.files[i]).0,
                first.files[i].1,
            ) == spec_file_alignment(second, first.files[i].0, first.files[i].1),
    ensures
        spec_image(first) == spec_image(second),
{
    lemma_same_alignments(first, second, first.files.len() as int);
}

/// Writers that give every file the same alignment give the same list of
/// alignments.
proof fn lemma_same_alignments(first: SarcWriterView, second: SarcWriterView, count: int)
    requires
        first.files == second.files,
        0 <= count <= first.files.len(),
        forall|i: int|
            0 <= i < first.files.len() ==> spec_file_alignment(
                first,
                (#[trigger] first.files[i]).0,
                first.files[i].1,
            ) == spec_file_alignment(second, first.files[i].0, first.files[i].1),
    ensures
        spec_alignments(first, count) == spec_alignments(second, count),
    decreases count,
{
    if count > 0 {
        lemma_same_alignments(first, second, count - 1);
    }
}

/// The round trip: let a writer have written an image, its files in the
/// order of their hashes, with names that differ from each other and hold
/// no zero byte. A second writer that holds the files that the reader
/// lists in that image, and that has the first writer's byte order and hash
/// multiplier and gives every file the alignment that the first gave it,
/// writes the same image.
pub proof fn lemma_round_trip(first: SarcWriterView, second: SarcWriterView, restart: Seq<Entry>)
    requires
        first.well_formed(),
        spec_image(first) is Ok,
        spec_names_without_zero(first.files),
        spec_distinct_names(first.files),
        spec_sorted_by_hash(first.files, first.hash_multiplier),
        restart == spec_named_entries(
            spec_files(spec_image(first)->Ok_0, first.files.len() as int),
            spec_files(spec_image(first)->Ok_0, first.files.len() as int).len() as int,
        ),
        spec_is_stable_sort(restart, second.files, first.hash_multiplier),
        second.endian == first.endian,
        second.hash_multiplier == first.hash_multiplier,
        forall|i: int|
            0 <= i < first.files.len() ==> spec_file_alignment(
                first,
                (#[trigger] first.files[i]).0,
                first.files[i].1,
            ) == spec_file_alignment(second, first.files[i].0, first.files[i].1),
    ensures
        restart == first.files,
        second.files == first.files,
        spec_image(second) == spec_image(first),
{
    let count = first.files.len() as int;
    lemma_written_image_files(first, count);
    assert(first.files.take(count) == first.files);
    lemma_named_entries(first.files, count);
    lemma_sorting_sorted_files(restart, second.files, first.hash_multiplier);
    lemma_image_of_same_alignments(first, second);
}

/// The alignment invariant in a written image: the data offset of the
/// header and the start that the table gives for a payload add up to a
/// multiple of the payload's alignment, which is a power of two.
pub proof fn lemma_written_payload_is_aligned(writer: SarcWriterView, index: int)
    requires
        writer.well_formed(),
        spec_image(writer) is Ok,
        0 <= index < writer.files.len(),
    ensures
        spec_file_alignment(writer, writer.files[index].0, writer.files[index].1) is Ok,
        crate::alignment::spec_is_power_of_two(
            spec_file_alignment(writer, writer.files[index].0, writer.files[index].1)->Ok_0
                as int,
        ),
        (spec_open(spec_image(writer)->Ok_0)->Ok_0.data_offset + spec_fat_entry(
            writer.endian,
            spec_image(writer)->Ok_0,
            index,
        ).data_begin) % (spec_file_alignment(
            writer,
            writer.files[index].0,
            writer.files[index].1,
        )->Ok_0 as int) == 0,
{
    let count = writer.files.len() as int;
    lemma_alignments_valid(writer, count);
    let alignments = spec_alignments(writer, count)->Ok_0;
    lemma_image_opens(writer.endian, writer.hash_multiplier, writer.files, alignments);
    lemma_image_entry(writer.endian, writer.hash_multiplier, writer.files, alignments, index);
    lemma_payload_is_aligned(writer.files, alignments, index);
    lemma_file_size_bounds(writer.files, alignments, index);
    lemma_file_size_bounds(writer.files, alignments, count);
    crate::layout::lemma_data_end(writer.files, alignments, index + 1, count);
}

/// The sort order in a written image: the hashes of the table ascend, and
/// they ascend strictly where no two names of the archive have the same
/// hash.
pub proof fn lemma_written_table_is_sorted(before: Seq<Entry>, writer: SarcWriterView)
    requires
        writer.well_formed(),
        spec_image(writer) is Ok,
        spec_is_stable_sort(before, writer.files, writer.hash_multiplier),
    ensures
        forall|i: int, j: int|
            0 <= i < j < writer.files.len() ==> (#[trigger] spec_fat_entry(
                writer.endian,
                spec_image(writer)->Ok_0,
                i,
            )).name_hash <= (#[trigger] spec_fat_entry(
                writer.endian,
                spec_image(writer)->Ok_0,
                j,
            )).name_hash,
        (forall|i: int, j: int|
            0 <= i < j < before.len() ==> spec_hash_name(
                writer.hash_multiplier,
                (#[trigger] before[i]).0,
            ) != spec_hash_name(writer.hash_multiplier, (#[trigger] before[j]).0)) ==> (forall|
            i: int,
            j: int,
        |
            0 <= i < j < writer.files.len() ==> (#[trigger] spec_fat_entry(
                writer.endian,
                spec_image(writer)->Ok_0,
                i,
            )).name_hash < (#[trigger] spec_fat_entry(
                writer.endian,
                spec_image(writer)->Ok_0,
                j,
            )).name_hash),
{
    let count = writer.files.len() as int;
    let image = spec_image(writer)->Ok_0;
    lemma_alignments_valid(writer, count);
    let alignments = spec_alignments(writer, count)->Ok_0;
    lemma_sorted_hashes(before, writer.files, writer.hash_multiplier);
    assert forall|i: int| 0 <= i < count implies (#[trigger] spec_fat_entry(
        writer.endian,
        image,
        i,
    )).name_hash == spec_hash_name(writer.hash_multiplier, writer.files[i].0) by {
        lemma_image_entry(writer.endian, writer.hash_multiplier, writer.files, alignments, i);
    }
}

/// What an alignment map holds once requirements were added to it: for an
/// extension among them the alignment of the last requirement that names
/// it, and for any other what the map held.
proof fn lemma_with_requirements(
    map: Map<Seq<char>, usize>,
    requirements: Seq<(Seq<char>, usize)>,
    count: int,
    ext: Seq<char>,
)
    requires
        0 <= count <= requirements.len(),
    ensures
        (forall|i: int| 0 <= i < count ==> (#[trigger] requirements[i]).0 != ext) ==> (
        spec_with_requirements(map, requirements, count).contains_key(ext) == map.contains_key(ext)
            && spec_with_requirements(map, requirements, count)[ext] == map[ext]),
        forall|last: int|
            0 <= last < count && requirements[last].0 == ext && (forall|i: int|
                last < i < count ==> (#[trigger] requirements[i]).0 != ext) ==> (
            spec_with_requirements(map, requirements, count).contains_key(ext)
                && spec_with_requirements(map, requirements, count)[ext] == requirements[last].1),
    decreases count,
{
    if count > 0 {
        lemma_with_requirements(map, requirements, count - 1, ext);
    }
}

/// The position of the last requirement below `count` that names an
/// extension, or -1 where none does.
spec fn spec_last_naming(requirements: Seq<(Seq<char>, usize)>, count: int, ext: Seq<char>) -> int
    decreases count,
{
    if count <= 0 {
        -1
    } else if requirements[count - 1].0 == ext {
        count - 1
    } else {
        spec_last_naming(requirements, count - 1, ext)
    }
}

/// The last requirement that names an extension is behind every other that
/// does.
proof fn lemma_last_naming(requirements: Seq<(Seq<char>, usize)>, count: int, ext: Seq<char>)
    requires
        0 <= count <= requirements.len(),
    ensures
        -1 <= spec_last_naming(requirements, count, ext) < count,
        spec_last_naming(requirements, count, ext) >= 0 ==> requirements[spec_last_naming(
            requirements,
            count,
            ext,
        )].0 == ext,
        forall|i: int|
            spec_last_naming(requirements, count, ext) < i < count ==> (
            #[trigger] requirements[i]).0 != ext,
    decreases count,
{
    if count > 0 && requirements[count - 1].0 != ext {
        lemma_last_naming(requirements, count - 1, ext);
    }
}

/// Requirements that were added to an alignment map change nothing when
/// they are added once more.
pub proof fn lemma_requirements_added_twice(
    map: Map<Seq<char>, usize>,
    requirements: Seq<(Seq<char>, usize)>,
    count: int,
)
    requires
        0 <= count <= requirements.len(),
    ensures
        spec_with_requirements(
            spec_with_requirements(map, requirements, count),
            requirements,
            count,
        ) == spec_with_requirements(map, requirements, count),
{
    let once = spec_with_requirements(map, requirements, count);
    let twice = spec_with_requirements(once, requirements, count);
    assert forall|ext: Seq<char>|
        #[trigger] twice.dom().contains(ext) == once.dom().contains(ext) && (once.dom().contains(
            ext,
        ) ==> twice[ext] == once[ext]) by {
        lemma_last_naming(requirements, count, ext);
        lemma_with_requirements(map, requirements, count, ext);
        lemma_with_requirements(once, requirements, count, ext);
    }
}

/// Writing again: a writer that has written is left as it is by a second
/// writing, which gives what the first gave.
pub proof fn lemma_writing_again(before: SarcWriterView, after: SarcWriterView, again: SarcWriterView)
    requires
        spec_written(before, after),
        spec_written(after, again),
    ensures
        again == after,
        spec_write_outcome(after, again) == spec_write_outcome(before, after),
{
    let defaults = spec_default_requirements(before);
    lemma_first_invalid_from(defaults, 0);
    lemma_requirements_added_twice(before.alignment_map, defaults, spec_first_invalid(defaults));
    lemma_sorted_hashes(before.files, after.files, before.hash_multiplier);
    lemma_sorting_sorted_files(after.files, again.files, after.hash_multiplier);
}

} // verus!
