//! The writer: named files and the settings that decide where each of them
//! may start, laid out as one archive image.
use crate::alignment::align;
use crate::alignment::align_within_u32;
use crate::alignment::lemma_lcm_of_powers_of_two;
use crate::alignment::num_lcm;
use crate::alignment::spec_divides;
use crate::codec::mark_at;
use crate::codec::read_u16;
use crate::codec::read_u32;
use crate::codec::spec_mark_at;
use crate::codec::spec_read_u16;
use crate::codec::spec_read_u32;
use crate::codec::spec_u32_bytes;
use crate::codec::write_bytes;
use crate::codec::write_u16;
use crate::codec::write_u32;
use crate::Endian;
use crate::file_map::Entry;
use crate::file_map::file_map_get_index;
use crate::file_map::file_map_insert;
use crate::file_map::file_map_len;
use crate::file_map::file_map_new;
use crate::file_map::file_map_shift_remove;
use crate::file_map::file_map_sort_by_hash;
use crate::file_map::spec_entries;
use crate::file_map::spec_insert;
use crate::file_map::spec_remove;
use crate::is_valid_alignment;
use crate::layout::lemma_file_size_bounds;
use crate::layout::lemma_name_size;
use crate::layout::lemma_names_size;
use crate::layout::spec_all_valid;
use crate::layout::spec_archive_bytes;
use crate::layout::spec_data_begin;
use crate::layout::spec_data_bytes;
use crate::layout::spec_data_end;
use crate::layout::spec_data_offset;
use crate::layout::spec_fat_entries_bytes;
use crate::layout::spec_fat_entry_bytes;
use crate::layout::spec_fat_header_bytes;
use crate::layout::spec_file_size;
use crate::layout::spec_fits;
use crate::layout::spec_fnt_header_bytes;
use crate::layout::spec_header_bytes;
use crate::layout::spec_name_bytes;
use crate::layout::spec_name_field;
use crate::layout::spec_name_size;
use crate::layout::spec_name_table_bytes;
use crate::layout::spec_names_size;
use crate::layout::spec_required_alignment;
use crate::layout::spec_zeros;
use crate::parse::magic_at;
use crate::parse::spec_magic_at;
use crate::parse::spec_names_offset;
use crate::parse::spec_sarc_magic;
use crate::spec_is_valid_alignment;
use crate::tables::spec_requirements;
use crate::text::extension;
use crate::text::spec_extension;
use indexmap::IndexMap;
use vstd::arithmetic::power2::lemma2_to64;
use vstd::arithmetic::power2::lemma_pow2_strictly_increases;
use vstd::arithmetic::power2::pow2;
use vstd::hash_map::StringHashMap;
use vstd::hash_set::StringHashSet;
use vstd::pervasive::unreached;
use vstd::prelude::*;

verus! {

/// What can go wrong when an archive is written.
#[derive(Debug, PartialEq, Eq, Structural, Clone, Copy)]
pub enum SarcWriteError {
    /// The value is not a valid alignment: zero, or no power of two.
    InvalidAlignmentError(usize),
    /// The archive has more files than a 14-bit count holds, or a part of it
    /// lies beyond what its 32-bit fields can say.
    TooLarge,
}

/// A writer's settings and files as plain values.
pub struct SarcWriterView {
    /// The byte order of the archive.
    pub endian: Endian,
    /// Whether the alignment rules of older titles apply.
    pub legacy: bool,
    /// The multiplier of the name hash.
    pub hash_multiplier: u32,
    /// The least alignment of every file.
    pub min_alignment: usize,
    /// The alignment that files of an extension need.
    pub alignment_map: Map<Seq<char>, usize>,
    /// The files, each with its name and its payload, in their order.
    pub files: Seq<Entry>,
    /// The extensions that the resource factory knows.
    pub factory_names: Set<Seq<char>>,
    /// The alignment requirements of the AGL environment table.
    pub agl_requirements: Seq<(Seq<char>, usize)>,
}

impl SarcWriterView {
    /// The alignments that the writer was given are valid ones.
    pub open spec fn well_formed(self) -> bool {
        &&& spec_is_valid_alignment(self.min_alignment)
        &&& forall|ext: Seq<char>| #[trigger]
            self.alignment_map.contains_key(ext) ==> spec_is_valid_alignment(
                self.alignment_map[ext],
            )
    }
}

/// The bytes `"Yaz0"`.
pub open spec fn spec_yaz0_magic() -> Seq<u8> {
    seq![0x59u8, 0x61u8, 0x7Au8, 0x30u8]
}

/// The bytes `"FLIM"`.
pub open spec fn spec_flim_magic() -> Seq<u8> {
    seq![0x46u8, 0x4Cu8, 0x49u8, 0x4Du8]
}

/// Whether a payload is itself an archive: at least 0x20 bytes that start
/// with `"SARC"`, or with `"Yaz0"` and `"SARC"` at offset 0x11.
pub open spec fn spec_is_file_sarc(data: Seq<u8>) -> bool {
    data.len() >= 0x20 && (spec_magic_at(data, 0, spec_sarc_magic()) || (spec_magic_at(
        data,
        0,
        spec_yaz0_magic(),
    ) && spec_magic_at(data, 0x11, spec_sarc_magic())))
}

/// One shifted left by `shift` bits, or zero where that is more than the
/// machine's word holds.
pub open spec fn spec_shifted_one(shift: u8) -> usize {
    if pow2(shift as nat) <= usize::MAX {
        pow2(shift as nat) as usize
    } else {
        0
    }
}

/// The alignment that a payload asks for in the way of the newer binary
/// files: longer than 0x20 bytes, a byte order mark at 0x0C, its own length
/// at 0x1C in that byte order, and the alignment's exponent at 0x0E. Any
/// other payload asks for 1.
pub open spec fn spec_new_binary_alignment(data: Seq<u8>) -> usize {
    if data.len() <= 0x20 {
        1
    } else {
        match spec_mark_at(data, 0x0C) {
            None => 1,
            Some(endian) => if spec_read_u32(endian, data, 0x1C) == data.len() {
                spec_shifted_one(data[0x0E])
            } else {
                1
            },
        }
    }
}

/// The alignment that a payload asks for in the way of a BFLIM texture:
/// longer than 0x28 bytes with `"FLIM"` 0x28 bytes before its end, it asks
/// for the big-endian 16-bit value 8 bytes before its end. Any other payload
/// asks for 1.
pub open spec fn spec_cafe_bflim_alignment(data: Seq<u8>) -> usize {
    if data.len() <= 0x28 || !spec_magic_at(data, data.len() - 0x28, spec_flim_magic()) {
        1
    } else {
        spec_read_u16(Endian::Big, data, data.len() - 8) as usize
    }
}

/// An alignment with one more contribution taken in: the larger of the two,
/// which is their least common multiple, where the contribution is a valid
/// alignment, and the error that names the contribution where it is not.
pub open spec fn spec_combine(
    alignment: Result<usize, SarcWriteError>,
    contribution: Option<usize>,
) -> Result<usize, SarcWriteError> {
    match (alignment, contribution) {
        (Err(e), _) => Err(e),
        (Ok(a), None) => Ok(a),
        (Ok(a), Some(c)) => if !spec_is_valid_alignment(c) {
            Err(SarcWriteError::InvalidAlignmentError(c))
        } else if a <= c {
            Ok(c)
        } else {
            Ok(a)
        },
    }
}

/// The alignment of a file: the least common multiple of the writer's
/// minimum, of what the alignment map holds for the name's extension, of
/// 0x2000 for an archive in legacy mode and, in legacy mode or for an
/// extension that the factory table does not hold, of what the payload asks
/// for as a newer binary file and, in a big-endian archive, as a BFLIM.
pub open spec fn spec_file_alignment(writer: SarcWriterView, name: Seq<char>, data: Seq<u8>) -> Result<
    usize,
    SarcWriteError,
> {
    let ext = spec_extension(name);
    let sniffed = writer.legacy || !writer.factory_names.contains(ext);
    let from_minimum = Ok::<usize, SarcWriteError>(writer.min_alignment);
    let from_map = spec_combine(
        from_minimum,
        if writer.alignment_map.contains_key(ext) {
            Some(writer.alignment_map[ext])
        } else {
            None
        },
    );
    let from_archive = spec_combine(
        from_map,
        if writer.legacy && spec_is_file_sarc(data) {
            Some(0x2000usize)
        } else {
            None
        },
    );
    let from_binary = spec_combine(
        from_archive,
        if sniffed {
            Some(spec_new_binary_alignment(data))
        } else {
            None
        },
    );
    spec_combine(
        from_binary,
        if sniffed && writer.endian == Endian::Big {
            Some(spec_cafe_bflim_alignment(data))
        } else {
            None
        },
    )
}

/// The alignment map with one requirement more.
pub open spec fn spec_with_requirement(
    map: Map<Seq<char>, usize>,
    requirement: (Seq<char>, usize),
) -> Map<Seq<char>, usize> {
    map.insert(requirement.0, requirement.1)
}

/// The alignment map after the first `count` of the given requirements
/// were added in turn.
pub open spec fn spec_with_requirements(
    map: Map<Seq<char>, usize>,
    requirements: Seq<(Seq<char>, usize)>,
    count: int,
) -> Map<Seq<char>, usize>
    decreases count,
{
    if count <= 0 {
        map
    } else {
        spec_with_requirement(
            spec_with_requirements(map, requirements, count - 1),
            requirements[count - 1],
        )
    }
}

/// The position of the first requirement at or behind `from` whose
/// alignment is not valid, or the number of requirements where all are.
pub open spec fn spec_first_invalid_from(requirements: Seq<(Seq<char>, usize)>, from: int) -> int
    decreases requirements.len() - from,
{
    if from >= requirements.len() {
        requirements.len() as int
    } else if !spec_is_valid_alignment(requirements[from].1) {
        from
    } else {
        spec_first_invalid_from(requirements, from + 1)
    }
}

/// The first requirement that is not valid stands at or behind the place
/// that the search starts from, and the ones between are valid.
pub proof fn lemma_first_invalid_from(requirements: Seq<(Seq<char>, usize)>, from: int)
    requires
        0 <= from <= requirements.len(),
    ensures
        from <= spec_first_invalid_from(requirements, from) <= requirements.len(),
        forall|i: int|
            from <= i < spec_first_invalid_from(requirements, from) ==> spec_is_valid_alignment(
                (#[trigger] requirements[i]).1,
            ),
        spec_first_invalid_from(requirements, from) < requirements.len()
            ==> !spec_is_valid_alignment(
            requirements[spec_first_invalid_from(requirements, from)].1,
        ),
    decreases requirements.len() - from,
{
    if from < requirements.len() && spec_is_valid_alignment(requirements[from].1) {
        lemma_first_invalid_from(requirements, from + 1);
    }
}

/// The position of the first requirement whose alignment is not valid, or
/// the number of requirements where all are.
pub open spec fn spec_first_invalid(requirements: Seq<(Seq<char>, usize)>) -> int {
    spec_first_invalid_from(requirements, 0)
}

/// The requirements that every archive gets: 8 for `ksky` and `bksky`,
/// 0x2000 for `gtx`, 0x1000 for `sharcb` and `sharc`, 0x80 for `baglmf`, and
/// for `bffnt` 0x2000 in a big-endian archive and 0x1000 in a little-endian.
pub open spec fn spec_fixed_requirements(endian: Endian) -> Seq<(Seq<char>, usize)> {
    seq![
        ("ksky"@, 8usize),
        ("bksky"@, 8usize),
        ("gtx"@, 0x2000usize),
        ("sharcb"@, 0x1000usize),
        ("sharc"@, 0x1000usize),
        ("baglmf"@, 0x80usize),
        ("bffnt"@, if endian == Endian::Big { 0x2000usize } else { 0x1000usize }),
    ]
}

/// The requirements of the AGL environment table followed by the fixed
/// ones: the defaults that are added when an archive is written.
pub open spec fn spec_default_requirements(writer: SarcWriterView) -> Seq<(Seq<char>, usize)> {
    writer.agl_requirements + spec_fixed_requirements(writer.endian)
}

/// A writer without files: hash multiplier 0x65, minimum alignment 4, no
/// legacy mode, no alignment requirements, and empty tables.
pub open spec fn spec_new_writer(endian: Endian) -> SarcWriterView {
    SarcWriterView {
        endian,
        legacy: false,
        hash_multiplier: crate::DEFAULT_HASH_MULTIPLIER,
        min_alignment: 4,
        alignment_map: Map::empty(),
        files: Seq::empty(),
        factory_names: Set::empty(),
        agl_requirements: Seq::empty(),
    }
}

/// A writer of SARC archives.
pub struct SarcWriter {
    endian: Endian,
    legacy: bool,
    hash_multiplier: u32,
    min_alignment: usize,
    alignment_map: StringHashMap<usize>,
    file_map: IndexMap<String, Vec<u8>>,
    factory_names: StringHashSet,
    agl_requirements: Vec<(String, usize)>,
}

impl View for SarcWriter {
    type V = SarcWriterView;

    closed spec fn view(&self) -> SarcWriterView {
        SarcWriterView {
            endian: self.endian,
            legacy: self.legacy,
            hash_multiplier: self.hash_multiplier,
            min_alignment: self.min_alignment,
            alignment_map: self.alignment_map@,
            files: spec_entries(self.file_map),
            factory_names: self.factory_names@,
            agl_requirements: spec_requirements(self.agl_requirements@),
        }
    }
}

/// One shifted left by `shift` bits, or zero where that is more than the
/// machine's word holds.
fn shifted_one(shift: u8) -> (shifted: usize)
    ensures
        shifted == spec_shifted_one(shift),
        shifted == 0 || spec_is_valid_alignment(shifted),
{
    proof {
        lemma2_to64();
    }
    if shift as u32 >= usize::BITS {
        proof {
            if shift > usize::BITS {
                lemma_pow2_strictly_increases(usize::BITS as nat, shift as nat);
            }
        }
        0
    } else {
        proof {
            vstd::bits::lemma_usize_pow2_no_overflow(shift as nat);
            vstd::bits::lemma_usize_shl_is_mul(1usize, shift as usize);
        }
        1usize << shift
    }
}

/// The least common multiple of two valid alignments, which is the larger
/// of them.
fn lcm_of_valid(a: usize, b: usize) -> (m: usize)
    requires
        spec_is_valid_alignment(a),
        spec_is_valid_alignment(b),
    ensures
        m == if a <= b { b } else { a },
        spec_is_valid_alignment(m),
{
    proof {
        if a <= b {
            crate::alignment::lemma_power_of_two_divides(a as int, b as int);
            assert(spec_divides(a as int, b as int));
        } else {
            crate::alignment::lemma_power_of_two_divides(b as int, a as int);
            assert(spec_divides(a as int, a as int));
        }
    }
    let m = num_lcm(a, b);
    proof {
        lemma_lcm_of_powers_of_two(m as int, a as int, b as int);
    }
    m
}

/// Takes one more contribution into an alignment.
fn combine(alignment: usize, contribution: usize) -> (r: Result<usize, SarcWriteError>)
    requires
        spec_is_valid_alignment(alignment),
    ensures
        r == spec_combine(Ok(alignment), Some(contribution)),
        r matches Ok(combined) ==> spec_is_valid_alignment(combined),
{
    if !is_valid_alignment(contribution) {
        return Err(SarcWriteError::InvalidAlignmentError(contribution));
    }
    Ok(lcm_of_valid(alignment, contribution))
}

/// The alignments of the first `count` files of a writer, or the error of
/// the first file among them that has none.
pub open spec fn spec_alignments(writer: SarcWriterView, count: int) -> Result<
    Seq<usize>,
    SarcWriteError,
>
    decreases count,
{
    if count <= 0 {
        Ok(Seq::empty())
    } else {
        match spec_alignments(writer, count - 1) {
            Err(e) => Err(e),
            Ok(rest) => match spec_file_alignment(
                writer,
                writer.files[count - 1].0,
                writer.files[count - 1].1,
            ) {
                Err(e) => Err(e),
                Ok(alignment) => Ok(rest.push(alignment)),
            },
        }
    }
}

/// The image that a writer gives for its files in their order: none where
/// a file has no valid alignment or where the archive does not fit the
/// format.
pub open spec fn spec_image(writer: SarcWriterView) -> Result<Seq<u8>, SarcWriteError> {
    match spec_alignments(writer, writer.files.len() as int) {
        Err(e) => Err(e),
        Ok(alignments) => if spec_fits(writer.files, alignments) {
            Ok(spec_archive_bytes(writer.endian, writer.hash_multiplier, writer.files, alignments))
        } else {
            Err(SarcWriteError::TooLarge)
        },
    }
}

/// Once a file has no valid alignment, the files behind it change nothing.
pub proof fn lemma_alignments_error(writer: SarcWriterView, low: int, high: int)
    requires
        0 <= low <= high,
        spec_alignments(writer, low) is Err,
    ensures
        spec_alignments(writer, high) == spec_alignments(writer, low),
    decreases high,
{
    if low < high {
        lemma_alignments_error(writer, low, high - 1);
    }
}

/// The alignments of a writer's files are valid ones, one for each file.
pub proof fn lemma_alignments_valid(writer: SarcWriterView, count: int)
    requires
        writer.well_formed(),
        0 <= count,
        spec_alignments(writer, count) is Ok,
    ensures
        spec_alignments(writer, count)->Ok_0.len() == count,
        spec_all_valid(spec_alignments(writer, count)->Ok_0),
        forall|i: int|
            0 <= i < count ==> spec_file_alignment(writer, writer.files[i].0, writer.files[i].1)
                == Ok::<usize, SarcWriteError>(#[trigger] spec_alignments(writer, count)->Ok_0[i]),
    decreases count,
{
    if count > 0 {
        lemma_alignments_valid(writer, count - 1);
        lemma_file_alignment_valid(
            writer,
            writer.files[count - 1].0,
            writer.files[count - 1].1,
        );
    }
}

/// The alignment of a file is a valid one.
pub proof fn lemma_file_alignment_valid(writer: SarcWriterView, name: Seq<char>, data: Seq<u8>)
    requires
        writer.well_formed(),
    ensures
        spec_file_alignment(writer, name, data) matches Ok(alignment) ==> spec_is_valid_alignment(
            alignment,
        ),
{
}

/// What writing makes of a writer: its files are sorted by the hash of their
/// names, entries of equal hash staying in their order, and the default
/// alignment requirements are added up to the first that is not valid.
pub open spec fn spec_written(before: SarcWriterView, after: SarcWriterView) -> bool {
    let defaults = spec_default_requirements(before);
    &&& crate::file_map::spec_is_stable_sort(before.files, after.files, before.hash_multiplier)
    &&& after == (SarcWriterView {
        files: after.files,
        alignment_map: spec_with_requirements(
            before.alignment_map,
            defaults,
            spec_first_invalid(defaults),
        ),
        ..before
    })
}

/// What writing gives: the error of the first default requirement that is
/// not valid, and else the image of the writer as writing has left it.
pub open spec fn spec_write_outcome(before: SarcWriterView, after: SarcWriterView) -> Result<
    Seq<u8>,
    SarcWriteError,
> {
    let defaults = spec_default_requirements(before);
    let stop = spec_first_invalid(defaults);
    if stop < defaults.len() {
        Err(SarcWriteError::InvalidAlignmentError(defaults[stop].1))
    } else {
        spec_image(after)
    }
}

/// The files of a writer that is made from the first `count` of the given
/// files: those with a name, inserted in their order.
pub open spec fn spec_named_entries(files: Seq<crate::parse::FileView>, count: int) -> Seq<Entry>
    decreases count,
{
    if count <= 0 {
        Seq::empty()
    } else {
        match files[count - 1].name {
            Some(name) => spec_insert(
                spec_named_entries(files, count - 1),
                name,
                files[count - 1].data,
            ),
            None => spec_named_entries(files, count - 1),
        }
    }
}

/// The positions of an archive's parts, found before any byte is written.
struct Plan {
    alignments: Vec<usize>,
    begins: Vec<usize>,
    ends: Vec<usize>,
    name_offsets: Vec<usize>,
    data_offset: usize,
    file_size: usize,
}

impl Plan {
    /// The plan holds the positions that the layout gives.
    spec fn matches(&self, files: Seq<Entry>) -> bool {
        let count = files.len() as int;
        &&& self.alignments@.len() == count
        &&& self.begins@.len() == count
        &&& self.ends@.len() == count
        &&& self.name_offsets@.len() == count
        &&& spec_all_valid(self.alignments@)
        &&& spec_fits(files, self.alignments@)
        &&& forall|i: int|
            0 <= i < count ==> #[trigger] self.begins@[i] == spec_data_begin(
                files,
                self.alignments@,
                i,
            )
        &&& forall|i: int|
            0 <= i < count ==> #[trigger] self.ends@[i] == spec_data_end(
                files,
                self.alignments@,
                i + 1,
            )
        &&& forall|i: int|
            0 <= i < count ==> #[trigger] self.name_offsets@[i] == spec_names_size(files, i)
        &&& self.data_offset == spec_data_offset(files, self.alignments@)
        &&& self.file_size == spec_file_size(files, self.alignments@)
    }
}

/// Appends `count` zero bytes.
fn pad(out: &mut Vec<u8>, count: usize)
    ensures
        final(out)@ == old(out)@ + spec_zeros(count as int),
{
    let mut done: usize = 0;
    while done < count
        invariant
            done <= count,
            out@ == old(out)@ + spec_zeros(done as int),
        decreases count - done,
    {
        out.push(0);
        done += 1;
    }
}

/// Appends the archive header.
fn emit_header(endian: Endian, file_size: u32, data_offset: u32, image: &mut Vec<u8>)
    ensures
        final(image)@ == old(image)@ + spec_header_bytes(endian, file_size, data_offset),
{
    reveal(spec_header_bytes);
    let magic = vec![0x53u8, 0x41u8, 0x52u8, 0x43u8];
    write_bytes(magic.as_slice(), image);
    write_u16(endian, 0x14, image);
    write_u16(endian, 0xFEFF, image);
    write_u32(endian, file_size, image);
    write_u32(endian, data_offset, image);
    write_u16(endian, 0x0100, image);
    write_u16(endian, 0, image);
}

/// Appends the header of the file allocation table.
fn emit_fat_header(endian: Endian, num_files: u16, multiplier: u32, image: &mut Vec<u8>)
    ensures
        final(image)@ == old(image)@ + spec_fat_header_bytes(endian, num_files, multiplier),
{
    reveal(spec_fat_header_bytes);
    let magic = vec![0x53u8, 0x46u8, 0x41u8, 0x54u8];
    write_bytes(magic.as_slice(), image);
    write_u16(endian, 0x0C, image);
    write_u16(endian, num_files, image);
    write_u32(endian, multiplier, image);
}

/// Appends the header of the name table.
fn emit_fnt_header(endian: Endian, image: &mut Vec<u8>)
    ensures
        final(image)@ == old(image)@ + spec_fnt_header_bytes(endian),
{
    reveal(spec_fnt_header_bytes);
    let magic = vec![0x53u8, 0x46u8, 0x4Eu8, 0x54u8];
    write_bytes(magic.as_slice(), image);
    write_u16(endian, 0x08, image);
    write_u16(endian, 0, image);
}

/// Appends one entry of the file allocation table.
fn emit_fat_entry(
    endian: Endian,
    name_hash: u32,
    name_offset: usize,
    begin: u32,
    end: u32,
    image: &mut Vec<u8>,
)
    requires
        name_offset < 0x400_0000,
    ensures
        final(image)@ == old(image)@ + (spec_u32_bytes(endian, name_hash) + spec_u32_bytes(
            endian,
            spec_name_field(name_offset as int),
        ) + spec_u32_bytes(endian, begin) + spec_u32_bytes(endian, end)),
{
    let steps: u32 = (name_offset / 4) as u32;
    let field: u32 = 1 << 24 | steps;
    assert(field == 0x0100_0000u32 | steps) by (bit_vector)
        requires
            field == 1u32 << 24 | steps,
    ;
    write_u32(endian, name_hash, image);
    write_u32(endian, field, image);
    write_u32(endian, begin, image);
    write_u32(endian, end, image);
}

/// Appends a name as it stands in the name table.
fn emit_name(name: &str, image: &mut Vec<u8>) -> (size: usize)
    requires
        spec_name_size(name@) <= u32::MAX,
    ensures
        final(image)@ == old(image)@ + spec_name_bytes(name@),
        size == spec_name_size(name@),
{
    proof {
        lemma_name_size(name@);
        crate::alignment::lemma_small_alignments_are_valid();
    }
    let bytes = name.as_bytes();
    let size = align(bytes.len() + 1, 4);
    write_bytes(bytes, image);
    pad(image, size - bytes.len());
    size
}

impl SarcWriter {
    /// Makes a writer without files: hash multiplier 0x65, minimum
    /// alignment 4, no legacy mode, no alignment requirements, and empty
    /// tables.
    pub fn new(endian: Endian) -> (writer: SarcWriter)
        ensures
            writer@ == spec_new_writer(endian),
            writer@.well_formed(),
    {
        proof {
            crate::alignment::lemma_small_alignments_are_valid();
        }
        let writer = SarcWriter {
            endian,
            legacy: false,
            hash_multiplier: crate::DEFAULT_HASH_MULTIPLIER,
            alignment_map: StringHashMap::new(),
            file_map: file_map_new(),
            min_alignment: 4,
            factory_names: StringHashSet::new(),
            agl_requirements: Vec::new(),
        };
        assert(writer@.agl_requirements =~= Seq::empty());
        writer
    }

    /// Sets the byte order of the archive.
    pub fn set_endian(&mut self, endian: Endian)
        requires
            old(self)@.well_formed(),
        ensures
            final(self)@.well_formed(),
            final(self)@ == (SarcWriterView { endian, ..old(self)@ }),
    {
        self.endian = endian;
    }

    /// Sets the multiplier of the name hash.
    pub fn set_hash_multiplier(&mut self, hash_multiplier: u32)
        requires
            old(self)@.well_formed(),
        ensures
            final(self)@.well_formed(),
            final(self)@ == (SarcWriterView { hash_multiplier, ..old(self)@ }),
    {
        self.hash_multiplier = hash_multiplier;
    }

    /// Adds or replaces the alignment that files of an extension need. The
    /// alignment has to be a power of two.
    pub fn add_alignment_requirement(&mut self, ext: String, alignment: usize) -> (r: Result<
        (),
        SarcWriteError,
    >)
        requires
            old(self)@.well_formed(),
        ensures
            final(self)@.well_formed(),
            r is Ok <==> spec_is_valid_alignment(alignment),
            r matches Err(e) ==> e == SarcWriteError::InvalidAlignmentError(alignment) && final(self)@ == old(self)@,
            r is Ok ==> final(self)@ == (SarcWriterView {
                alignment_map: spec_with_requirement(old(self)@.alignment_map, (ext@, alignment)),
                ..old(self)@
            }),
    {
        if !is_valid_alignment(alignment) {
            return Err(SarcWriteError::InvalidAlignmentError(alignment));
        }
        self.alignment_map.insert(ext, alignment);
        Ok(())
    }

    /// Sets the least alignment of every file. It has to be a power of two.
    pub fn set_min_alignment(&mut self, alignment: usize) -> (r: Result<(), SarcWriteError>)
        requires
            old(self)@.well_formed(),
        ensures
            final(self)@.well_formed(),
            r is Ok <==> spec_is_valid_alignment(alignment),
            r matches Err(e) ==> e == SarcWriteError::InvalidAlignmentError(alignment) && final(self)@ == old(self)@,
            r is Ok ==> final(self)@ == (SarcWriterView { min_alignment: alignment, ..old(self)@ }),
    {
        if !is_valid_alignment(alignment) {
            return Err(SarcWriteError::InvalidAlignmentError(alignment));
        }
        self.min_alignment = alignment;
        Ok(())
    }

    /// Switches the alignment rules of older titles on or off.
    pub fn set_legacy_mode(&mut self, value: bool)
        requires
            old(self)@.well_formed(),
        ensures
            final(self)@.well_formed(),
            final(self)@ == (SarcWriterView { legacy: value, ..old(self)@ }),
    {
        self.legacy = value
    }

    /// Sets the table of the extensions that the resource factory knows.
    pub fn set_factory_names(&mut self, names: StringHashSet)
        requires
            old(self)@.well_formed(),
        ensures
            final(self)@.well_formed(),
            final(self)@ == (SarcWriterView { factory_names: names@, ..old(self)@ }),
    {
        self.factory_names = names;
    }

    /// Sets the alignment requirements of the AGL environment table.
    pub fn set_agl_env_alignment_requirements(&mut self, requirements: Vec<(String, usize)>)
        requires
            old(self)@.well_formed(),
        ensures
            final(self)@.well_formed(),
            final(self)@ == (SarcWriterView {
                agl_requirements: spec_requirements(requirements@),
                ..old(self)@
            }),
    {
        self.agl_requirements = requirements;
    }

    /// Adds a file, or replaces the payload of the file of that name.
    pub fn add_file(&mut self, name: String, data: Vec<u8>)
        requires
            old(self)@.well_formed(),
        ensures
            final(self)@.well_formed(),
            final(self)@ == (SarcWriterView {
                files: spec_insert(old(self)@.files, name@, data@),
                ..old(self)@
            }),
    {
        file_map_insert(&mut self.file_map, name, data);
    }

    /// Removes the file of that name, if there is one.
    pub fn remove_file(&mut self, name: &str)
        requires
            old(self)@.well_formed(),
        ensures
            final(self)@.well_formed(),
            final(self)@ == (SarcWriterView {
                files: spec_remove(old(self)@.files, name@),
                ..old(self)@
            }),
    {
        file_map_shift_remove(&mut self.file_map, name);
    }

    /// The number of files.
    pub fn file_count(&self) -> (count: usize)
        ensures
            count == self@.files.len(),
    {
        file_map_len(&self.file_map)
    }

    /// The file at a position in the writer's order: its name and its
    /// payload.
    pub fn file_at(&self, index: usize) -> (file: Option<(&str, &[u8])>)
        ensures
            file is Some <==> index < self@.files.len(),
            file matches Some(found) ==> (found.0@, found.1@) == self@.files[index as int],
    {
        match file_map_get_index(&self.file_map, index) {
            Some((name, data)) => Some((name.as_str(), data.as_slice())),
            None => None,
        }
    }

    /// Tells whether a payload is itself an archive, plain or wrapped in
    /// Yaz0.
    pub fn is_file_sarc(data: &[u8]) -> (is_sarc: bool)
        ensures
            is_sarc == spec_is_file_sarc(data@),
    {
        data.len() >= 0x20 && (magic_at(data, 0, 0x53, 0x41, 0x52, 0x43) || (magic_at(
            data,
            0,
            0x59,
            0x61,
            0x7A,
            0x30,
        ) && magic_at(data, 0x11, 0x53, 0x41, 0x52, 0x43)))
    }

    /// The alignment that a payload asks for as a newer binary file.
    pub fn get_alignment_for_new_binary_file(data: &[u8]) -> (alignment: usize)
        ensures
            alignment == spec_new_binary_alignment(data@),
    {
        if data.len() <= 0x20 {
            return 1;
        }
        if let Some(endian) = mark_at(data, 0x0C) {
            let file_size: u32 = match read_u32(endian, data, 0x1C) {
                Ok(file_size) => file_size,
                Err(_) => {
                    return 1;
                },
            };
            if file_size as usize != data.len() {
                return 1;
            } else {
                return shifted_one(data[0x0E]);
            }
        }
        1
    }

    /// The alignment that a payload asks for as a BFLIM texture.
    pub fn get_alignment_for_cafe_bflim(data: &[u8]) -> (alignment: usize)
        ensures
            alignment == spec_cafe_bflim_alignment(data@),
    {
        if data.len() <= 0x28 || !magic_at(data, data.len() - 0x28, 0x46, 0x4C, 0x49, 0x4D) {
            1
        } else {
            match read_u16(Endian::Big, data, data.len() - 0x8) {
                Ok(alignment) => alignment as usize,
                Err(_) => 1,
            }
        }
    }

    /// The alignment of a file with the given name and payload.
    pub fn get_alignment_for_file(&self, name: &str, data: &[u8]) -> (r: Result<
        usize,
        SarcWriteError,
    >)
        requires
            self@.well_formed(),
        ensures
            r == spec_file_alignment(self@, name@, data@),
            r matches Ok(alignment) ==> spec_is_valid_alignment(alignment),
    {
        proof {
            lemma2_to64();
        }
        let ext = extension(name);
        let mut alignment = self.min_alignment;
        if let Some(requirement) = self.alignment_map.get(ext) {
            alignment = combine(alignment, *requirement)?;
        }
        if self.legacy && Self::is_file_sarc(data) {
            alignment = combine(alignment, 0x2000)?;
        }
        if self.legacy || !self.factory_names.contains(ext) {
            alignment = combine(alignment, Self::get_alignment_for_new_binary_file(data))?;
            if let Endian::Big = self.endian {
                alignment = combine(alignment, Self::get_alignment_for_cafe_bflim(data))?;
            }
        }
        Ok(alignment)
    }

    /// The requirements that are added when an archive is written: those of
    /// the AGL environment table, then the fixed ones.
    fn default_requirements(&self) -> (defaults: Vec<(String, usize)>)
        ensures
            spec_requirements(defaults@) == spec_default_requirements(self@),
    {
        let mut defaults: Vec<(String, usize)> = Vec::new();
        let mut index: usize = 0;
        while index < self.agl_requirements.len()
            invariant
                index <= self.agl_requirements.len(),
                spec_requirements(defaults@) == spec_requirements(
                    self.agl_requirements@,
                ).take(index as int),
            decreases self.agl_requirements.len() - index,
        {
            let ghost before = spec_requirements(defaults@);
            let ext = self.agl_requirements[index].0.clone();
            let alignment = self.agl_requirements[index].1;
            defaults.push((ext, alignment));
            index += 1;
            proof {
                let after = spec_requirements(defaults@);
                let agl = spec_requirements(self.agl_requirements@);
                assert(after =~= before.push((ext@, alignment)));
            }
        }
        let ghost agl = spec_requirements(defaults@);
        assert(agl =~= self@.agl_requirements);
        defaults.push(("ksky".to_owned(), 8));
        defaults.push(("bksky".to_owned(), 8));
        defaults.push(("gtx".to_owned(), 0x2000));
        defaults.push(("sharcb".to_owned(), 0x1000));
        defaults.push(("sharc".to_owned(), 0x1000));
        defaults.push(("baglmf".to_owned(), 0x80));
        defaults.push(
            (
                "bffnt".to_owned(),
                match self.endian {
                    Endian::Big => 0x2000,
                    Endian::Little => 0x1000,
                },
            ),
        );
        defaults
    }

    /// Adds the default alignment requirements, in their order, up to the
    /// first that is not a valid alignment.
    pub fn add_default_alignments(&mut self) -> (r: Result<(), SarcWriteError>)
        requires
            old(self)@.well_formed(),
        ensures
            final(self)@.well_formed(),
            final(self)@ == (SarcWriterView {
                alignment_map: spec_with_requirements(
                    old(self)@.alignment_map,
                    spec_default_requirements(old(self)@),
                    spec_first_invalid(spec_default_requirements(old(self)@)),
                ),
                ..old(self)@
            }),
            r is Ok <==> spec_first_invalid(spec_default_requirements(old(self)@))
                == spec_default_requirements(old(self)@).len(),
            r matches Err(e) ==> e == SarcWriteError::InvalidAlignmentError(
                spec_default_requirements(old(self)@)[spec_first_invalid(
                    spec_default_requirements(old(self)@),
                )].1,
            ),
    {
        let defaults = self.default_requirements();
        let ghost requirements = spec_default_requirements(self@);
        let ghost before = self@;
        let mut index: usize = 0;
        while index < defaults.len()
            invariant
                index <= defaults.len(),
                spec_requirements(defaults@) == requirements,
                requirements == spec_default_requirements(old(self)@),
                before == old(self)@,
                self@.well_formed(),
                self@ == (SarcWriterView {
                    alignment_map: spec_with_requirements(
                        before.alignment_map,
                        requirements,
                        index as int,
                    ),
                    ..before
                }),
                spec_first_invalid_from(requirements, index as int) == spec_first_invalid(
                    requirements,
                ),
            decreases defaults.len() - index,
        {
            let ext = defaults[index].0.clone();
            let alignment = defaults[index].1;
            match self.add_alignment_requirement(ext, alignment) {
                Ok(()) => {},
                Err(e) => {
                    return Err(e);
                },
            }
            index += 1;
        }
        Ok(())
    }

    /// The alignment of every file, in the files' order.
    fn file_alignments(&self) -> (r: Result<Vec<usize>, SarcWriteError>)
        requires
            self@.well_formed(),
        ensures
            match r {
                Ok(alignments) => spec_alignments(self@, self@.files.len() as int) == Ok::<
                    Seq<usize>,
                    SarcWriteError,
                >(alignments@),
                Err(e) => spec_alignments(self@, self@.files.len() as int) == Err::<
                    Seq<usize>,
                    SarcWriteError,
                >(e),
            },
    {
        let count = file_map_len(&self.file_map);
        let mut alignments: Vec<usize> = Vec::new();
        let mut index: usize = 0;
        while index < count
            invariant
                index <= count,
                count == self@.files.len(),
                self@.well_formed(),
                spec_alignments(self@, index as int) == Ok::<Seq<usize>, SarcWriteError>(
                    alignments@,
                ),
            decreases count - index,
        {
            match file_map_get_index(&self.file_map, index) {
                Some((name, data)) => {
                    match self.get_alignment_for_file(name.as_str(), data.as_slice()) {
                        Ok(alignment) => {
                            alignments.push(alignment);
                        },
                        Err(e) => {
                            proof {
                                lemma_alignments_error(self@, index + 1, count as int);
                            }
                            return Err(e);
                        },
                    }
                },
                None => unreached(),
            }
            index += 1;
        }
        Ok(alignments)
    }

    /// Finds where every part of the archive goes, unless the archive does
    /// not fit the format.
    fn plan(&self, alignments: Vec<usize>) -> (r: Option<Plan>)
        requires
            alignments@.len() == self@.files.len(),
            spec_all_valid(alignments@),
        ensures
            r is Some <==> spec_fits(self@.files, alignments@),
            r matches Some(plan) ==> plan.alignments@ == alignments@ && plan.matches(self@.files),
    {
        let ghost files = self@.files;
        let ghost aligns = alignments@;
        let count = file_map_len(&self.file_map);
        if count >= 0x4000 {
            return None;
        }
        let mut begins: Vec<usize> = Vec::new();
        let mut ends: Vec<usize> = Vec::new();
        let mut name_offsets: Vec<usize> = Vec::new();
        let mut names_size: usize = 0;
        let mut end: usize = 0;
        let mut required: usize = 1;
        let mut index: usize = 0;
        proof {
            crate::alignment::lemma_small_alignments_are_valid();
        }
        while index < count
            invariant
                index <= count,
                count == files.len(),
                count < 0x4000,
                files == self@.files,
                aligns == alignments@,
                aligns.len() == count,
                spec_all_valid(aligns),
                begins@.len() == index,
                ends@.len() == index,
                name_offsets@.len() == index,
                names_size == spec_names_size(files, index as int),
                names_size <= u32::MAX,
                index > 0 ==> spec_names_size(files, index - 1) < 0x400_0000,
                end == spec_data_end(files, aligns, index as int),
                end <= u32::MAX,
                required == spec_required_alignment(aligns, index as int),
                spec_is_valid_alignment(required),
                forall|i: int|
                    0 <= i < index ==> #[trigger] begins@[i] == spec_data_begin(files, aligns, i),
                forall|i: int|
                    0 <= i < index ==> #[trigger] ends@[i] == spec_data_end(files, aligns, i + 1),
                forall|i: int|
                    0 <= i < index ==> #[trigger] name_offsets@[i] == spec_names_size(files, i),
            decreases count - index,
        {
            proof {
                lemma_file_size_bounds(files, aligns, index as int);
                lemma_file_size_bounds(files, aligns, index + 1);
                lemma_names_size(files, index as int, count - 1);
                lemma_name_size(files[index as int].0);
                crate::alignment::lemma_small_alignments_are_valid();
            }
            match file_map_get_index(&self.file_map, index) {
                Some((name, data)) => {
                    if names_size >= 0x400_0000 {
                        return None;
                    }
                    let name_len = name.as_str().as_bytes().len();
                    if name_len > 0xFFFF_FFFB {
                        return None;
                    }
                    let name_size = align(name_len + 1, 4);
                    if name_size > 0xFFFF_FFFF - names_size {
                        return None;
                    }
                    let alignment = alignments[index];
                    let begin = match align_within_u32(end, alignment) {
                        Some(begin) => begin,
                        None => {
                            return None;
                        },
                    };
                    let len = data.len();
                    if len > 0xFFFF_FFFF - begin {
                        return None;
                    }
                    name_offsets.push(names_size);
                    begins.push(begin);
                    ends.push(begin + len);
                    names_size = names_size + name_size;
                    end = begin + len;
                    required = lcm_of_valid(required, alignment);
                },
                None => unreached(),
            }
            index += 1;
        }
        proof {
            lemma_file_size_bounds(files, aligns, count as int);
            crate::alignment::lemma_power_of_two_divides(required as int, required as int);
            crate::alignment::lemma_round_up(
                spec_names_offset(count as int) + spec_names_size(files, count as int),
                required as int,
            );
        }
        let names_offset: usize = 0x20 + 0x10 * count + 0x08;
        if names_size > 0xFFFF_FFFF - names_offset {
            return None;
        }
        let data_offset = match align_within_u32(names_offset + names_size, required) {
            Some(data_offset) => data_offset,
            None => {
                return None;
            },
        };
        if end > 0xFFFF_FFFF - data_offset {
            return None;
        }
        let file_size = data_offset + end;
        Some(Plan { alignments, begins, ends, name_offsets, data_offset, file_size })
    }

    /// Writes the image of the archive as the plan lays it out.
    fn emit(&self, plan: &Plan) -> (image: Vec<u8>)
        requires
            plan.matches(self@.files),
        ensures
            image@ == spec_archive_bytes(
                self@.endian,
                self@.hash_multiplier,
                self@.files,
                plan.alignments@,
            ),
    {
        reveal(spec_archive_bytes);
        let ghost files = self@.files;
        let ghost aligns = plan.alignments@;
        let endian = self.endian;
        let multiplier = self.hash_multiplier;
        let count = file_map_len(&self.file_map);
        let mut image: Vec<u8> = Vec::new();

        emit_header(endian, plan.file_size as u32, plan.data_offset as u32, &mut image);
        emit_fat_header(endian, count as u16, multiplier, &mut image);
        let ghost tables = spec_header_bytes(endian, plan.file_size as u32, plan.data_offset as u32)
            + spec_fat_header_bytes(endian, count as u16, multiplier);

        let mut index: usize = 0;
        while index < count
            invariant
                index <= count,
                count == files.len(),
                files == self@.files,
                aligns == plan.alignments@,
                multiplier == self@.hash_multiplier,
                plan.matches(files),
                image@ == tables + spec_fat_entries_bytes(
                    endian,
                    multiplier,
                    files,
                    aligns,
                    index as int,
                ),
            decreases count - index,
        {
            proof {
                lemma_file_size_bounds(files, aligns, index as int);
                lemma_file_size_bounds(files, aligns, index + 1);
                lemma_names_size(files, index as int, count - 1);
            }
            match file_map_get_index(&self.file_map, index) {
                Some((name, _)) => {
                    reveal(spec_fat_entry_bytes);
                    emit_fat_entry(
                        endian,
                        crate::hash_name(multiplier, name.as_str()),
                        plan.name_offsets[index],
                        plan.begins[index] as u32,
                        plan.ends[index] as u32,
                        &mut image,
                    );
                },
                None => unreached(),
            }
            index += 1;
        }

        emit_fnt_header(endian, &mut image);
        let ghost names_start = tables + spec_fat_entries_bytes(
            endian,
            multiplier,
            files,
            aligns,
            count as int,
        ) + spec_fnt_header_bytes(endian);

        let mut names_size: usize = 0;
        index = 0;
        while index < count
            invariant
                index <= count,
                count == files.len(),
                files == self@.files,
                aligns == plan.alignments@,
                plan.matches(files),
                names_size == spec_names_size(files, index as int),
                image@ == names_start + spec_name_table_bytes(files, index as int),
            decreases count - index,
        {
            proof {
                lemma_file_size_bounds(files, aligns, index as int);
                lemma_file_size_bounds(files, aligns, index + 1);
            }
            match file_map_get_index(&self.file_map, index) {
                Some((name, _)) => {
                    let size = emit_name(name.as_str(), &mut image);
                    names_size = names_size + size;
                },
                None => unreached(),
            }
            index += 1;
        }

        proof {
            lemma_file_size_bounds(files, aligns, count as int);
        }
        let names_end: usize = 0x20 + 0x10 * count + 0x08 + names_size;
        pad(&mut image, plan.data_offset - names_end);
        let ghost data_start = names_start + spec_name_table_bytes(files, count as int)
            + spec_zeros(plan.data_offset - names_end);

        let mut end: usize = 0;
        index = 0;
        while index < count
            invariant
                index <= count,
                count == files.len(),
                files == self@.files,
                aligns == plan.alignments@,
                plan.matches(files),
                end == spec_data_end(files, aligns, index as int),
                image@ == data_start + spec_data_bytes(files, aligns, index as int),
            decreases count - index,
        {
            proof {
                lemma_file_size_bounds(files, aligns, index as int);
            }
            match file_map_get_index(&self.file_map, index) {
                Some((_, data)) => {
                    pad(&mut image, plan.begins[index] - end);
                    write_bytes(data.as_slice(), &mut image);
                    end = plan.ends[index];
                },
                None => unreached(),
            }
            index += 1;
        }
        image
    }

    /// Makes a writer that holds the named files of an archive, with the
    /// archive's byte order and the minimum alignment that its layout
    /// suggests.
    pub fn from_sarc(sarc: &crate::parse::Sarc) -> (writer: SarcWriter)
        ensures
            writer@.well_formed(),
            writer@ == (SarcWriterView {
                endian: sarc.header().endian,
                min_alignment: crate::parse::spec_min_alignment(
                    sarc@,
                    sarc.header().num_files as int,
                ) as usize,
                files: spec_named_entries(
                    crate::parse::spec_files(sarc@, sarc.header().num_files as int),
                    crate::parse::spec_files(sarc@, sarc.header().num_files as int).len() as int,
                ),
                ..spec_new_writer(sarc.header().endian)
            }),
    {
        let mut writer = SarcWriter::new(sarc.endian());
        proof {
            crate::alignment::lemma_small_alignments_are_valid();
        }
        writer.min_alignment = sarc.guess_min_alignment();
        let files = sarc.files();
        let ghost views = crate::parse::spec_files(sarc@, sarc.header().num_files as int);
        let ghost fresh = writer@;
        let mut index: usize = 0;
        while index < files.len()
            invariant
                index <= files.len(),
                files@.map_values(|file: crate::parse::File| file@) == views,
                writer@.well_formed(),
                writer@ == (SarcWriterView {
                    files: spec_named_entries(views, index as int),
                    ..fresh
                }),
            decreases files.len() - index,
        {
            let file = &files[index];
            if let Some(name) = file.name {
                writer.add_file(name.to_owned(), vstd::slice::slice_to_vec(file.data));
            }
            index += 1;
        }
        writer
    }

    /// Sorts the files by the hash of their names; files of equal hash stay
    /// in their order.
    fn sort_files(&mut self)
        requires
            old(self)@.well_formed(),
        ensures
            final(self)@.well_formed(),
            crate::file_map::spec_is_stable_sort(
                old(self)@.files,
                final(self)@.files,
                old(self)@.hash_multiplier,
            ),
            final(self)@ == (SarcWriterView { files: final(self)@.files, ..old(self)@ }),
    {
        let multiplier = self.hash_multiplier;
        file_map_sort_by_hash(&mut self.file_map, multiplier);
    }

    /// Appends the image of the archive to `out`. The files are sorted by
    /// the hash of their names and the default alignment requirements are
    /// added on the way.
    pub fn write(&mut self, out: &mut Vec<u8>) -> (r: Result<(), SarcWriteError>)
        requires
            old(self)@.well_formed(),
        ensures
            final(self)@.well_formed(),
            spec_written(old(self)@, final(self)@),
            match r {
                Ok(()) => spec_write_outcome(old(self)@, final(self)@) is Ok && final(out)@ == old(
                    out,
                )@ + spec_write_outcome(old(self)@, final(self)@)->Ok_0,
                Err(e) => spec_write_outcome(old(self)@, final(self)@) == Err::<
                    Seq<u8>,
                    SarcWriteError,
                >(e) && final(out)@ == old(out)@,
            },
    {
        let image = self.write_to_bytes()?;
        write_bytes(image.as_slice(), out);
        Ok(())
    }

    /// Gives the image of the archive. The files are sorted by the hash of
    /// their names and the default alignment requirements are added on the
    /// way.
    pub fn write_to_bytes(&mut self) -> (r: Result<Vec<u8>, SarcWriteError>)
        requires
            old(self)@.well_formed(),
        ensures
            final(self)@.well_formed(),
            spec_written(old(self)@, final(self)@),
            match r {
                Ok(image) => spec_write_outcome(old(self)@, final(self)@) == Ok::<
                    Seq<u8>,
                    SarcWriteError,
                >(image@),
                Err(e) => spec_write_outcome(old(self)@, final(self)@) == Err::<
                    Seq<u8>,
                    SarcWriteError,
                >(e),
            },
    {
        self.sort_files();
        let ghost sorted = self@;
        proof {
            lemma_first_invalid_from(spec_default_requirements(sorted), 0);
        }
        if let Err(e) = self.add_default_alignments() {
            return Err(e);
        }
        let alignments = self.file_alignments()?;
        proof {
            lemma_alignments_valid(self@, self@.files.len() as int);
        }
        match self.plan(alignments) {
            Some(plan) => Ok(self.emit(&plan)),
            None => Err(SarcWriteError::TooLarge),
        }
    }
}

} // verus!
