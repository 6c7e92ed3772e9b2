//! The reader: an archive image is checked once, and files are then looked
//! up in it by index or by name without copying.
use crate::codec::read_u16;
use crate::codec::read_u32;
use crate::codec::spec_read_u16;
use crate::codec::spec_read_u32;
use crate::Endian;
use crate::text::byte_string;
use crate::text::decimal_string;
use crate::text::spec_byte_chars;
use crate::text::spec_decimal;
use vstd::pervasive::unreached;
use vstd::prelude::*;
use vstd::slice::slice_subrange;
use vstd::string::StringSliceAdditionalSpecFns;

verus! {

/// The error type of `std::str::from_utf8`, carried through untouched.
#[verifier::external_type_specification]
#[verifier::external_body]
pub struct ExUtf8Error(std::str::Utf8Error);

/// What can go wrong when an archive is read.
#[derive(Debug)]
pub enum SarcError {
    /// The index is not below the number of files.
    OutOfRange(usize),
    /// A field does not hold what the format asks for: the field's name and
    /// the value found.
    InvalidData(String, String),
    /// A name runs to the end of the image without a terminating zero.
    UnterminatedStringError,
    /// A name is not UTF-8.
    InvalidFileName(std::str::Utf8Error),
    /// The image ends before a field, or its byte order mark is unknown.
    ParseError(binread::Error),
}

/// A reader's error as a plain value.
pub enum Fault {
    /// The index is not below the number of files.
    OutOfRange(nat),
    /// A field holds the wrong value: the field's name and the value found.
    InvalidData(Seq<char>, Seq<char>),
    /// A name has no terminating zero.
    UnterminatedString,
    /// A name is not UTF-8.
    InvalidFileName,
    /// The image ends before a field, or its byte order mark is unknown.
    Parse,
}

impl View for SarcError {
    type V = Fault;

    open spec fn view(&self) -> Fault {
        match self {
            SarcError::OutOfRange(index) => Fault::OutOfRange(*index as nat),
            SarcError::InvalidData(field, value) => Fault::InvalidData(field@, value@),
            SarcError::UnterminatedStringError => Fault::UnterminatedString,
            SarcError::InvalidFileName(_) => Fault::InvalidFileName,
            SarcError::ParseError(_) => Fault::Parse,
        }
    }
}

/// What the three headers of a well-formed image say.
pub struct Header {
    /// The byte order of the image's fields.
    pub endian: Endian,
    /// The number of entries in the file allocation table.
    pub num_files: u16,
    /// The multiplier of the name hash.
    pub hash_multiplier: u32,
    /// Where the data region starts in the image.
    pub data_offset: u32,
}

/// The bytes `"SARC"`.
pub open spec fn spec_sarc_magic() -> Seq<u8> {
    seq![0x53u8, 0x41u8, 0x52u8, 0x43u8]
}

/// The bytes `"SFAT"`.
pub open spec fn spec_sfat_magic() -> Seq<u8> {
    seq![0x53u8, 0x46u8, 0x41u8, 0x54u8]
}

/// The bytes `"SFNT"`.
pub open spec fn spec_sfnt_magic() -> Seq<u8> {
    seq![0x53u8, 0x46u8, 0x4Eu8, 0x54u8]
}

/// Whether the four bytes of `magic` stand at `pos` in `bytes`.
pub open spec fn spec_magic_at(bytes: Seq<u8>, pos: int, magic: Seq<u8>) -> bool {
    0 <= pos && pos + 4 <= bytes.len() && bytes.subrange(pos, pos + 4) == magic
}

/// The byte order of an image, from the mark at offset 6.
pub open spec fn spec_byte_order(bytes: Seq<u8>) -> Option<Endian> {
    crate::codec::spec_mark_at(bytes, 6)
}

/// Where the name table starts in an image of `num_files` files: behind the
/// two leading headers, the table's entries and the name table's own header.
pub open spec fn spec_names_offset(num_files: int) -> int {
    0x20 + 0x10 * num_files + 0x08
}

/// The outcome of opening an image: its header fields, or the first thing
/// that is wrong with it.
pub open spec fn spec_open(bytes: Seq<u8>) -> Result<Header, Fault> {
    match spec_byte_order(bytes) {
        None => Err(Fault::Parse),
        Some(endian) => {
            let num_files = spec_read_u16(endian, bytes, 0x1A);
            let fnt = 0x20 + 0x10 * num_files;
            let data_offset = spec_read_u32(endian, bytes, 0x0C);
            if bytes.len() < 0x14 {
                Err(Fault::Parse)
            } else if !spec_magic_at(bytes, 0, spec_sarc_magic()) {
                Err(Fault::InvalidData("SARC magic"@, spec_byte_chars(bytes.subrange(0, 4))))
            } else if spec_read_u16(endian, bytes, 0x10) != 0x0100 {
                Err(
                    Fault::InvalidData(
                        "SARC version"@,
                        spec_decimal(spec_read_u16(endian, bytes, 0x10) as nat),
                    ),
                )
            } else if spec_read_u16(endian, bytes, 0x04) != 0x14 {
                Err(
                    Fault::InvalidData(
                        "SARC header size"@,
                        spec_decimal(spec_read_u16(endian, bytes, 0x04) as nat),
                    ),
                )
            } else if bytes.len() < 0x20 {
                Err(Fault::Parse)
            } else if !spec_magic_at(bytes, 0x14, spec_sfat_magic()) {
                Err(Fault::InvalidData("SFAT magic"@, spec_byte_chars(bytes.subrange(0x14, 0x18))))
            } else if spec_read_u16(endian, bytes, 0x18) != 0x0C {
                Err(
                    Fault::InvalidData(
                        "SFAT header size"@,
                        spec_decimal(spec_read_u16(endian, bytes, 0x18) as nat),
                    ),
                )
            } else if num_files >= 0x4000 {
                Err(Fault::InvalidData("SFAT file count"@, spec_decimal(num_files as nat)))
            } else if bytes.len() < fnt + 0x08 {
                Err(Fault::Parse)
            } else if !spec_magic_at(bytes, fnt, spec_sfnt_magic()) {
                Err(Fault::InvalidData("SFNT magic"@, spec_byte_chars(bytes.subrange(fnt, fnt + 4))))
            } else if spec_read_u16(endian, bytes, fnt + 4) != 0x08 {
                Err(
                    Fault::InvalidData(
                        "SFNT header size"@,
                        spec_decimal(spec_read_u16(endian, bytes, fnt + 4) as nat),
                    ),
                )
            } else if data_offset < fnt + 0x08 {
                Err(Fault::InvalidData("name table offset"@, spec_decimal((fnt + 0x08) as nat)))
            } else {
                Ok(
                    Header {
                        endian,
                        num_files,
                        hash_multiplier: spec_read_u32(endian, bytes, 0x1C),
                        data_offset,
                    },
                )
            }
        },
    }
}

/// Builds the error that `binread` gives when no variant of an enum matches
/// the value read at `pos`: `binread::Error::NoVariantMatch`.
#[verifier::external_body]
fn no_variant_match(pos: u64) -> binread::Error {
    binread::Error::NoVariantMatch { pos }
}

/// Reads a 16-bit field, with the reader's error for an image that ends
/// before it.
fn field_u16(endian: Endian, data: &[u8], pos: usize) -> (r: Result<u16, SarcError>)
    ensures
        r is Ok <==> pos + 2 <= data@.len(),
        r matches Ok(value) ==> value == spec_read_u16(endian, data@, pos as int),
        r matches Err(e) ==> e@ == Fault::Parse,
{
    match read_u16(endian, data, pos) {
        Ok(value) => Ok(value),
        Err(e) => Err(SarcError::ParseError(e)),
    }
}

/// Reads a 32-bit field, with the reader's error for an image that ends
/// before it.
fn field_u32(endian: Endian, data: &[u8], pos: usize) -> (r: Result<u32, SarcError>)
    ensures
        r is Ok <==> pos + 4 <= data@.len(),
        r matches Ok(value) ==> value == spec_read_u32(endian, data@, pos as int),
        r matches Err(e) ==> e@ == Fault::Parse,
{
    match read_u32(endian, data, pos) {
        Ok(value) => Ok(value),
        Err(e) => Err(SarcError::ParseError(e)),
    }
}

/// Tells whether the four given bytes stand at `pos` in `data`.
pub fn magic_at(data: &[u8], pos: usize, b0: u8, b1: u8, b2: u8, b3: u8) -> (found: bool)
    ensures
        found == spec_magic_at(data@, pos as int, seq![b0, b1, b2, b3]),
{
    if pos > data.len() || data.len() - pos < 4 {
        return false;
    }
    let found = data[pos] == b0 && data[pos + 1] == b1 && data[pos + 2] == b2 && data[pos + 3]
        == b3;
    proof {
        let window = data@.subrange(pos as int, pos + 4);
        let magic = seq![b0, b1, b2, b3];
        if found {
            assert(window =~= magic);
        }
    }
    found
}

/// The error for a section whose magic is not the expected one: it tells
/// the bytes found in its place.
fn bad_magic(field: &str, found: &[u8]) -> (e: SarcError)
    ensures
        e@ == Fault::InvalidData(field@, spec_byte_chars(found@)),
{
    SarcError::InvalidData(field.to_owned(), byte_string(found))
}

/// The error for a numeric field that holds the wrong value.
fn bad_value(field: &str, value: u32) -> (e: SarcError)
    ensures
        e@ == Fault::InvalidData(field@, spec_decimal(value as nat)),
{
    SarcError::InvalidData(field.to_owned(), decimal_string(value))
}

/// One entry of the file allocation table.
pub struct FatEntry {
    /// The hash of the file's name.
    pub name_hash: u32,
    /// Zero for a file without a name; else a flag in the high byte and, in
    /// the low 24 bits, the start of the name in four-byte steps.
    pub rel_name_opt_offset: u32,
    /// Where the payload starts, counted from the start of the data region.
    pub data_begin: u32,
    /// Where the payload ends, counted from the start of the data region.
    pub data_end: u32,
}

/// The table entry with the given index, as the bytes of the image give it.
pub open spec fn spec_fat_entry(endian: Endian, bytes: Seq<u8>, index: int) -> FatEntry {
    let at = 0x20 + 0x10 * index;
    FatEntry {
        name_hash: spec_read_u32(endian, bytes, at),
        rel_name_opt_offset: spec_read_u32(endian, bytes, at + 4),
        data_begin: spec_read_u32(endian, bytes, at + 8),
        data_end: spec_read_u32(endian, bytes, at + 12),
    }
}

/// The position of the first zero byte at or behind `from`, or the length of
/// `bytes` where there is none.
pub open spec fn spec_first_zero(bytes: Seq<u8>, from: int) -> int
    decreases bytes.len() - from,
{
    if from >= bytes.len() {
        bytes.len() as int
    } else if bytes[from] == 0 {
        from
    } else {
        spec_first_zero(bytes, from + 1)
    }
}

/// Where the name of a table entry starts in the image: the low 24 bits of
/// its name field count four-byte steps from the start of the name table.
pub open spec fn spec_name_start(num_files: int, entry: FatEntry) -> int {
    spec_names_offset(num_files) + (entry.rel_name_opt_offset & 0x00FF_FFFF) * 4
}

/// The name of a table entry: none where its name field is zero, else the
/// UTF-8 text that runs from the name's start to the next zero byte.
pub open spec fn spec_entry_name(bytes: Seq<u8>, num_files: int, entry: FatEntry) -> Result<
    Option<Seq<char>>,
    Fault,
> {
    if entry.rel_name_opt_offset == 0 {
        Ok(None)
    } else {
        let start = spec_name_start(num_files, entry);
        let end = spec_first_zero(bytes, start);
        if end >= bytes.len() {
            Err(Fault::UnterminatedString)
        } else if !vstd::utf8::valid_utf8(bytes.subrange(start, end)) {
            Err(Fault::InvalidFileName)
        } else {
            Ok(Some(vstd::utf8::decode_utf8(bytes.subrange(start, end))))
        }
    }
}

/// A file of an archive as plain values: its name, if it has one, and its
/// payload.
pub struct FileView {
    /// The name, where the file has one.
    pub name: Option<Seq<char>>,
    /// The payload.
    pub data: Seq<u8>,
}

/// The file with the given index in a well-formed image, or what keeps it
/// from being read.
pub open spec fn spec_file_at(bytes: Seq<u8>, index: int) -> Result<FileView, Fault>
    recommends
        spec_open(bytes) is Ok,
{
    let header = spec_open(bytes)->Ok_0;
    let entry = spec_fat_entry(header.endian, bytes, index);
    if index < 0 || index >= header.num_files {
        Err(Fault::OutOfRange(index as nat))
    } else {
        match spec_entry_name(bytes, header.num_files as int, entry) {
            Err(fault) => Err(fault),
            Ok(name) => {
                if entry.data_begin > entry.data_end {
                    Err(
                        Fault::InvalidData(
                            "file data begin"@,
                            spec_decimal(entry.data_begin as nat),
                        ),
                    )
                } else if header.data_offset + entry.data_end > bytes.len() {
                    Err(Fault::InvalidData("file data end"@, spec_decimal(entry.data_end as nat)))
                } else {
                    Ok(
                        FileView {
                            name,
                            data: bytes.subrange(
                                header.data_offset + entry.data_begin,
                                header.data_offset + entry.data_end,
                            ),
                        },
                    )
                }
            },
        }
    }
}

/// The table index that a search for `hash` ends on: the table is halved
/// between `lo` and `hi` until the entry in the middle has the hash.
pub open spec fn spec_find(endian: Endian, bytes: Seq<u8>, hash: u32, lo: int, hi: int) -> Option<
    int,
>
    decreases hi - lo,
{
    if lo >= hi {
        None
    } else {
        let mid = (lo + hi - 1) / 2;
        let found = spec_fat_entry(endian, bytes, mid).name_hash;
        if hash < found {
            spec_find(endian, bytes, hash, lo, mid)
        } else if hash > found {
            spec_find(endian, bytes, hash, mid + 1, hi)
        } else {
            Some(mid)
        }
    }
}

/// The outcome of a lookup by name in a well-formed image.
pub open spec fn spec_get_file(bytes: Seq<u8>, name: Seq<char>) -> Result<Option<FileView>, Fault>
    recommends
        spec_open(bytes) is Ok,
{
    let header = spec_open(bytes)->Ok_0;
    let hash = crate::spec_hash_name(header.hash_multiplier, name);
    match spec_find(header.endian, bytes, hash, 0, header.num_files as int) {
        None => Ok(None),
        Some(index) => match spec_file_at(bytes, index) {
            Ok(file) => Ok(Some(file)),
            Err(fault) => Err(fault),
        },
    }
}

/// The files with an index below `count` that can be read, in table order.
pub open spec fn spec_files(bytes: Seq<u8>, count: int) -> Seq<FileView>
    recommends
        spec_open(bytes) is Ok,
    decreases count,
{
    if count <= 0 {
        Seq::empty()
    } else {
        match spec_file_at(bytes, count - 1) {
            Ok(file) => spec_files(bytes, count - 1).push(file),
            Err(_) => spec_files(bytes, count - 1),
        }
    }
}

/// The largest of 4, 2 and 1 that divides the absolute start of every
/// payload with a table index below `count`.
pub open spec fn spec_min_alignment(bytes: Seq<u8>, count: int) -> int
    recommends
        spec_open(bytes) is Ok,
    decreases count,
{
    if count <= 0 {
        4
    } else {
        let header = spec_open(bytes)->Ok_0;
        let start = header.data_offset + spec_fat_entry(header.endian, bytes, count - 1).data_begin;
        let rest = spec_min_alignment(bytes, count - 1);
        if start % 4 == 0 {
            rest
        } else if start % 2 == 0 {
            if rest < 2 { rest } else { 2 }
        } else {
            1
        }
    }
}

/// A file of an archive: its name, if it has one, and its payload, both
/// borrowed from the image.
#[derive(Debug, Clone, Copy)]
pub struct File<'a> {
    /// The name, where the file has one.
    pub name: Option<&'a str>,
    /// The payload.
    pub data: &'a [u8],
}

impl<'a> View for File<'a> {
    type V = FileView;

    open spec fn view(&self) -> FileView {
        FileView {
            name: match self.name {
                Some(name) => Some(name@),
                None => None,
            },
            data: self.data@,
        }
    }
}

/// Reads text with `std::str::from_utf8`, which accepts exactly the byte
/// strings that are UTF-8 and hands back the same bytes as text.
#[verifier::external_body]
fn str_from_utf8<'a>(bytes: &'a [u8]) -> (r: Result<&'a str, std::str::Utf8Error>)
    ensures
        r is Ok <==> vstd::utf8::valid_utf8(bytes@),
        r matches Ok(text) ==> text.spec_bytes() == bytes@,
{
    std::str::from_utf8(bytes)
}

/// Finds the first zero byte at or behind `from`.
fn find_null(data: &[u8], from: usize) -> (end: usize)
    ensures
        end == spec_first_zero(data@, from as int),
        from <= data@.len() ==> from <= end <= data@.len(),
{
    let mut at: usize = from;
    while at < data.len() && data[at] != 0
        invariant
            from <= at,
            spec_first_zero(data@, from as int) == spec_first_zero(data@, at as int),
        decreases data@.len() - at,
    {
        at += 1;
    }
    if at >= data.len() {
        data.len()
    } else {
        at
    }
}

/// Tells whether two byte strings hold the same bytes.
pub fn bytes_equal(a: &[u8], b: &[u8]) -> (equal: bool)
    ensures
        equal == (a@ == b@),
{
    if a.len() != b.len() {
        return false;
    }
    let mut i: usize = 0;
    while i < a.len()
        invariant
            i <= a.len(),
            a.len() == b.len(),
            a@.take(i as int) == b@.take(i as int),
        decreases a.len() - i,
    {
        if a[i] != b[i] {
            return false;
        }
        i += 1;
    }
    assert(a@.take(i as int) == a@);
    assert(b@.take(i as int) == b@);
    true
}

/// Tells whether two texts are the same.
pub fn str_equal(a: &str, b: &str) -> (equal: bool)
    ensures
        equal == (a@ == b@),
{
    broadcast use vstd::utf8::encode_utf8_decode_utf8;

    let equal = bytes_equal(a.as_bytes(), b.as_bytes());
    proof {
        if equal {
            assert(vstd::utf8::decode_utf8(vstd::utf8::encode_utf8(a@)) == a@);
        }
    }
    equal
}

impl<'a> File<'a> {
    /// Tells whether two files have the same name and the same payload.
    pub fn same_as(&self, other: &File<'_>) -> (equal: bool)
        ensures
            equal == (self@ == other@),
    {
        let names = match (self.name, other.name) {
            (Some(a), Some(b)) => str_equal(a, b),
            (None, None) => true,
            _ => false,
        };
        names && bytes_equal(self.data, other.data)
    }
}

impl<'a> PartialEq for File<'a> {
    /// Returns true if and only if name and payload are the same.
    fn eq(&self, other: &Self) -> (equal: bool) {
        self.same_as(other)
    }
}

impl<'a> vstd::std_specs::cmp::PartialEqSpecImpl for File<'a> {
    open spec fn obeys_eq_spec() -> bool {
        true
    }

    open spec fn eq_spec(&self, other: &Self) -> bool {
        self@ == other@
    }
}

/// A SARC archive reader over a borrowed image.
pub struct Sarc<'a> {
    num_files: u16,
    entries_offset: u16,
    hash_multiplier: u32,
    data_offset: u32,
    names_offset: u32,
    endian: Endian,
    data: &'a [u8],
}

impl<'a> View for Sarc<'a> {
    type V = Seq<u8>;

    /// The image that the reader was opened on.
    closed spec fn view(&self) -> Seq<u8> {
        self.data@
    }
}

impl<'a> Sarc<'a> {
    /// The fields agree with what the image says.
    #[verifier::type_invariant]
    closed spec fn well_formed(&self) -> bool {
        &&& spec_open(self.data@) == Ok::<Header, Fault>(
            Header {
                endian: self.endian,
                num_files: self.num_files,
                hash_multiplier: self.hash_multiplier,
                data_offset: self.data_offset,
            },
        )
        &&& self.entries_offset == 0x20
        &&& self.names_offset == spec_names_offset(self.num_files as int)
    }

    /// Parses a SARC archive from binary data.
    pub fn new(data: &'a [u8]) -> (r: Result<Sarc<'a>, SarcError>)
        ensures
            match r {
                Ok(sarc) => sarc@ == data@ && spec_open(data@) is Ok,
                Err(e) => spec_open(data@) == Err::<Header, Fault>(e@),
            },
    {
        let mark = field_u16(Endian::Big, data, 6)?;
        let endian = if mark == 0xFEFF {
            Endian::Big
        } else if mark == 0xFFFE {
            Endian::Little
        } else {
            return Err(SarcError::ParseError(no_variant_match(6)));
        };
        // the archive header ends with a reserved field
        let _reserved = field_u16(endian, data, 0x12)?;
        if !magic_at(data, 0, 0x53, 0x41, 0x52, 0x43) {
            return Err(bad_magic("SARC magic", slice_subrange(data, 0, 4)));
        }
        let version = field_u16(endian, data, 0x10)?;
        if version != 0x0100 {
            return Err(bad_value("SARC version", version as u32));
        }
        let header_size = field_u16(endian, data, 0x04)?;
        if header_size != 0x14 {
            return Err(bad_value("SARC header size", header_size as u32));
        }
        let data_offset = field_u32(endian, data, 0x0C)?;

        let hash_multiplier = field_u32(endian, data, 0x1C)?;
        if !magic_at(data, 0x14, 0x53, 0x46, 0x41, 0x54) {
            return Err(bad_magic("SFAT magic", slice_subrange(data, 0x14, 0x18)));
        }
        let fat_header_size = field_u16(endian, data, 0x18)?;
        if fat_header_size != 0x0C {
            return Err(bad_value("SFAT header size", fat_header_size as u32));
        }
        let num_files = field_u16(endian, data, 0x1A)?;
        if (num_files >> 0xE) != 0 {
            assert(num_files >> 0xE != 0 ==> num_files >= 0x4000) by (bit_vector);
            return Err(bad_value("SFAT file count", num_files as u32));
        }
        assert(num_files >> 0xE == 0 ==> num_files < 0x4000) by (bit_vector);

        let entries_offset: u16 = 0x20;
        let fnt_header_offset: usize = entries_offset as usize + 0x10 * (num_files as usize);
        // the header of the name table ends with a reserved field
        let _reserved = field_u16(endian, data, fnt_header_offset + 6)?;
        if !magic_at(data, fnt_header_offset, 0x53, 0x46, 0x4E, 0x54) {
            return Err(
                bad_magic(
                    "SFNT magic",
                    slice_subrange(data, fnt_header_offset, fnt_header_offset + 4),
                ),
            );
        }
        let fnt_header_size = field_u16(endian, data, fnt_header_offset + 4)?;
        if fnt_header_size != 0x08 {
            return Err(bad_value("SFNT header size", fnt_header_size as u32));
        }
        let names_offset: u32 = (fnt_header_offset + 8) as u32;
        if data_offset < names_offset {
            return Err(bad_value("name table offset", names_offset));
        }
        Ok(Sarc { data, data_offset, endian, entries_offset, num_files, hash_multiplier, names_offset })
    }

    /// The header fields of the image.
    pub open spec fn header(&self) -> Header {
        spec_open(self@)->Ok_0
    }

    /// Get the number of files that are stored in the archive.
    pub fn file_count(&self) -> (count: usize)
        ensures
            spec_open(self@) is Ok,
            count == self.header().num_files,
            count < 0x4000,
    {
        proof {
            use_type_invariant(self);
        }
        self.num_files as usize
    }

    /// Get the offset to the beginning of file data.
    pub fn data_offset(&self) -> (offset: usize)
        ensures
            spec_open(self@) is Ok,
            offset == self.header().data_offset,
            offset >= spec_names_offset(self.header().num_files as int),
    {
        proof {
            use_type_invariant(self);
        }
        self.data_offset as usize
    }

    /// Get the archive endianness.
    pub fn endian(&self) -> (endian: Endian)
        ensures
            spec_open(self@) is Ok,
            endian == self.header().endian,
            Some(endian) == spec_byte_order(self@),
    {
        proof {
            use_type_invariant(self);
        }
        self.endian
    }

    /// Reads the table entry with the given index.
    fn entry_at(&self, index: usize) -> (entry: FatEntry)
        requires
            index < self.header().num_files,
        ensures
            entry == spec_fat_entry(self.header().endian, self@, index as int),
    {
        proof {
            use_type_invariant(self);
        }
        let at: usize = self.entries_offset as usize + 0x10 * index;
        let name_hash = read_u32(self.endian, self.data, at);
        let rel_name_opt_offset = read_u32(self.endian, self.data, at + 4);
        let data_begin = read_u32(self.endian, self.data, at + 8);
        let data_end = read_u32(self.endian, self.data, at + 12);
        match (name_hash, rel_name_opt_offset, data_begin, data_end) {
            (Ok(name_hash), Ok(rel_name_opt_offset), Ok(data_begin), Ok(data_end)) => FatEntry {
                name_hash,
                rel_name_opt_offset,
                data_begin,
                data_end,
            },
            // the table lies within the image
            _ => unreached(),
        }
    }

    /// Reads the name of a table entry.
    fn name_of(&self, entry: &FatEntry) -> (r: Result<Option<&'a str>, SarcError>)
        ensures
            match r {
                Ok(Some(name)) => spec_entry_name(self@, self.header().num_files as int, *entry)
                    == Ok::<Option<Seq<char>>, Fault>(Some(name@)),
                Ok(None) => spec_entry_name(self@, self.header().num_files as int, *entry) == Ok::<
                    Option<Seq<char>>,
                    Fault,
                >(None),
                Err(e) => spec_entry_name(self@, self.header().num_files as int, *entry) == Err::<
                    Option<Seq<char>>,
                    Fault,
                >(e@),
            },
    {
        broadcast use vstd::utf8::encode_utf8_decode_utf8;

        proof {
            use_type_invariant(self);
        }
        if entry.rel_name_opt_offset == 0 {
            return Ok(None);
        }
        let field: u32 = entry.rel_name_opt_offset;
        let low: u32 = field & 0x00FF_FFFF;
        assert(low <= 0x00FF_FFFF) by (bit_vector)
            requires
                low == field & 0x00FF_FFFF,
        ;
        let start: usize = self.names_offset as usize + (low as usize) * 4;
        let end = find_null(self.data, start);
        if end >= self.data.len() {
            return Err(SarcError::UnterminatedStringError);
        }
        match str_from_utf8(slice_subrange(self.data, start, end)) {
            Ok(name) => {
                Ok(Some(name))
            },
            Err(e) => Err(SarcError::InvalidFileName(e)),
        }
    }

    /// Get a file by index. Returns an error if the index is not below the
    /// file count, or if the entry's name or payload cannot be read.
    pub fn file_at(&self, index: usize) -> (r: Result<File<'a>, SarcError>)
        ensures
            match r {
                Ok(file) => spec_file_at(self@, index as int) == Ok::<FileView, Fault>(file@),
                Err(e) => spec_file_at(self@, index as int) == Err::<FileView, Fault>(e@),
            },
    {
        proof {
            use_type_invariant(self);
        }
        if index >= self.num_files as usize {
            return Err(SarcError::OutOfRange(index));
        }
        let entry = self.entry_at(index);
        let name = self.name_of(&entry)?;
        if entry.data_begin > entry.data_end {
            return Err(bad_value("file data begin", entry.data_begin));
        }
        let begin: u64 = self.data_offset as u64 + entry.data_begin as u64;
        let end: u64 = self.data_offset as u64 + entry.data_end as u64;
        if end > self.data.len() as u64 {
            return Err(bad_value("file data end", entry.data_end));
        }
        Ok(File { name, data: slice_subrange(self.data, begin as usize, end as usize) })
    }

    /// Get a file by name: the table is searched for the hash of the name.
    pub fn get_file(&self, file: &str) -> (r: Result<Option<File<'a>>, SarcError>)
        ensures
            match r {
                Ok(Some(found)) => spec_get_file(self@, file@) == Ok::<Option<FileView>, Fault>(
                    Some(found@),
                ),
                Ok(None) => spec_get_file(self@, file@) == Ok::<Option<FileView>, Fault>(None),
                Err(e) => spec_get_file(self@, file@) == Err::<Option<FileView>, Fault>(e@),
            },
    {
        proof {
            use_type_invariant(self);
        }
        let needle_hash = crate::hash_name(self.hash_multiplier, file);
        let mut lo: usize = 0;
        let mut hi: usize = self.num_files as usize;
        while lo < hi
            invariant
                lo <= hi <= self.header().num_files,
                self.header().endian == self.endian,
                needle_hash == crate::spec_hash_name(self.header().hash_multiplier, file@),
                spec_find(self.endian, self@, needle_hash, lo as int, hi as int) == spec_find(
                    self.endian,
                    self@,
                    needle_hash,
                    0,
                    self.header().num_files as int,
                ),
            decreases hi - lo,
        {
            let mid: usize = (lo + hi - 1) / 2;
            let entry = self.entry_at(mid);
            if needle_hash < entry.name_hash {
                hi = mid;
            } else if needle_hash > entry.name_hash {
                lo = mid + 1;
            } else {
                return match self.file_at(mid) {
                    Ok(found) => Ok(Some(found)),
                    Err(e) => Err(e),
                };
            }
        }
        Ok(None)
    }

    /// The files of the archive that can be read, in table order.
    pub fn files(&self) -> (files: Vec<File<'a>>)
        ensures
            files@.map_values(|file: File<'a>| file@) == spec_files(
                self@,
                self.header().num_files as int,
            ),
    {
        proof {
            use_type_invariant(self);
        }
        let mut files: Vec<File<'a>> = Vec::new();
        let mut index: usize = 0;
        let count = self.num_files as usize;
        while index < count
            invariant
                index <= count,
                count == self.header().num_files,
                files@.map_values(|file: File<'a>| file@) == spec_files(self@, index as int),
            decreases count - index,
        {
            match self.file_at(index) {
                Ok(file) => {
                    files.push(file);
                },
                Err(_) => {},
            }
            index += 1;
        }
        files
    }

    /// Guess the minimum data alignment for files that are stored in the
    /// archive: the greatest common divisor of 4 and the absolute start of
    /// every payload.
    pub fn guess_min_alignment(&self) -> (alignment: usize)
        ensures
            alignment == spec_min_alignment(self@, self.header().num_files as int),
            alignment == 1 || alignment == 2 || alignment == 4,
    {
        proof {
            use_type_invariant(self);
        }
        let mut gcd: u64 = 4;
        let mut index: usize = 0;
        let count = self.num_files as usize;
        while index < count
            invariant
                index <= count,
                count == self.header().num_files,
                self.header().endian == self.endian,
                self.header().data_offset == self.data_offset,
                gcd == spec_min_alignment(self@, index as int),
                gcd == 1 || gcd == 2 || gcd == 4,
            decreases count - index,
        {
            let entry = self.entry_at(index);
            let start: u64 = self.data_offset as u64 + entry.data_begin as u64;
            let next = crate::alignment::num_gcd(gcd, start);
            proof {
                crate::alignment::lemma_gcd_with_small(next as int, gcd as int, start as int);
            }
            gcd = next;
            index += 1;
        }
        proof {
            crate::alignment::lemma_small_alignments_are_valid();
        }
        if !crate::is_valid_alignment(gcd as usize) {
            return 4;
        }
        gcd as usize
    }

    /// Returns true if both archives hold the same number of files and
    /// their readable files agree pairwise, in table order.
    pub fn are_files_equal(sarc1: &Sarc, sarc2: &Sarc) -> (equal: bool)
        ensures
            equal == (sarc1.header().num_files == sarc2.header().num_files && {
                let files1 = spec_files(sarc1@, sarc1.header().num_files as int);
                let files2 = spec_files(sarc2@, sarc2.header().num_files as int);
                forall|i: int| 0 <= i < files1.len() && i < files2.len() ==> files1[i] == files2[i]
            }),
    {
        if sarc1.file_count() != sarc2.file_count() {
            return false;
        }
        let files1 = sarc1.files();
        let files2 = sarc2.files();
        let ghost views1 = spec_files(sarc1@, sarc1.header().num_files as int);
        let ghost views2 = spec_files(sarc2@, sarc2.header().num_files as int);
        let mut i: usize = 0;
        while i < files1.len() && i < files2.len()
            invariant
                files1@.map_values(|file: File| file@) == views1,
                files2@.map_values(|file: File| file@) == views2,
                views1 == spec_files(sarc1@, sarc1.header().num_files as int),
                views2 == spec_files(sarc2@, sarc2.header().num_files as int),
                forall|j: int| 0 <= j < i ==> views1[j] == views2[j],
            decreases files1.len() - i,
        {
            assert(views1[i as int] == files1@[i as int]@);
            if !files1[i].same_as(&files2[i]) {
                return false;
            }
            i += 1;
        }
        true
    }

    /// Returns true if and only if the raw archive data is identical.
    pub fn same_image(&self, other: &Sarc) -> (equal: bool)
        ensures
            equal == (self@ == other@),
    {
        bytes_equal(self.data, other.data)
    }
}

impl<'a> PartialEq for Sarc<'a> {
    /// Returns true if and only if the raw archive data is identical.
    fn eq(&self, other: &Self) -> (equal: bool) {
        bytes_equal(self.data, other.data)
    }
}

impl<'a> vstd::std_specs::cmp::PartialEqSpecImpl for Sarc<'a> {
    open spec fn obeys_eq_spec() -> bool {
        true
    }

    open spec fn eq_spec(&self, other: &Self) -> bool {
        self@ == other@
    }
}

} // verus!
