//! The integer fields of an archive: how bytes stand for them in either byte
//! order, and the calls that read and write them.
use crate::Endian;
use binread::BinReaderExt;
use binwrite::BinWrite;
use std::io::Cursor;
use vstd::prelude::*;

verus! {

/// The 16-bit value of two bytes, most significant first.
pub open spec fn spec_u16_be(b0: u8, b1: u8) -> u16 {
    (b0 as int * 0x100 + b1 as int) as u16
}

/// The 32-bit value of four bytes, most significant first.
pub open spec fn spec_u32_be(b0: u8, b1: u8, b2: u8, b3: u8) -> u32 {
    (b0 as int * 0x100_0000 + b1 as int * 0x1_0000 + b2 as int * 0x100 + b3 as int) as u32
}

/// The 16-bit field that stands at `pos` in `bytes`, in the given byte order.
pub open spec fn spec_read_u16(endian: Endian, bytes: Seq<u8>, pos: int) -> u16
    recommends
        0 <= pos,
        pos + 2 <= bytes.len(),
{
    match endian {
        Endian::Big => spec_u16_be(bytes[pos], bytes[pos + 1]),
        Endian::Little => spec_u16_be(bytes[pos + 1], bytes[pos]),
    }
}

/// The 32-bit field that stands at `pos` in `bytes`, in the given byte order.
pub open spec fn spec_read_u32(endian: Endian, bytes: Seq<u8>, pos: int) -> u32
    recommends
        0 <= pos,
        pos + 4 <= bytes.len(),
{
    match endian {
        Endian::Big => spec_u32_be(bytes[pos], bytes[pos + 1], bytes[pos + 2], bytes[pos + 3]),
        Endian::Little => spec_u32_be(bytes[pos + 3], bytes[pos + 2], bytes[pos + 1], bytes[pos]),
    }
}

/// The byte order that a byte order mark at `pos` selects: `FE FF` is big
/// endian, `FF FE` little endian, and anything else is no mark.
pub open spec fn spec_mark_at(bytes: Seq<u8>, pos: int) -> Option<Endian> {
    if pos < 0 || pos + 2 > bytes.len() {
        None
    } else if bytes[pos] == 0xFE && bytes[pos + 1] == 0xFF {
        Some(Endian::Big)
    } else if bytes[pos] == 0xFF && bytes[pos + 1] == 0xFE {
        Some(Endian::Little)
    } else {
        None
    }
}

/// Reads the byte order mark at `pos`.
pub fn mark_at(data: &[u8], pos: usize) -> (mark: Option<Endian>)
    ensures
        mark == spec_mark_at(data@, pos as int),
{
    if pos >= data.len() || data.len() - pos < 2 {
        None
    } else if data[pos] == 0xFE && data[pos + 1] == 0xFF {
        Some(Endian::Big)
    } else if data[pos] == 0xFF && data[pos + 1] == 0xFE {
        Some(Endian::Little)
    } else {
        None
    }
}

/// The two bytes of a 16-bit value, most significant first.
pub open spec fn spec_u16_be_bytes(value: u16) -> Seq<u8> {
    seq![(value / 0x100) as u8, (value % 0x100) as u8]
}

/// The four bytes of a 32-bit value, most significant first.
pub open spec fn spec_u32_be_bytes(value: u32) -> Seq<u8> {
    seq![
        (value / 0x100_0000) as u8,
        (value / 0x1_0000 % 0x100) as u8,
        (value / 0x100 % 0x100) as u8,
        (value % 0x100) as u8,
    ]
}

/// The two bytes of a 16-bit value, least significant first.
pub open spec fn spec_u16_le_bytes(value: u16) -> Seq<u8> {
    seq![(value % 0x100) as u8, (value / 0x100) as u8]
}

/// The four bytes of a 32-bit value, least significant first.
pub open spec fn spec_u32_le_bytes(value: u32) -> Seq<u8> {
    seq![
        (value % 0x100) as u8,
        (value / 0x100 % 0x100) as u8,
        (value / 0x1_0000 % 0x100) as u8,
        (value / 0x100_0000) as u8,
    ]
}

/// The two bytes that stand for a 16-bit field in the given byte order.
pub open spec fn spec_u16_bytes(endian: Endian, value: u16) -> Seq<u8> {
    match endian {
        Endian::Big => spec_u16_be_bytes(value),
        Endian::Little => spec_u16_le_bytes(value),
    }
}

/// The four bytes that stand for a 32-bit field in the given byte order.
pub open spec fn spec_u32_bytes(endian: Endian, value: u32) -> Seq<u8> {
    match endian {
        Endian::Big => spec_u32_be_bytes(value),
        Endian::Little => spec_u32_le_bytes(value),
    }
}

/// The error type of the `binread` crate, carried through untouched.
#[verifier::external_type_specification]
#[verifier::external_body]
pub struct ExBinreadError(binread::Error);

/// Reads a `u16` with `binread::BinReaderExt::read_type` from a cursor over
/// `data` that stands at `pos`. The call takes the two bytes at `pos` in the
/// given byte order, and fails exactly when fewer than two bytes are left.
#[verifier::external_body]
pub(crate) fn read_u16(endian: Endian, data: &[u8], pos: usize) -> (r: Result<u16, binread::Error>)
    ensures
        r is Ok <==> pos + 2 <= data@.len(),
        r matches Ok(value) ==> value == spec_read_u16(endian, data@, pos as int),
{
    let mut reader = Cursor::new(data);
    reader.set_position(pos as u64);
    reader.read_type::<u16>(
        match endian {
            Endian::Big => binread::Endian::Big,
            Endian::Little => binread::Endian::Little,
        },
    )
}

/// Reads a `u32` with `binread::BinReaderExt::read_type` from a cursor over
/// `data` that stands at `pos`. The call takes the four bytes at `pos` in the
/// given byte order, and fails exactly when fewer than four bytes are left.
#[verifier::external_body]
pub(crate) fn read_u32(endian: Endian, data: &[u8], pos: usize) -> (r: Result<u32, binread::Error>)
    ensures
        r is Ok <==> pos + 4 <= data@.len(),
        r matches Ok(value) ==> value == spec_read_u32(endian, data@, pos as int),
{
    let mut reader = Cursor::new(data);
    reader.set_position(pos as u64);
    reader.read_type::<u32>(
        match endian {
            Endian::Big => binread::Endian::Big,
            Endian::Little => binread::Endian::Little,
        },
    )
}

/// Appends a `u16` to `out` with `binwrite::BinWrite::write_options`, which
/// hands the value's two bytes in the given byte order to the vector.
#[verifier::external_body]
pub(crate) fn write_u16(endian: Endian, value: u16, out: &mut Vec<u8>)
    ensures
        final(out)@ == old(out)@ + spec_u16_bytes(endian, value),
{
    let mut options = binwrite::WriterOption::default();
    options.endian = match endian {
        Endian::Big => binwrite::Endian::Big,
        Endian::Little => binwrite::Endian::Little,
    };
    value.write_options(out, &options).expect("a vector takes every write");
}

/// Appends a `u32` to `out` with `binwrite::BinWrite::write_options`, which
/// hands the value's four bytes in the given byte order to the vector.
#[verifier::external_body]
pub(crate) fn write_u32(endian: Endian, value: u32, out: &mut Vec<u8>)
    ensures
        final(out)@ == old(out)@ + spec_u32_bytes(endian, value),
{
    let mut options = binwrite::WriterOption::default();
    options.endian = match endian {
        Endian::Big => binwrite::Endian::Big,
        Endian::Little => binwrite::Endian::Little,
    };
    value.write_options(out, &options).expect("a vector takes every write");
}

/// Appends a run of bytes to `out` with `binwrite::BinWrite::write`, which
/// hands the bytes one after the other to the vector.
#[verifier::external_body]
pub(crate) fn write_bytes(bytes: &[u8], out: &mut Vec<u8>)
    ensures
        final(out)@ == old(out)@ + bytes@,
{
    bytes.write(out).expect("a vector takes every write");
}

/// Reading back the bytes of a 16-bit field gives the field.
pub proof fn lemma_u16_bytes_read(endian: Endian, value: u16)
    ensures
        spec_u16_bytes(endian, value).len() == 2,
        spec_read_u16(endian, spec_u16_bytes(endian, value), 0) == value,
{
}

/// Reading back the bytes of a 32-bit field gives the field.
pub proof fn lemma_u32_bytes_read(endian: Endian, value: u32)
    ensures
        spec_u32_bytes(endian, value).len() == 4,
        spec_read_u32(endian, spec_u32_bytes(endian, value), 0) == value,
{
}

} // verus!
