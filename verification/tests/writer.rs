use sarc_rs::Endian;
use sarc_rs::Sarc;
use sarc_rs::SarcWriteError;
use sarc_rs::SarcWriter;

fn single_file_image() -> Vec<u8> {
    vec![0x53, 0x41, 0x52, 0x43, 0x00, 0x14, 0xFE, 0xFF, 0x00, 0x00, 0x00, 0x46, 0x00, 0x00, 0x00, 0x44, 0x01, 0x00, 0x00, 0x00, 0x53, 0x46, 0x41, 0x54, 0x00, 0x0C, 0x00, 0x01, 0x00, 0x00, 0x00, 0x65, 0x49, 0xC6, 0x77, 0x7E, 0x01, 0x00, 0x00, 0x00, 0x00, 0x00, 0x00, 0x00, 0x00, 0x00, 0x00, 0x02, 0x53, 0x46, 0x4E, 0x54, 0x00, 0x08, 0x00, 0x00, 0x61, 0x2E, 0x62, 0x67, 0x64, 0x61, 0x74, 0x61, 0x00, 0x00, 0x00, 0x00, 0x68, 0x69]
}

fn three_files_image() -> Vec<u8> {
    vec![0x53, 0x41, 0x52, 0x43, 0x14, 0x00, 0xFF, 0xFE, 0x87, 0x00, 0x00, 0x00, 0x74, 0x00, 0x00, 0x00, 0x00, 0x01, 0x00, 0x00, 0x53, 0x46, 0x41, 0x54, 0x0C, 0x00, 0x03, 0x00, 0x65, 0x00, 0x00, 0x00, 0xA7, 0x7A, 0x89, 0x5C, 0x00, 0x00, 0x00, 0x01, 0x00, 0x00, 0x00, 0x00, 0x05, 0x00, 0x00, 0x00, 0x98, 0x50, 0xBD, 0x62, 0x02, 0x00, 0x00, 0x01, 0x08, 0x00, 0x00, 0x00, 0x0E, 0x00, 0x00, 0x00, 0xAC, 0xD7, 0xDC, 0x67, 0x04, 0x00, 0x00, 0x01, 0x10, 0x00, 0x00, 0x00, 0x13, 0x00, 0x00, 0x00, 0x53, 0x46, 0x4E, 0x54, 0x08, 0x00, 0x00, 0x00, 0x61, 0x2E, 0x74, 0x78, 0x74, 0x00, 0x00, 0x00, 0x62, 0x2E, 0x74, 0x78, 0x74, 0x00, 0x00, 0x00, 0x64, 0x69, 0x72, 0x2F, 0x63, 0x2E, 0x62, 0x69, 0x6E, 0x00, 0x00, 0x00, 0x68, 0x65, 0x6C, 0x6C, 0x6F, 0x00, 0x00, 0x00, 0x77, 0x6F, 0x72, 0x6C, 0x64, 0x21, 0x00, 0x00, 0x01, 0x02, 0x03]
}

fn mixed_alignment_image() -> Vec<u8> {
    vec![0x53, 0x41, 0x52, 0x43, 0x00, 0x14, 0xFE, 0xFF, 0x00, 0x00, 0x00, 0x94, 0x00, 0x00, 0x00, 0x80, 0x01, 0x00, 0x00, 0x00, 0x53, 0x46, 0x41, 0x54, 0x00, 0x0C, 0x00, 0x03, 0x00, 0x00, 0x00, 0x25, 0x21, 0x39, 0xF8, 0x97, 0x01, 0x00, 0x00, 0x00, 0x00, 0x00, 0x00, 0x00, 0x00, 0x00, 0x00, 0x01, 0x44, 0x30, 0x4C, 0xEA, 0x01, 0x00, 0x00, 0x02, 0x00, 0x00, 0x00, 0x10, 0x00, 0x00, 0x00, 0x12, 0xC8, 0xE0, 0x0F, 0xAF, 0x01, 0x00, 0x00, 0x04, 0x00, 0x00, 0x00, 0x14, 0x00, 0x00, 0x00, 0x14, 0x53, 0x46, 0x4E, 0x54, 0x00, 0x08, 0x00, 0x00, 0x6F, 0x6E, 0x65, 0x2E, 0x61, 0x61, 0x61, 0x00, 0x74, 0x77, 0x6F, 0x2E, 0x62, 0x62, 0x62, 0x00, 0x74, 0x68, 0x72, 0x65, 0x65, 0x2E, 0x63, 0x63, 0x63, 0x00, 0x00, 0x00, 0x00, 0x00, 0x00, 0x00, 0x00, 0x00, 0x00, 0x00, 0x00, 0x00, 0x00, 0x00, 0x11, 0x00, 0x00, 0x00, 0x00, 0x00, 0x00, 0x00, 0x00, 0x00, 0x00, 0x00, 0x00, 0x00, 0x00, 0x00, 0x22, 0x22, 0x00, 0x00]
}

#[test]
fn empty_archive_is_headers_only() {
    let mut writer = SarcWriter::new(Endian::Little);
    let image = writer.write_to_bytes().unwrap();
    assert_eq!(image.len(), 0x28);
    assert_eq!(image, vec![0x53, 0x41, 0x52, 0x43, 0x14, 0x00, 0xFF, 0xFE, 0x28, 0x00, 0x00, 0x00, 0x28, 0x00, 0x00, 0x00, 0x00, 0x01, 0x00, 0x00, 0x53, 0x46, 0x41, 0x54, 0x0C, 0x00, 0x00, 0x00, 0x65, 0x00, 0x00, 0x00, 0x53, 0x46, 0x4E, 0x54, 0x08, 0x00, 0x00, 0x00]);
    let sarc = Sarc::new(&image).unwrap();
    assert_eq!(sarc.data_offset(), 0x28);
    assert_eq!(sarc.file_count(), 0);
    assert_eq!(sarc.endian(), Endian::Little);
    assert!(sarc.files().is_empty());
}

#[test]
fn single_file_big_endian_archive() {
    let mut writer = SarcWriter::new(Endian::Big);
    writer.add_file("a.bgdata".to_owned(), b"hi".to_vec());
    let image = writer.write_to_bytes().unwrap();
    assert_eq!(image, single_file_image());
    // the table entry: hash, name field, begin, end
    assert_eq!(&image[0x20..0x24], &[0x49, 0xC6, 0x77, 0x7E]);
    assert_eq!(&image[0x24..0x28], &[0x01, 0x00, 0x00, 0x00]);
    // the name, filled up to twelve bytes
    assert_eq!(&image[0x38..0x44], b"a.bgdata\0\0\0\0");
    let sarc = Sarc::new(&image).unwrap();
    assert_eq!(sarc.data_offset() % 4, 0);
    assert_eq!(sarc.data_offset(), 0x44);
}

#[test]
fn files_are_sorted_by_hash_in_a_little_endian_archive() {
    let mut writer = SarcWriter::new(Endian::Little);
    writer.add_file("b.txt".to_owned(), b"world!".to_vec());
    writer.add_file("a.txt".to_owned(), b"hello".to_vec());
    writer.add_file("dir/c.bin".to_owned(), vec![1, 2, 3]);
    let image = writer.write_to_bytes().unwrap();
    assert_eq!(image, three_files_image());
}

#[test]
fn writing_twice_gives_the_same_image() {
    let mut writer = SarcWriter::new(Endian::Little);
    writer.add_file("b.txt".to_owned(), b"world!".to_vec());
    writer.add_file("a.txt".to_owned(), b"hello".to_vec());
    let first = writer.write_to_bytes().unwrap();
    let second = writer.write_to_bytes().unwrap();
    assert_eq!(first, second);
}

#[test]
fn write_appends_the_image() {
    let mut writer = SarcWriter::new(Endian::Big);
    writer.add_file("a.bgdata".to_owned(), b"hi".to_vec());
    let mut out = vec![0xEE, 0xEE, 0xEE];
    writer.write(&mut out).unwrap();
    assert_eq!(&out[..3], &[0xEE, 0xEE, 0xEE]);
    assert_eq!(&out[3..], &single_file_image()[..]);
}

#[test]
fn alignment_requirements_place_each_payload() {
    let mut writer = SarcWriter::new(Endian::Big);
    writer.set_hash_multiplier(0x25);
    writer.add_alignment_requirement("aaa".to_owned(), 8).unwrap();
    writer.add_alignment_requirement("bbb".to_owned(), 16).unwrap();
    writer.add_file("three.ccc".to_owned(), vec![]);
    writer.add_file("two.bbb".to_owned(), vec![0x22, 0x22]);
    writer.add_file("one.aaa".to_owned(), vec![0x11]);
    let image = writer.write_to_bytes().unwrap();
    assert_eq!(image, mixed_alignment_image());
    let sarc = Sarc::new(&image).unwrap();
    assert_eq!(sarc.data_offset() % 16, 0);
    assert_eq!(sarc.file_at(1).unwrap().data, &[0x22, 0x22]);
}

#[test]
fn alignment_override_for_gtx() {
    let mut writer = SarcWriter::new(Endian::Little);
    writer.add_alignment_requirement("gtx".to_owned(), 0x2000).unwrap();
    writer.add_file("x.gtx".to_owned(), vec![0xAA]);
    let image = writer.write_to_bytes().unwrap();
    let sarc = Sarc::new(&image).unwrap();
    assert_eq!(sarc.data_offset() % 0x2000, 0);
    assert_eq!(sarc.data_offset(), 0x2000);
    assert_eq!(image.len(), 0x2001);
    assert_eq!(image[0x2000], 0xAA);
    assert_eq!(writer.get_alignment_for_file("x.gtx", &[0xAA]), Ok(0x2000));
}

#[test]
fn default_requirements_cover_gtx_without_an_override() {
    let mut writer = SarcWriter::new(Endian::Little);
    writer.add_file("x.gtx".to_owned(), vec![0xAA]);
    let image = writer.write_to_bytes().unwrap();
    let sarc = Sarc::new(&image).unwrap();
    assert_eq!(sarc.data_offset(), 0x2000);
    // written once, the writer holds the defaults
    assert_eq!(writer.get_alignment_for_file("a.sharc", &[]), Ok(0x1000));
    assert_eq!(writer.get_alignment_for_file("a.sharcb", &[]), Ok(0x1000));
    assert_eq!(writer.get_alignment_for_file("a.ksky", &[]), Ok(8));
    assert_eq!(writer.get_alignment_for_file("a.bksky", &[]), Ok(8));
    assert_eq!(writer.get_alignment_for_file("a.baglmf", &[]), Ok(0x80));
    assert_eq!(writer.get_alignment_for_file("a.bffnt", &[]), Ok(0x1000));
    let mut big = SarcWriter::new(Endian::Big);
    big.write_to_bytes().unwrap();
    assert_eq!(big.get_alignment_for_file("a.bffnt", &[]), Ok(0x2000));
}

fn inner_archive() -> Vec<u8> {
    let mut inner = vec![0u8; 0x20];
    inner[..4].copy_from_slice(b"SARC");
    inner
}

#[test]
fn legacy_mode_aligns_an_archive_in_an_archive() {
    let mut writer = SarcWriter::new(Endian::Little);
    writer.set_legacy_mode(true);
    writer.add_file("small.bin".to_owned(), vec![1, 2, 3]);
    writer.add_file("inner.pack".to_owned(), inner_archive());
    let image = writer.write_to_bytes().unwrap();
    let sarc = Sarc::new(&image).unwrap();
    let index = (0..2).find(|&i| sarc.file_at(i).unwrap().name == Some("inner.pack")).unwrap();
    let inner = sarc.file_at(index).unwrap();
    let start = inner.data.as_ptr() as usize - image.as_ptr() as usize;
    assert_eq!(start % 0x2000, 0);
    assert_eq!(inner.data, &inner_archive()[..]);
    assert_eq!(writer.get_alignment_for_file("inner.pack", &inner_archive()), Ok(0x2000));
}

#[test]
fn without_legacy_mode_an_inner_archive_needs_no_more() {
    let writer = SarcWriter::new(Endian::Little);
    assert_eq!(writer.get_alignment_for_file("inner.pack", &inner_archive()), Ok(4));
}

#[test]
fn is_file_sarc_knows_plain_and_wrapped_archives() {
    assert!(SarcWriter::is_file_sarc(&inner_archive()));
    let mut wrapped = vec![0u8; 0x20];
    wrapped[..4].copy_from_slice(b"Yaz0");
    wrapped[0x11..0x15].copy_from_slice(b"SARC");
    assert!(SarcWriter::is_file_sarc(&wrapped));
    wrapped[0x11] = b'X';
    assert!(!SarcWriter::is_file_sarc(&wrapped));
    // too short to be one
    assert!(!SarcWriter::is_file_sarc(&inner_archive()[..0x1F]));
    assert!(!SarcWriter::is_file_sarc(&[]));
    assert!(!SarcWriter::is_file_sarc(&[0u8; 0x40]));
}

fn bflim(alignment: u16) -> Vec<u8> {
    let mut data = vec![0u8; 0x100];
    let len = data.len();
    data[len - 0x28..len - 0x24].copy_from_slice(b"FLIM");
    data[len - 8..len - 6].copy_from_slice(&alignment.to_be_bytes());
    data
}

#[test]
fn bflim_detection_in_a_big_endian_archive() {
    let mut writer = SarcWriter::new(Endian::Big);
    let data = bflim(0x1000);
    assert_eq!(SarcWriter::get_alignment_for_cafe_bflim(&data), 0x1000);
    assert_eq!(writer.get_alignment_for_file("tex.bflim", &data), Ok(0x1000));
    writer.add_file("tex.bflim".to_owned(), data);
    let image = writer.write_to_bytes().unwrap();
    let sarc = Sarc::new(&image).unwrap();
    assert!(sarc.data_offset() >= 0x1000);
    assert_eq!(sarc.data_offset() % 0x1000, 0);
}

#[test]
fn bflim_is_not_read_in_a_little_endian_archive() {
    let writer = SarcWriter::new(Endian::Little);
    assert_eq!(writer.get_alignment_for_file("tex.bflim", &bflim(0x1000)), Ok(4));
}

#[test]
fn bflim_needs_the_magic_and_the_length() {
    assert_eq!(SarcWriter::get_alignment_for_cafe_bflim(&[]), 1);
    assert_eq!(SarcWriter::get_alignment_for_cafe_bflim(&[0u8; 0x100]), 1);
    let mut short = vec![0u8; 0x28];
    short[..4].copy_from_slice(b"FLIM");
    short[0x20] = 0x10;
    assert_eq!(SarcWriter::get_alignment_for_cafe_bflim(&short), 1);
    let mut least = vec![0u8; 0x29];
    least[1..5].copy_from_slice(b"FLIM");
    least[0x21] = 0x02;
    assert_eq!(SarcWriter::get_alignment_for_cafe_bflim(&least), 0x200);
}

fn binary_file(mark: [u8; 2], size: [u8; 4], exponent: u8, len: usize) -> Vec<u8> {
    let mut data = vec![0u8; len];
    data[0x0C..0x0E].copy_from_slice(&mark);
    data[0x0E] = exponent;
    data[0x1C..0x20].copy_from_slice(&size);
    data
}

#[test]
fn new_binary_files_name_their_alignment() {
    // big endian: the mark FE FF, the size most significant byte first
    let big = binary_file([0xFE, 0xFF], [0, 0, 0x01, 0x00], 12, 0x100);
    assert_eq!(SarcWriter::get_alignment_for_new_binary_file(&big), 0x1000);
    // little endian: the mark FF FE, the size least significant byte first
    let little = binary_file([0xFF, 0xFE], [0x00, 0x01, 0, 0], 3, 0x100);
    assert_eq!(SarcWriter::get_alignment_for_new_binary_file(&little), 8);
    // a size in the other byte order is not the file's size
    let crossed = binary_file([0xFE, 0xFF], [0x00, 0x01, 0, 0], 12, 0x100);
    assert_eq!(SarcWriter::get_alignment_for_new_binary_file(&crossed), 1);
    // no mark
    let unmarked = binary_file([0, 0], [0, 0, 0x01, 0x00], 12, 0x100);
    assert_eq!(SarcWriter::get_alignment_for_new_binary_file(&unmarked), 1);
    // not longer than 0x20 bytes
    let short = binary_file([0xFE, 0xFF], [0, 0, 0, 0x20], 12, 0x20);
    assert_eq!(SarcWriter::get_alignment_for_new_binary_file(&short), 1);
    let least = binary_file([0xFE, 0xFF], [0, 0, 0, 0x21], 0, 0x21);
    assert_eq!(SarcWriter::get_alignment_for_new_binary_file(&least), 1);
    // an exponent beyond the machine's word
    let beyond = binary_file([0xFE, 0xFF], [0, 0, 0x01, 0x00], 200, 0x100);
    assert_eq!(SarcWriter::get_alignment_for_new_binary_file(&beyond), 0);
}

#[test]
fn the_factory_table_switches_sniffing_off() {
    let data = binary_file([0xFF, 0xFE], [0x00, 0x01, 0, 0], 8, 0x100);
    let mut writer = SarcWriter::new(Endian::Little);
    assert_eq!(writer.get_alignment_for_file("model.bfres", &data), Ok(0x100));
    writer.set_factory_names(sarc_rs::tables::get_botw_factory_names("bfres\tx\nsbfres\ty"));
    assert_eq!(writer.get_alignment_for_file("model.bfres", &data), Ok(4));
    assert_eq!(writer.get_alignment_for_file("model.other", &data), Ok(0x100));
    // legacy mode sniffs whatever the table holds
    writer.set_legacy_mode(true);
    assert_eq!(writer.get_alignment_for_file("model.bfres", &data), Ok(0x100));
}

#[test]
fn alignment_is_the_least_common_multiple() {
    let mut writer = SarcWriter::new(Endian::Big);
    writer.set_min_alignment(0x40).unwrap();
    writer.add_alignment_requirement("low".to_owned(), 8).unwrap();
    writer.add_alignment_requirement("high".to_owned(), 0x800).unwrap();
    assert_eq!(writer.get_alignment_for_file("a.low", &[]), Ok(0x40));
    assert_eq!(writer.get_alignment_for_file("a.high", &[]), Ok(0x800));
    assert_eq!(writer.get_alignment_for_file("a.high", &bflim(0x2000)), Ok(0x2000));
    assert_eq!(writer.get_alignment_for_file("a.high", &bflim(0x10)), Ok(0x800));
    assert_eq!(writer.get_alignment_for_file("noextension", &[]), Ok(0x40));
    // the extension is what follows the last dot
    assert_eq!(writer.get_alignment_for_file("a.high.low", &[]), Ok(0x40));
    assert_eq!(writer.get_alignment_for_file("a.low.high", &[]), Ok(0x800));
}

#[test]
fn alignment_is_the_same_on_every_call() {
    let mut writer = SarcWriter::new(Endian::Big);
    writer.add_alignment_requirement("high".to_owned(), 0x800).unwrap();
    let data = bflim(0x100);
    let first = writer.get_alignment_for_file("a.high", &data);
    let second = writer.get_alignment_for_file("a.high", &data);
    assert_eq!(first, second);
    assert_eq!(first, Ok(0x800));
}

#[test]
fn invalid_alignments_are_refused() {
    let mut writer = SarcWriter::new(Endian::Big);
    assert_eq!(writer.set_min_alignment(0), Err(SarcWriteError::InvalidAlignmentError(0)));
    assert_eq!(writer.set_min_alignment(3), Err(SarcWriteError::InvalidAlignmentError(3)));
    assert_eq!(writer.set_min_alignment(48), Err(SarcWriteError::InvalidAlignmentError(48)));
    assert_eq!(
        writer.add_alignment_requirement("x".to_owned(), 0),
        Err(SarcWriteError::InvalidAlignmentError(0))
    );
    assert_eq!(
        writer.add_alignment_requirement("x".to_owned(), 6),
        Err(SarcWriteError::InvalidAlignmentError(6))
    );
    // a refused requirement leaves the writer as it was
    assert_eq!(writer.get_alignment_for_file("a.x", &[]), Ok(4));
    assert_eq!(writer.set_min_alignment(1), Ok(()));
    assert_eq!(writer.get_alignment_for_file("a.x", &[]), Ok(1));
    assert_eq!(writer.set_min_alignment(usize::MAX / 2 + 1), Ok(()));
}

#[test]
fn a_payload_that_asks_for_no_power_of_two_fails_the_write() {
    let mut writer = SarcWriter::new(Endian::Big);
    assert_eq!(
        writer.get_alignment_for_file("tex.bflim", &bflim(3)),
        Err(SarcWriteError::InvalidAlignmentError(3))
    );
    assert_eq!(
        writer.get_alignment_for_file("tex.bflim", &bflim(0)),
        Err(SarcWriteError::InvalidAlignmentError(0))
    );
    writer.add_file("tex.bflim".to_owned(), bflim(3));
    let mut out = vec![1, 2, 3];
    assert_eq!(writer.write(&mut out), Err(SarcWriteError::InvalidAlignmentError(3)));
    assert_eq!(out, vec![1, 2, 3]);
    assert_eq!(writer.write_to_bytes(), Err(SarcWriteError::InvalidAlignmentError(3)));
}

#[test]
fn an_invalid_table_requirement_fails_the_write() {
    let mut writer = SarcWriter::new(Endian::Little);
    writer.set_agl_env_alignment_requirements(vec![
        ("good".to_owned(), 0x20),
        ("bad".to_owned(), 0),
        ("late".to_owned(), 0x40),
    ]);
    writer.add_file("a.good".to_owned(), vec![1]);
    assert_eq!(writer.write_to_bytes(), Err(SarcWriteError::InvalidAlignmentError(0)));
    // the requirements before the invalid one were added, the later ones not
    assert_eq!(writer.get_alignment_for_file("a.good", &[]), Ok(0x20));
    assert_eq!(writer.get_alignment_for_file("a.late", &[]), Ok(4));
}

#[test]
fn table_requirements_are_added_on_writing() {
    let mut writer = SarcWriter::new(Endian::Little);
    writer.set_agl_env_alignment_requirements(vec![
        ("genvb".to_owned(), 0x100),
        ("bgenvb".to_owned(), 0x100),
        ("gtx".to_owned(), 0x10),
    ]);
    assert_eq!(writer.get_alignment_for_file("a.genvb", &[]), Ok(4));
    writer.add_file("a.genvb".to_owned(), vec![7]);
    let image = writer.write_to_bytes().unwrap();
    assert_eq!(Sarc::new(&image).unwrap().data_offset(), 0x100);
    assert_eq!(writer.get_alignment_for_file("a.bgenvb", &[]), Ok(0x100));
    // the fixed requirements come last and win
    assert_eq!(writer.get_alignment_for_file("a.gtx", &[]), Ok(0x2000));
}

#[test]
fn too_many_files_do_not_fit() {
    let mut writer = SarcWriter::new(Endian::Little);
    for i in 0..0x4000 {
        writer.add_file(format!("{}", i), vec![]);
    }
    assert_eq!(writer.file_count(), 0x4000);
    assert_eq!(writer.write_to_bytes(), Err(SarcWriteError::TooLarge));
    writer.remove_file("0");
    assert_eq!(writer.file_count(), 0x3FFF);
    let image = writer.write_to_bytes().unwrap();
    assert_eq!(Sarc::new(&image).unwrap().file_count(), 0x3FFF);
}

#[test]
fn an_archive_beyond_32_bits_does_not_fit() {
    // the second payload would start 2^31 bytes behind the first, in a data
    // region that starts at 2^31
    let mut writer = SarcWriter::new(Endian::Little);
    writer.set_min_alignment(0x8000_0000).unwrap();
    writer.add_file("a".to_owned(), vec![1]);
    writer.add_file("b".to_owned(), vec![2]);
    assert_eq!(writer.write_to_bytes(), Err(SarcWriteError::TooLarge));
    let mut out = vec![9];
    assert_eq!(writer.write(&mut out), Err(SarcWriteError::TooLarge));
    assert_eq!(out, vec![9]);
}

#[test]
fn a_data_region_beyond_32_bits_does_not_fit() {
    let mut writer = SarcWriter::new(Endian::Little);
    writer.set_min_alignment(usize::MAX / 2 + 1).unwrap();
    writer.add_file("a".to_owned(), vec![]);
    assert_eq!(writer.write_to_bytes(), Err(SarcWriteError::TooLarge));
    // without files the alignment is asked of nothing
    writer.remove_file("a");
    assert_eq!(writer.write_to_bytes().unwrap().len(), 0x28);
}

#[test]
fn add_file_replaces_a_payload_in_place() {
    let mut writer = SarcWriter::new(Endian::Little);
    writer.add_file("a.txt".to_owned(), b"old".to_vec());
    writer.add_file("b.txt".to_owned(), b"other".to_vec());
    writer.add_file("a.txt".to_owned(), b"new!".to_vec());
    assert_eq!(writer.file_count(), 2);
    let image = writer.write_to_bytes().unwrap();
    let sarc = Sarc::new(&image).unwrap();
    assert_eq!(sarc.get_file("a.txt").unwrap().unwrap().data, b"new!");
    assert_eq!(sarc.get_file("b.txt").unwrap().unwrap().data, b"other");
}

#[test]
fn remove_file_takes_a_file_out() {
    let mut writer = SarcWriter::new(Endian::Little);
    writer.add_file("a.txt".to_owned(), b"a".to_vec());
    writer.add_file("b.txt".to_owned(), b"b".to_vec());
    writer.remove_file("a.txt");
    writer.remove_file("missing");
    assert_eq!(writer.file_count(), 1);
    let image = writer.write_to_bytes().unwrap();
    let sarc = Sarc::new(&image).unwrap();
    assert!(sarc.get_file("a.txt").unwrap().is_none());
    assert_eq!(sarc.get_file("b.txt").unwrap().unwrap().data, b"b");
}

#[test]
fn files_are_read_by_position() {
    let mut writer = SarcWriter::new(Endian::Little);
    assert_eq!(writer.file_at(0), None);
    writer.add_file("b.txt".to_owned(), b"world!".to_vec());
    writer.add_file("a.txt".to_owned(), b"hello".to_vec());
    assert_eq!(writer.file_at(0), Some(("b.txt", &b"world!"[..])));
    assert_eq!(writer.file_at(1), Some(("a.txt", &b"hello"[..])));
    assert_eq!(writer.file_at(2), None);
    // writing sorts the files by the hash of their names
    writer.write_to_bytes().unwrap();
    assert_eq!(writer.file_at(0), Some(("a.txt", &b"hello"[..])));
    assert_eq!(writer.file_at(1), Some(("b.txt", &b"world!"[..])));
}

#[test]
fn a_new_writer_has_the_default_settings() {
    let mut writer = SarcWriter::new(Endian::Big);
    assert_eq!(writer.file_count(), 0);
    assert_eq!(writer.get_alignment_for_file("a.bin", &[]), Ok(4));
    let image = writer.write_to_bytes().unwrap();
    // the hash multiplier in the table header
    assert_eq!(&image[0x1C..0x20], &[0, 0, 0, 0x65]);
    assert_eq!(sarc_rs::DEFAULT_HASH_MULTIPLIER, 0x65);
}

#[test]
fn files_of_equal_hash_keep_their_order() {
    // with the multiplier 0 the hash of a name is its last byte
    let mut writer = SarcWriter::new(Endian::Little);
    writer.set_hash_multiplier(0);
    writer.add_file("zb".to_owned(), vec![1]);
    writer.add_file("xa".to_owned(), vec![2]);
    writer.add_file("yb".to_owned(), vec![3]);
    writer.add_file("wa".to_owned(), vec![4]);
    let image = writer.write_to_bytes().unwrap();
    let sarc = Sarc::new(&image).unwrap();
    let names: Vec<&str> = sarc.files().iter().map(|file| file.name.unwrap()).collect();
    assert_eq!(names, vec!["xa", "wa", "zb", "yb"]);
}

#[test]
fn setters_change_the_image() {
    let mut writer = SarcWriter::new(Endian::Little);
    writer.add_file("a.bgdata".to_owned(), b"hi".to_vec());
    writer.set_endian(Endian::Big);
    assert_eq!(writer.write_to_bytes().unwrap(), single_file_image());
    writer.set_min_alignment(0x80).unwrap();
    let image = writer.write_to_bytes().unwrap();
    assert_eq!(Sarc::new(&image).unwrap().data_offset(), 0x80);
}
