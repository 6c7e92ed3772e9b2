use sarc_rs::alignment::align;
use sarc_rs::alignment::align_within_u32;
use sarc_rs::codec::mark_at;
use sarc_rs::file_map::compare_name_hashes;
use sarc_rs::hash_bytes;
use sarc_rs::hash_name;
use sarc_rs::is_valid_alignment;
use sarc_rs::parse::bytes_equal;
use sarc_rs::parse::magic_at;
use sarc_rs::parse::str_equal;
use sarc_rs::text::byte_string;
use sarc_rs::text::decimal_string;
use sarc_rs::text::extension;
use sarc_rs::Endian;
use sarc_rs::File;
use std::cmp::Ordering;

#[test]
fn hash_of_short_names() {
    assert_eq!(hash_name(0x65, ""), 0);
    assert_eq!(hash_name(0x65, "A"), 65);
    assert_eq!(hash_name(0x65, "AB"), 65 * 0x65 + 66);
}

#[test]
fn hash_wraps_at_32_bits() {
    assert_eq!(hash_name(0x65, "abcdefghij"), 0xD2A1_4C0B);
    assert_eq!(hash_name(0x65, "a.bgdata"), 0x49C6_777E);
    assert_eq!(
        hash_name(0x65, "Model/DgnMrgPrt_Dungeon119.Tex2.sbfres"),
        0xF6E5_AC0B
    );
    assert_eq!(hash_name(u32::MAX, "\u{7F}\u{7F}"), 0);
}

#[test]
fn hash_goes_over_the_utf8_bytes() {
    assert_eq!(hash_name(0x65, "é"), 0xC3 * 0x65 + 0xA9);
    assert_eq!(hash_name(0x65, "é"), hash_bytes(0x65, &[0xC3, 0xA9]));
    assert_eq!(hash_bytes(0x65, b"AB"), hash_name(0x65, "AB"));
}

#[test]
fn hash_depends_on_the_multiplier() {
    assert_eq!(hash_name(0, "AB"), 66);
    assert_eq!(hash_name(1, "AB"), 65 + 66);
    assert_eq!(hash_name(0x25, "one.aaa"), 0x2139_F897);
}

#[test]
fn valid_alignments_are_the_powers_of_two() {
    assert!(!is_valid_alignment(0));
    assert!(is_valid_alignment(1));
    assert!(is_valid_alignment(2));
    assert!(!is_valid_alignment(3));
    assert!(is_valid_alignment(4));
    assert!(!is_valid_alignment(6));
    assert!(is_valid_alignment(0x2000));
    assert!(!is_valid_alignment(0x2001));
    assert!(is_valid_alignment(1 << 31));
    assert!(is_valid_alignment(usize::MAX / 2 + 1));
    assert!(!is_valid_alignment(usize::MAX));
}

#[test]
fn align_rounds_up_to_the_next_multiple() {
    assert_eq!(align(0, 4), 0);
    assert_eq!(align(1, 4), 4);
    assert_eq!(align(4, 4), 4);
    assert_eq!(align(5, 4), 8);
    assert_eq!(align(9, 4), 12);
    assert_eq!(align(0x44, 0x2000), 0x2000);
    assert_eq!(align(0x2000, 0x2000), 0x2000);
    assert_eq!(align(0x2001, 0x2000), 0x4000);
    assert_eq!(align(7, 1), 7);
}

#[test]
fn align_is_the_mask_formula_for_any_alignment() {
    // (pos + alignment - 1) & -alignment, whatever the alignment
    assert_eq!(align(10, 0), 0);
    assert_eq!(align(10, 3), (10 + 3 - 1) & (0usize.wrapping_sub(3)));
    assert_eq!(align(10, 6), 10);
}

#[test]
fn align_within_u32_stops_at_32_bits() {
    assert_eq!(align_within_u32(5, 8), Some(8));
    assert_eq!(align_within_u32(0, 0x2000), Some(0));
    assert_eq!(align_within_u32(0xFFFF_FFFF, 1), Some(0xFFFF_FFFF));
    assert_eq!(align_within_u32(0xFFFF_FFF0, 0x10), Some(0xFFFF_FFF0));
    assert_eq!(align_within_u32(0xFFFF_FFF1, 0x10), None);
    assert_eq!(align_within_u32(0xFFFF_FFFF, 2), None);
    assert_eq!(align_within_u32(1, 0x8000_0000), Some(0x8000_0000));
    assert_eq!(align_within_u32(0x8000_0001, 0x8000_0000), None);
    assert_eq!(align_within_u32(0, usize::MAX / 2 + 1), Some(0));
    assert_eq!(align_within_u32(1, usize::MAX / 2 + 1), None);
}

#[test]
fn decimal_strings() {
    assert_eq!(decimal_string(0), "0");
    assert_eq!(decimal_string(7), "7");
    assert_eq!(decimal_string(10), "10");
    assert_eq!(decimal_string(258), "258");
    assert_eq!(decimal_string(u32::MAX), "4294967295");
}

#[test]
fn byte_strings() {
    assert_eq!(byte_string(b""), "");
    assert_eq!(byte_string(b"SARC"), "SARC");
    assert_eq!(byte_string(&[0x00, 0x41, 0xFF]), "\u{0}A\u{FF}");
}

#[test]
fn extensions() {
    assert_eq!(extension("a.bgdata"), "bgdata");
    assert_eq!(extension("Model/DgnMrgPrt_Dungeon119.Tex2.sbfres"), "sbfres");
    assert_eq!(extension("noextension"), "");
    assert_eq!(extension(""), "");
    assert_eq!(extension("dot."), "");
    assert_eq!(extension(".hidden"), "hidden");
    assert_eq!(extension("dir.d/file"), "d/file");
    assert_eq!(extension("été.données"), "données");
}

#[test]
fn byte_order_marks() {
    assert_eq!(mark_at(&[0xFE, 0xFF], 0), Some(Endian::Big));
    assert_eq!(mark_at(&[0xFF, 0xFE], 0), Some(Endian::Little));
    assert_eq!(mark_at(&[0xFF, 0xFF], 0), None);
    assert_eq!(mark_at(&[0, 0xFF, 0xFE], 1), Some(Endian::Little));
    assert_eq!(mark_at(&[0xFE], 0), None);
    assert_eq!(mark_at(&[0xFE, 0xFF], 1), None);
    assert_eq!(mark_at(&[0xFE, 0xFF], usize::MAX), None);
}

#[test]
fn magic_is_looked_for_at_a_position() {
    assert!(magic_at(b"SARC", 0, b'S', b'A', b'R', b'C'));
    assert!(magic_at(b"xxSARC", 2, b'S', b'A', b'R', b'C'));
    assert!(!magic_at(b"xxSARC", 1, b'S', b'A', b'R', b'C'));
    assert!(!magic_at(b"SAR", 0, b'S', b'A', b'R', b'C'));
    assert!(!magic_at(b"SARC", usize::MAX, b'S', b'A', b'R', b'C'));
    assert!(!magic_at(b"SARD", 0, b'S', b'A', b'R', b'C'));
}

#[test]
fn equality_of_bytes_and_texts() {
    assert!(bytes_equal(b"", b""));
    assert!(bytes_equal(b"abc", b"abc"));
    assert!(!bytes_equal(b"abc", b"abd"));
    assert!(!bytes_equal(b"abc", b"ab"));
    assert!(str_equal("été", "été"));
    assert!(!str_equal("ete", "été"));
}

#[test]
fn files_compare_by_name_and_payload() {
    let a = File { name: Some("a"), data: b"1" };
    assert!(a.same_as(&File { name: Some("a"), data: b"1" }));
    assert!(!a.same_as(&File { name: Some("b"), data: b"1" }));
    assert!(!a.same_as(&File { name: Some("a"), data: b"2" }));
    assert!(!a.same_as(&File { name: None, data: b"1" }));
    let nameless = File { name: None, data: b"1" };
    assert!(nameless.same_as(&File { name: None, data: b"1" }));
    assert!(a == File { name: Some("a"), data: b"1" });
    assert!(a != nameless);
}

#[test]
fn names_are_ordered_by_their_hashes() {
    // hashes with the multiplier 0x65: "A" 65, "B" 66, "AB" 6631
    assert_eq!(compare_name_hashes(0x65, "A", "B"), Ordering::Less);
    assert_eq!(compare_name_hashes(0x65, "AB", "B"), Ordering::Greater);
    assert_eq!(compare_name_hashes(0x65, "AB", "AB"), Ordering::Equal);
    // with the multiplier 0 only the last byte counts
    assert_eq!(compare_name_hashes(0, "xA", "yA"), Ordering::Equal);
    assert_eq!(compare_name_hashes(0, "zA", "aB"), Ordering::Less);
}
