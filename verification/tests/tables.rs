use sarc_rs::tables::get_agl_env_alignment_requirements;
use sarc_rs::tables::get_botw_factory_names;
use sarc_rs::AglEnvInfo;
use sarc_rs::Endian;
use sarc_rs::SarcWriter;

fn sniffed(factory: &str, name: &str) -> bool {
    let mut data = vec![0u8; 0x100];
    data[0x0C] = 0xFF;
    data[0x0D] = 0xFE;
    data[0x0E] = 6;
    data[0x1D] = 0x01;
    let mut writer = SarcWriter::new(Endian::Little);
    writer.set_factory_names(get_botw_factory_names(factory));
    writer.get_alignment_for_file(name, &data) == Ok(0x40)
}

#[test]
fn factory_names_are_the_first_columns() {
    let table = "sarc\t0x68\tsead::SARC\nbfres\t0x1A8\tother\nbaniminfo\t0x2C8";
    assert!(!sniffed(table, "a.sarc"));
    assert!(!sniffed(table, "a.bfres"));
    assert!(!sniffed(table, "a.baniminfo"));
    assert!(sniffed(table, "a.0x68"));
    assert!(sniffed(table, "a.other"));
    assert!(sniffed(table, "a.bfre"));
    assert!(sniffed(table, "a.sarc2"));
}

#[test]
fn a_line_without_a_tab_is_a_name() {
    assert!(!sniffed("plain\nnext", "a.plain"));
    assert!(!sniffed("plain\nnext", "a.next"));
    assert!(sniffed("plain\nnext", "a.plai"));
}

#[test]
fn an_empty_line_gives_the_empty_name() {
    // a file without an extension has the empty extension
    assert!(sniffed("sarc\tx", "noextension"));
    assert!(!sniffed("sarc\tx\n", "noextension"));
    assert!(!sniffed("", "noextension"));
    assert!(!sniffed("\tx", "noextension"));
    assert!(!sniffed("sarc\tx\n\nbfres\ty", "noextension"));
}

#[test]
fn only_line_feeds_end_a_line() {
    assert!(sniffed("sarc\r\nbfres\r\n", "a.sarc"));
    assert!(!sniffed("sarc\r\nbfres\r\n", "a.sarc\r"));
}

fn entry(ext: &str, bext: &str, align: i32) -> AglEnvInfo {
    AglEnvInfo { ext: ext.to_owned(), bext: bext.to_owned(), align }
}

#[test]
fn requirements_come_from_entries_that_are_not_negative() {
    let info = vec![
        entry("genv", "bgenv", 8),
        entry("skip", "bskip", -1),
        entry("gsdw", "bgsdw", 0x1000),
        entry("zero", "bzero", 0),
        entry("least", "bleast", i32::MIN),
        entry("most", "bmost", i32::MAX),
    ];
    let requirements = get_agl_env_alignment_requirements(&info);
    assert_eq!(
        requirements,
        vec![
            ("genv".to_owned(), 8),
            ("bgenv".to_owned(), 8),
            ("gsdw".to_owned(), 0x1000),
            ("bgsdw".to_owned(), 0x1000),
            ("zero".to_owned(), 0),
            ("bzero".to_owned(), 0),
            ("most".to_owned(), 0x7FFF_FFFF),
            ("bmost".to_owned(), 0x7FFF_FFFF),
        ]
    );
}

#[test]
fn no_entries_give_no_requirements() {
    assert!(get_agl_env_alignment_requirements(&vec![]).is_empty());
    assert!(get_agl_env_alignment_requirements(&vec![entry("a", "b", -7)]).is_empty());
}
