use sarc_rs::Endian;
use sarc_rs::Sarc;
use sarc_rs::SarcWriter;

const DUNGEON_FILES: [&str; 10] = [
    "NavMesh/CDungeon/Dungeon119/Dungeon119.shknm2",
    "Map/CDungeon/Dungeon119/Dungeon119_Static.smubin",
    "Map/CDungeon/Dungeon119/Dungeon119_Dynamic.smubin",
    "Actor/Pack/DgnMrgPrt_Dungeon119.sbactorpack",
    "Physics/StaticCompound/CDungeon/Dungeon119.shksc",
    "Map/CDungeon/Dungeon119/Dungeon119_TeraTree.sblwp",
    "Map/CDungeon/Dungeon119/Dungeon119_Clustering.sblwp",
    "Map/DungeonData/CDungeon/Dungeon119.bdgnenv",
    "Model/DgnMrgPrt_Dungeon119.sbfres",
    "Model/DgnMrgPrt_Dungeon119.Tex2.sbfres",
];

/// A big-endian pack with the ten files of a dungeon, each with a payload
/// of its own.
fn dungeon_pack() -> Vec<u8> {
    let mut writer = SarcWriter::new(Endian::Big);
    for (index, name) in DUNGEON_FILES.iter().enumerate() {
        let payload: Vec<u8> = (0..(index * 37 + 5)).map(|i| (i * 7 + index) as u8).collect();
        writer.add_file((*name).to_owned(), payload);
    }
    writer.write_to_bytes().unwrap()
}

#[test]
fn parse_sarc() {
    let data = dungeon_pack();
    let sarc = Sarc::new(&data).unwrap();
    assert_eq!(sarc.endian(), Endian::Big);
    assert_eq!(sarc.file_count(), 10);
    assert_eq!(sarc.guess_min_alignment(), 4);
    for file in &DUNGEON_FILES {
        sarc.get_file(file)
            .unwrap()
            .expect(&format!("Could not find file {}", file));
    }
}

fn archives() -> Vec<Vec<u8>> {
    let mut little = SarcWriter::new(Endian::Little);
    little.add_file("b.txt".to_owned(), b"world!".to_vec());
    little.add_file("a.txt".to_owned(), b"hello".to_vec());
    little.add_file("empty.bin".to_owned(), vec![]);
    let mut wide = SarcWriter::new(Endian::Big);
    wide.add_file("shader.sharc".to_owned(), vec![3; 0x21]);
    wide.add_file("texture.gtx".to_owned(), vec![4; 0x10]);
    wide.add_file("plain".to_owned(), vec![5; 3]);
    vec![
        dungeon_pack(),
        little.write_to_bytes().unwrap(),
        wide.write_to_bytes().unwrap(),
        SarcWriter::new(Endian::Big).write_to_bytes().unwrap(),
        SarcWriter::new(Endian::Little).write_to_bytes().unwrap(),
    ]
}

#[test]
fn make_sarc() {
    for (index, data) in archives().into_iter().enumerate() {
        let sarc = Sarc::new(&data).unwrap();
        let mut sarc_writer = SarcWriter::new(sarc.endian());
        for f in sarc.files() {
            if let Some(name) = f.name {
                sarc_writer.add_file(name.to_owned(), f.data.to_vec());
            }
        }
        let new_data = sarc_writer.write_to_bytes().unwrap();
        let new_sarc = Sarc::new(&new_data).unwrap();
        if !Sarc::are_files_equal(&sarc, &new_sarc) {
            for (f1, f2) in sarc.files().iter().zip(new_sarc.files().iter()) {
                if !f1.same_as(f2) {
                    panic!("File {:?} has changed in SARC {:?}", f1.name, index);
                }
            }
        }
        if data != new_data {
            panic!(
                "Roundtrip not binary identical, wrong byte at offset {}",
                data.iter()
                    .zip(new_data.iter())
                    .enumerate()
                    .find(|(_, (b1, b2))| *b1 != *b2)
                    .unwrap()
                    .0
            );
        }
    }
}

#[test]
fn from_sarc_and_write_give_the_image_back() {
    for data in archives() {
        let sarc = Sarc::new(&data).unwrap();
        let mut writer = SarcWriter::from_sarc(&sarc);
        assert_eq!(writer.file_count(), sarc.file_count());
        assert_eq!(writer.write_to_bytes().unwrap(), data);
    }
}

#[test]
fn every_payload_starts_at_a_multiple_of_its_alignment() {
    let mut writer = SarcWriter::new(Endian::Big);
    writer.add_alignment_requirement("a8".to_owned(), 8).unwrap();
    writer.add_alignment_requirement("a64".to_owned(), 64).unwrap();
    writer.add_alignment_requirement("a512".to_owned(), 512).unwrap();
    for i in 0..40usize {
        let ext = ["a8", "a64", "a512", "none"][i % 4];
        writer.add_file(format!("file{}.{}", i, ext), vec![i as u8; i * 3 + 1]);
    }
    let image = writer.write_to_bytes().unwrap();
    let sarc = Sarc::new(&image).unwrap();
    assert_eq!(sarc.file_count(), 40);
    for file in sarc.files() {
        let name = file.name.unwrap();
        let alignment = writer.get_alignment_for_file(name, file.data).unwrap();
        assert!(alignment.is_power_of_two());
        let start = file.data.as_ptr() as usize - image.as_ptr() as usize;
        assert_eq!(start % alignment, 0, "{}", name);
    }
}

#[test]
fn the_table_is_sorted_by_hash() {
    let mut writer = SarcWriter::new(Endian::Little);
    for i in 0..100u32 {
        writer.add_file(format!("some/dir/file_{}.bin", i), vec![1]);
    }
    let image = writer.write_to_bytes().unwrap();
    let hashes: Vec<u32> = (0..100)
        .map(|i| {
            let at = 0x20 + 0x10 * i;
            u32::from_le_bytes([image[at], image[at + 1], image[at + 2], image[at + 3]])
        })
        .collect();
    for pair in hashes.windows(2) {
        assert!(pair[0] < pair[1]);
    }
    let sarc = Sarc::new(&image).unwrap();
    for (index, file) in sarc.files().iter().enumerate() {
        assert_eq!(sarc_rs::hash_name(0x65, file.name.unwrap()), hashes[index]);
    }
}

#[test]
fn the_header_tells_length_and_data_offset() {
    let image = dungeon_pack();
    let file_size = u32::from_be_bytes([image[8], image[9], image[10], image[11]]);
    assert_eq!(file_size as usize, image.len());
    let sarc = Sarc::new(&image).unwrap();
    let data_offset = u32::from_be_bytes([image[12], image[13], image[14], image[15]]);
    assert_eq!(data_offset as usize, sarc.data_offset());
    assert_eq!(&image[0x14..0x18], b"SFAT");
    assert_eq!(&image[0x20 + 0x10 * 10..0x24 + 0x10 * 10], b"SFNT");
}
