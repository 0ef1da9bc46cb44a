use crossword_puz::puz::{append_bytes, checksum_add, checksum_region, PuzContent};

const TINY: [u8; 142] = [
    0x26, 0x2D, 0x41, 0x43, 0x52, 0x4F, 0x53, 0x53, 0x26, 0x44, 0x4F, 0x57, 0x4E, 0x00, 0x00,
    0x52, 0x49, 0xCF, 0x11, 0x00, 0x13, 0x25, 0xA6, 0x45, 0x31, 0x2E, 0x33, 0x00, 0x00, 0x00,
    0x00, 0x00, 0x00, 0x00, 0x00, 0x00, 0x00, 0x00, 0x00, 0x00, 0x00, 0x00, 0x00, 0x00, 0x03,
    0x03, 0x04, 0x00, 0x01, 0x00, 0x00, 0x00, 0x41, 0x42, 0x43, 0x44, 0x2E, 0x45, 0x46, 0x47,
    0x48, 0x2D, 0x2D, 0x2D, 0x2D, 0x2E, 0x2D, 0x2D, 0x2D, 0x2D, 0x54, 0x69, 0x6E, 0x79, 0x00,
    0x41, 0x6E, 0x6E, 0x20, 0x41, 0x75, 0x74, 0x68, 0x6F, 0x72, 0x00, 0x28, 0x63, 0x29, 0x20,
    0x32, 0x30, 0x32, 0x34, 0x00, 0x46, 0x69, 0x72, 0x73, 0x74, 0x20, 0x72, 0x6F, 0x77, 0x00,
    0x4C, 0x65, 0x66, 0x74, 0x20, 0x73, 0x69, 0x64, 0x65, 0x00, 0x52, 0x69, 0x67, 0x68, 0x74,
    0x20, 0x73, 0x69, 0x64, 0x65, 0x00, 0x4C, 0x61, 0x73, 0x74, 0x20, 0x72, 0x6F, 0x77, 0x00,
    0x41, 0x20, 0x6E, 0x6F, 0x74, 0x65, 0x00,
];

const BARE: [u8; 82] = [
    0x9B, 0x4C, 0x41, 0x43, 0x52, 0x4F, 0x53, 0x53, 0x26, 0x44, 0x4F, 0x57, 0x4E, 0x00, 0x00,
    0x52, 0x49, 0xCF, 0x11, 0xFF, 0x13, 0x25, 0xA6, 0x64, 0x31, 0x2E, 0x33, 0x00, 0x00, 0x00,
    0x00, 0x00, 0x00, 0x00, 0x00, 0x00, 0x00, 0x00, 0x00, 0x00, 0x00, 0x00, 0x00, 0x00, 0x03,
    0x03, 0x04, 0x00, 0x01, 0x00, 0x00, 0x00, 0x41, 0x42, 0x43, 0x44, 0x2E, 0x45, 0x46, 0x47,
    0x48, 0x2D, 0x2D, 0x2D, 0x2D, 0x2E, 0x2D, 0x2D, 0x2D, 0x2D, 0x00, 0x00, 0x00, 0x61, 0x00,
    0x62, 0x00, 0x63, 0x00, 0x64, 0x00, 0x00,
];

fn tiny_content() -> PuzContent {
    PuzContent {
        width: 3,
        height: 3,
        solution: b"ABCD.EFGH".to_vec(),
        state: b"----.----".to_vec(),
        title: b"Tiny".to_vec(),
        author: b"Ann Author".to_vec(),
        copyright: b"(c) 2024".to_vec(),
        clues: vec![
            b"First row".to_vec(),
            b"Left side".to_vec(),
            b"Right side".to_vec(),
            b"Last row".to_vec(),
        ],
        notes: b"A note".to_vec(),
    }
}

#[test]
fn checksum_of_known_regions() {
    assert_eq!(checksum_region(&vec![], 0), 0);
    assert_eq!(checksum_region(&vec![], 0x1234), 0x1234);
    assert_eq!(checksum_region(&b"ABC".to_vec(), 0), 0x4074);
    assert_eq!(checksum_region(&vec![255; 5], 0), 0x11EE);
    assert_eq!(checksum_region(&b"ABCD.EFGH".to_vec(), 0), 0x718C);
}

#[test]
fn checksum_round_rotates_then_adds() {
    assert_eq!(checksum_add(0x0001, 0x01), 0x8001);
    assert_eq!(checksum_add(0x0002, 0x00), 0x0001);
    assert_eq!(checksum_add(0xFFFF, 0x01), 0x0000);
    assert_eq!(checksum_add(0xFFFE, 0xFF), 0x80FE);
    assert_eq!(checksum_add(0, 0x41), 0x0041);
}

#[test]
fn checksum_continues_over_regions() {
    let whole = checksum_region(&b"ABCD.EFGH".to_vec(), 7);
    let first = checksum_region(&b"ABCD".to_vec(), 7);
    assert_eq!(checksum_region(&b".EFGH".to_vec(), first), whole);
}

#[test]
fn write_gives_the_file_byte_for_byte() {
    assert_eq!(tiny_content().write(), TINY.to_vec());
}

#[test]
fn write_leaves_empty_texts_out_of_the_checksums() {
    let content = PuzContent {
        width: 3,
        height: 3,
        solution: b"ABCD.EFGH".to_vec(),
        state: b"----.----".to_vec(),
        title: vec![],
        author: vec![],
        copyright: vec![],
        clues: vec![b"a".to_vec(), b"b".to_vec(), b"c".to_vec(), b"d".to_vec()],
        notes: vec![],
    };
    assert_eq!(content.write(), BARE.to_vec());
}

#[test]
fn header_fields_stand_at_their_offsets() {
    let file = tiny_content().write();
    assert_eq!(&file[0x02..0x0E], b"ACROSS&DOWN\0");
    assert_eq!(&file[0x18..0x1C], b"1.3\0");
    assert_eq!(&file[0x1C..0x2C], &[0u8; 16]);
    assert_eq!(file[0x2C], 3);
    assert_eq!(file[0x2D], 3);
    assert_eq!(&file[0x2E..0x30], &[4, 0]);
    assert_eq!(&file[0x30..0x34], &[1, 0, 0, 0]);
    assert_eq!(&file[0x34..0x3D], b"ABCD.EFGH");
    assert_eq!(&file[0x3D..0x46], b"----.----");
    let header = checksum_region(&file[0x2C..0x34].to_vec(), 0);
    assert_eq!(&file[0x0E..0x10], &header.to_le_bytes());
}

#[test]
fn write_twice_gives_the_same_bytes() {
    assert_eq!(tiny_content().write(), tiny_content().write());
}

#[test]
fn clue_count_takes_two_bytes() {
    let mut content = tiny_content();
    content.clues = vec![b"x".to_vec(); 300];
    let file = content.write();
    assert_eq!(&file[0x2E..0x30], &[0x2C, 0x01]);
}

#[test]
fn append_bytes_adds_at_the_end() {
    let mut out = vec![1u8, 2];
    append_bytes(&mut out, &vec![3, 4, 5]);
    assert_eq!(out, vec![1, 2, 3, 4, 5]);
    append_bytes(&mut out, &vec![]);
    assert_eq!(out, vec![1, 2, 3, 4, 5]);
}
