use simple_fatfs::codepage_ascii::Codepage;
use simple_fatfs::fat::options::FSOptions;
use simple_fatfs::fat::storage::SectorBuffer;
use simple_fatfs::fat::types::BlockIndex;

#[test]
fn unchecked_from_u64_keeps_low_bits() {
    assert_eq!(BlockIndex::unchecked_from_u64(0x1_2345_6789), BlockIndex(0x2345_6789));
    assert_eq!(BlockIndex::unchecked_from_u64(42), BlockIndex(42));
    assert_eq!(BlockIndex::unchecked_from_u64(u64::MAX), BlockIndex(u32::MAX));
}

#[test]
fn block_index_conversions() {
    assert_eq!(u64::from(BlockIndex(7)), 7u64);
    assert_eq!(u64::from(BlockIndex(u32::MAX)), 0xffff_ffffu64);
    assert_eq!(BlockIndex::from(5u32), BlockIndex(5));
    assert_eq!(BlockIndex::from(9u16), BlockIndex(9));
}

#[test]
fn block_index_multiplies() {
    assert_eq!(BlockIndex(6) * BlockIndex(7), BlockIndex(42));
    assert_eq!(BlockIndex(0x1_0000) * BlockIndex(0xffff), BlockIndex(0xffff_0000));
}

#[test]
fn block_index_orders_by_value() {
    assert!(BlockIndex(3) < BlockIndex(4));
    assert_eq!(BlockIndex(3).max(BlockIndex(9)), BlockIndex(9));
}

#[test]
fn decode_replaces_bytes_that_are_not_ascii() {
    let codepage = Codepage;
    assert_eq!(codepage.decode(b"Hi!"), "Hi!");
    assert_eq!(codepage.decode(&[0x48, 0x80, 0x7f, 0xff]), "H\u{FFFD}\u{7f}\u{FFFD}");
    assert_eq!(codepage.decode(&[]), "");
}

#[test]
fn encode_accepts_ascii_only() {
    let codepage = Codepage;
    assert_eq!(codepage.encode_char_checked('A'), Some(65));
    assert_eq!(codepage.encode_char_checked('\u{7f}'), Some(0x7f));
    assert_eq!(codepage.encode_char_checked('\u{80}'), None);
    assert_eq!(codepage.encode_char_checked('é'), None);
}

#[test]
fn options_builders_set_their_field() {
    let options = FSOptions::new();
    assert!(format!("{options:?}").contains("update_file_fields: false"));
    let options = options.with_update_file_fields(true).with_codepage(Codepage);
    assert!(format!("{options:?}").contains("update_file_fields: true"));
    let mut options = options;
    options.set_update_file_fields(false);
    options.set_codepage(Codepage);
    assert!(format!("{options:?}").contains("update_file_fields: false"));
}

#[test]
fn sector_buffer_starts_zeroed() {
    let buffer = SectorBuffer::new();
    assert_eq!(buffer.len(), 4096);
    assert!(buffer.iter().all(|b| *b == 0));
    assert_eq!(buffer.stored_sector(), 0);
}

#[test]
fn sector_buffer_downsize_keeps_prefix() {
    let mut buffer = SectorBuffer::new();
    buffer.as_mut_slice()[0] = 7;
    buffer.as_mut_slice()[511] = 9;
    buffer.as_mut_slice()[512] = 11;
    let small = buffer.downsize(512);
    assert_eq!(small.len(), 512);
    assert_eq!(small[0], 7);
    assert_eq!(small[511], 9);
    assert_eq!(small.as_slice()[1..511], [0u8; 510]);
    assert_eq!(small.stored_sector(), 0);
}
