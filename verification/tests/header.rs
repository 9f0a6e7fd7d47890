use binread::BinReaderExt;
use memflow_lime::header::{DecodeError, LimeHeader, HEADER_SIZE, LIME_MAGIC, LIME_VERSION};
use std::io::Cursor;

const RAW_HEADER: [u8; 32] = [
    0x4C, 0x69, 0x4D, 0x45, 1, 0, 0, 0, 0, 0, 0, 64, 0, 0, 0, 0, 255, 255, 207, 251, 0, 0, 0, 0, 0, 0,
    0, 0, 0, 0, 0, 0,
];

fn header(s_addr: u64, e_addr: u64) -> LimeHeader {
    LimeHeader { version: 1, s_addr, e_addr, reserved: [0; 8] }
}

#[test]
fn header_parser_works() {
    let raw_header: [u8; HEADER_SIZE] = RAW_HEADER;

    let header = LimeHeader::decode(&raw_header).unwrap();

    assert_eq!(header.version, 1);
    assert_eq!(header.s_addr, 0x40000000);
    assert_eq!(header.e_addr, 0xFBD00000 - 1);
    assert_eq!(header.reserved, [0; 8]);
}

#[test]
fn single_range_header_has_the_documented_payload_size() {
    let header = LimeHeader::decode(&RAW_HEADER).unwrap();
    assert_eq!(header.e_addr, 0xFBCFFFFF);
    assert_eq!(header.mem_section_size(), 0xBBD00000);
}

#[test]
fn magic_is_the_four_letters_in_file_order() {
    assert_eq!(LIME_MAGIC, 0x454D694C);
    assert_eq!(LIME_VERSION, 1);
    assert_eq!(&header(0, 0).encode()[0..4], b"LiME");
}

#[test]
fn magic_in_reverse_byte_order_is_rejected() {
    let mut raw = RAW_HEADER;
    raw[0] = 69;
    raw[1] = 77;
    raw[2] = 105;
    raw[3] = 76;
    assert_eq!(LimeHeader::decode(&raw), Err(DecodeError::BadMagic));
}

#[test]
fn bad_magic_is_reported() {
    let mut raw = RAW_HEADER;
    raw[3] = 0x46;
    assert_eq!(LimeHeader::decode(&raw), Err(DecodeError::BadMagic));
}

#[test]
fn each_magic_byte_is_checked() {
    for i in 0..4 {
        let mut raw = RAW_HEADER;
        raw[i] ^= 0x80;
        assert_eq!(LimeHeader::decode(&raw), Err(DecodeError::BadMagic));
    }
}

#[test]
fn unsupported_version_carries_the_version() {
    let mut raw = RAW_HEADER;
    raw[4] = 2;
    assert_eq!(LimeHeader::decode(&raw), Err(DecodeError::UnsupportedVersion(2)));
    raw[4] = 1;
    raw[7] = 0x80;
    assert_eq!(LimeHeader::decode(&raw), Err(DecodeError::UnsupportedVersion(0x8000_0001)));
    raw[4] = 0;
    raw[7] = 0;
    assert_eq!(LimeHeader::decode(&raw), Err(DecodeError::UnsupportedVersion(0)));
}

#[test]
fn end_below_start_is_a_bad_range() {
    let raw = header(0x2000, 0x1FFF).encode();
    assert_eq!(LimeHeader::decode(&raw), Err(DecodeError::BadRange));
}

#[test]
fn nonzero_reserved_byte_is_reported() {
    for i in 24..32 {
        let mut raw = RAW_HEADER;
        raw[i] = 1;
        assert_eq!(LimeHeader::decode(&raw), Err(DecodeError::BadReserved));
    }
}

#[test]
fn first_failing_check_names_the_error() {
    let mut raw = header(0x2000, 0x1FFF).encode();
    raw[31] = 7;
    assert_eq!(LimeHeader::decode(&raw), Err(DecodeError::BadRange));
    raw[4] = 9;
    assert_eq!(LimeHeader::decode(&raw), Err(DecodeError::UnsupportedVersion(9)));
    raw[0] = 0;
    assert_eq!(LimeHeader::decode(&raw), Err(DecodeError::BadMagic));
}

#[test]
fn single_byte_range_is_valid() {
    let h = LimeHeader::decode(&header(0x1234, 0x1234).encode()).unwrap();
    assert_eq!(h.mem_section_size(), 1);
}

#[test]
fn encoding_then_decoding_gives_the_header_back() {
    let cases = [
        (0u64, 0u64),
        (0, 0xFFF),
        (0x40000000, 0xFBCFFFFF),
        (0x0123_4567_89AB_CDEF, 0xFEDC_BA98_7654_3210),
        (u64::MAX, u64::MAX),
        (0, u64::MAX),
    ];
    for (s_addr, e_addr) in cases {
        let h = header(s_addr, e_addr);
        assert_eq!(LimeHeader::decode(&h.encode()), Ok(h));
    }
}

#[test]
fn decoding_then_encoding_gives_the_bytes_back() {
    let h = LimeHeader::decode(&RAW_HEADER).unwrap();
    assert_eq!(h.encode(), RAW_HEADER);
}

#[test]
fn encoding_is_little_endian() {
    let raw = header(0x0102_0304_0506_0708, 0x1112_1314_1516_1718).encode();
    assert_eq!(&raw[4..8], &[1, 0, 0, 0]);
    assert_eq!(&raw[8..16], &[8, 7, 6, 5, 4, 3, 2, 1]);
    assert_eq!(&raw[16..24], &[0x18, 0x17, 0x16, 0x15, 0x14, 0x13, 0x12, 0x11]);
    assert_eq!(&raw[24..32], &[0; 8]);
}

#[test]
fn fields_agree_with_an_independent_little_endian_reader() {
    let raw = header(0x0123_4567_89AB_CDEF, 0xFEDC_BA98_7654_3210).encode();
    let mut cursor = Cursor::new(&raw[..]);
    let magic: u32 = cursor.read_le().unwrap();
    let version: u32 = cursor.read_le().unwrap();
    let s_addr: u64 = cursor.read_le().unwrap();
    let e_addr: u64 = cursor.read_le().unwrap();
    let h = LimeHeader::decode(&raw).unwrap();
    assert_eq!(magic, LIME_MAGIC);
    assert_eq!(version, h.version);
    assert_eq!(s_addr, h.s_addr);
    assert_eq!(e_addr, h.e_addr);
}

#[test]
fn decode_errors_have_stable_reasons() {
    assert_eq!(DecodeError::BadMagic.reason(), "bad magic");
    assert_eq!(DecodeError::UnsupportedVersion(3).reason(), "unsupported version");
    assert_eq!(DecodeError::UnsupportedVersion(4).reason(), "unsupported version");
    assert_eq!(DecodeError::BadRange.reason(), "bad range");
    assert_eq!(DecodeError::BadReserved.reason(), "bad reserved");
}
