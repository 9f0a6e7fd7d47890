use memflow_lime::connector::{create_connector, help, OpenError, PhysicalReader};
use memflow_lime::header::{DecodeError, LimeHeader};
use memflow_lime::reader::{plan_read, read_physical, ReadError, ReadSegment};
use memflow_lime::table::{TranslationEntry, TranslationTable};
use memflow_lime::walker::WalkError;

fn record(s_addr: u64, payload: &[u8]) -> Vec<u8> {
    let e_addr = s_addr + payload.len() as u64 - 1;
    let mut bytes = LimeHeader { version: 1, s_addr, e_addr, reserved: [0; 8] }.encode().to_vec();
    bytes.extend_from_slice(payload);
    bytes
}

fn pattern(len: usize, seed: u8) -> Vec<u8> {
    (0..len).map(|i| (i as u8).wrapping_mul(31).wrapping_add(seed)).collect()
}

fn two_range_dump() -> Vec<u8> {
    let mut bytes = record(0x1000, &pattern(4096, 1));
    bytes.extend(record(0x2000, &pattern(4096, 2)));
    bytes
}

fn open(bytes: Vec<u8>) -> PhysicalReader {
    create_connector(Some(bytes)).unwrap()
}

#[test]
fn unspecified_file_causes_error() {
    let connector = create_connector(None);
    assert_eq!(connector.err().unwrap(), OpenError::MissingTarget);
}

#[test]
fn read_physical_location() {
    let payload = pattern(0x2000, 7);
    let con = open(record(0, &payload));

    let mut buff = [0u8; 128];
    con.phys_read_into(0x1000, &mut buff).unwrap();

    assert_eq!(buff[..], payload[0x1000..0x1080]);
}

#[test]
fn bad_magic_is_a_malformed_dump() {
    let mut bytes = two_range_dump();
    bytes[3] = 0x46;
    assert_eq!(
        create_connector(Some(bytes)).err().unwrap(),
        OpenError::MalformedDump(WalkError::MalformedHeader { kind: DecodeError::BadMagic, offset: 0 })
    );
}

#[test]
fn truncated_dump_does_not_open() {
    let mut bytes = two_range_dump();
    bytes.pop();
    assert_eq!(
        create_connector(Some(bytes)).err().unwrap(),
        OpenError::MalformedDump(WalkError::TruncatedPayload)
    );
    let mut bytes = two_range_dump();
    bytes.truncate(4128 + 7);
    assert_eq!(
        create_connector(Some(bytes)).err().unwrap(),
        OpenError::MalformedDump(WalkError::TruncatedHeader)
    );
}

#[test]
fn empty_dump_answers_every_read_with_unmapped() {
    let con = open(Vec::new());
    assert!(con.table().is_empty());
    let mut out = [0u8; 4];
    assert_eq!(con.phys_read_into(0, &mut out), Err(ReadError::UnmappedAddress(0)));
    assert_eq!(con.phys_read_into(0x1000, &mut out), Err(ReadError::UnmappedAddress(0x1000)));
    assert_eq!(con.phys_read_into(0x1000, &mut []), Ok(()));
}

#[test]
fn read_at_the_start_of_a_range() {
    let bytes = record(0x40000000, &pattern(512, 3));
    let con = open(bytes.clone());
    let mut out = [0u8; 128];
    assert_eq!(con.phys_read_into(0x40000000, &mut out), Ok(()));
    assert_eq!(out[..], bytes[32..160]);
}

#[test]
fn unmapped_read_names_the_address() {
    let con = open(record(0x40000000, &pattern(512, 3)));
    let mut out = [0u8; 128];
    assert_eq!(con.phys_read_into(0x00001000, &mut out), Err(ReadError::UnmappedAddress(0x00001000)));
}

#[test]
fn straddling_read_is_served_from_both_records() {
    let bytes = two_range_dump();
    let con = open(bytes.clone());
    assert_eq!(
        con.table().entries(),
        &[
            TranslationEntry { phys_start: 0x1000, length: 4096, file_offset: 32 },
            TranslationEntry { phys_start: 0x2000, length: 4096, file_offset: 4160 },
        ]
    );
    assert_eq!(
        plan_read(con.table(), 0x1FF0, 32),
        Ok(vec![
            ReadSegment { file_offset: 4112, len: 16 },
            ReadSegment { file_offset: 4160, len: 16 },
        ])
    );
    let mut out = [0u8; 32];
    assert_eq!(con.phys_read_into(0x1FF0, &mut out), Ok(()));
    let mut want = bytes[4112..4128].to_vec();
    want.extend_from_slice(&bytes[4160..4176]);
    assert_eq!(out[..], want[..]);
}

#[test]
fn read_that_runs_off_a_range_names_the_first_unmapped_address() {
    let con = open(two_range_dump());
    let mut out = [0u8; 32];
    assert_eq!(con.phys_read_into(0x2FF0, &mut out), Err(ReadError::UnmappedAddress(0x3000)));
    assert_eq!(plan_read(con.table(), 0x2FF0, 32), Err(ReadError::UnmappedAddress(0x3000)));
    assert_eq!(con.phys_read_into(0x0FFF, &mut out), Err(ReadError::UnmappedAddress(0x0FFF)));
}

#[test]
fn one_read_equals_its_parts() {
    let con = open(two_range_dump());
    let (addr, len) = (0x1F00u64, 0x300usize);
    let mut whole = vec![0u8; len];
    con.phys_read_into(addr, &mut whole).unwrap();
    for cuts in [vec![0usize], vec![1], vec![0x100], vec![0xFF, 0x101], vec![0x2FF], vec![7, 7, 0x200, 0x2F0]] {
        let mut parts = Vec::new();
        let mut from = 0;
        for to in cuts.into_iter().chain([len]) {
            let mut part = vec![0u8; to - from];
            con.phys_read_into(addr + from as u64, &mut part).unwrap();
            parts.extend(part);
            from = to;
        }
        assert_eq!(parts, whole);
    }
}

#[test]
fn overlap_makes_one_read_differ_from_its_parts() {
    let mut bytes = record(0x1800, &[1u8; 0x800]);
    bytes.extend(record(0x1000, &[2u8; 0x1000]));
    let con = open(bytes);
    let mut whole = [0u8; 0x1000];
    con.phys_read_into(0x1000, &mut whole).unwrap();
    assert_eq!(whole, [2u8; 0x1000]);
    let mut second = [0u8; 0x800];
    con.phys_read_into(0x1800, &mut second).unwrap();
    assert_eq!(second, [1u8; 0x800]);
}

#[test]
fn plan_of_an_empty_read_is_empty() {
    let con = open(two_range_dump());
    assert_eq!(plan_read(con.table(), 0x9999, 0), Ok(vec![]));
}

#[test]
fn plan_covers_a_range_never_held_in_memory() {
    let mut table = TranslationTable::new();
    assert!(table.push(0x40000000, 0xBBD00000));
    assert_eq!(
        plan_read(&table, 0x40000000, 128),
        Ok(vec![ReadSegment { file_offset: 32, len: 128 }])
    );
    assert_eq!(plan_read(&table, 0x00001000, 128), Err(ReadError::UnmappedAddress(0x00001000)));
    assert_eq!(
        plan_read(&table, 0xFBCFFFFF, 1),
        Ok(vec![ReadSegment { file_offset: 32 + 0xBBCFFFFF, len: 1 }])
    );
}

#[test]
fn read_from_a_file_shorter_than_the_table_says_fails() {
    let mut table = TranslationTable::new();
    assert!(table.push(0x1000, 64));
    let file = vec![0u8; 32 + 63];
    let mut out = [0u8; 64];
    assert_eq!(read_physical(&table, &file, 0x1000, &mut out), Err(ReadError::Io));
    let mut out = [0u8; 63];
    assert_eq!(read_physical(&table, &file, 0x1000, &mut out), Ok(()));
}

#[test]
fn read_at_the_top_of_the_address_space() {
    let payload = pattern(16, 9);
    let con = open(record(u64::MAX - 15, &payload));
    let mut out = [0u8; 16];
    assert_eq!(con.phys_read_into(u64::MAX - 15, &mut out), Ok(()));
    assert_eq!(out[..], payload[..]);
    let mut last = [0u8; 1];
    assert_eq!(con.phys_read_into(u64::MAX, &mut last), Ok(()));
    assert_eq!(last[0], payload[15]);
}

#[test]
fn walk_failures_map_to_open_errors() {
    assert_eq!(OpenError::from_walk_error(WalkError::Io), OpenError::UnableToReadFile);
    assert_eq!(
        OpenError::from_walk_error(WalkError::TruncatedHeader),
        OpenError::MalformedDump(WalkError::TruncatedHeader)
    );
    assert_eq!(
        OpenError::from_walk_error(WalkError::TruncatedPayload),
        OpenError::MalformedDump(WalkError::TruncatedPayload)
    );
    let malformed = WalkError::MalformedHeader { kind: DecodeError::BadReserved, offset: 96 };
    assert_eq!(OpenError::from_walk_error(malformed), OpenError::MalformedDump(malformed));
}

#[test]
fn open_and_read_errors_have_stable_reasons() {
    assert_eq!(OpenError::MissingTarget.reason(), "missing target");
    assert_eq!(OpenError::UnableToOpenFile.reason(), "unable to open file");
    assert_eq!(OpenError::UnableToReadFile.reason(), "unable to read file");
    assert_eq!(OpenError::UnableToSeekFile.reason(), "unable to seek file");
    assert_eq!(OpenError::MalformedDump(WalkError::TruncatedHeader).reason(), "truncated header");
    assert_eq!(ReadError::UnmappedAddress(1).reason(), "unmapped address");
    assert_eq!(ReadError::UnmappedAddress(2).reason(), "unmapped address");
    assert_eq!(ReadError::Io.reason(), "unable to read file");
}

#[test]
fn help_describes_the_target_option() {
    let text = help();
    assert!(text.contains("target"));
    assert_eq!(
        text,
        "The `lime` connector implements the LiME file format parser.\n\nThe `target` argument specifies the filename of the file to be opened.\n"
    );
}
