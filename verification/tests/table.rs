use memflow_lime::table::{OutOfRange, Translation, TranslationEntry, TranslationTable};

fn two_ranges() -> TranslationTable {
    let mut table = TranslationTable::new();
    assert!(table.push(0x1000, 0x1000));
    assert!(table.push(0x2000, 0x1000));
    table
}

#[test]
fn new_table_is_empty() {
    let table = TranslationTable::new();
    assert!(table.is_empty());
    assert_eq!(table.len(), 0);
    assert_eq!(table.end_offset(), 0);
    assert_eq!(table.translate(0, 1), Err(OutOfRange));
}

#[test]
fn file_offsets_are_cumulative() {
    let table = two_ranges();
    assert_eq!(
        table.entries(),
        &[
            TranslationEntry { phys_start: 0x1000, length: 0x1000, file_offset: 32 },
            TranslationEntry { phys_start: 0x2000, length: 0x1000, file_offset: 4160 },
        ]
    );
    assert_eq!(table.end_offset(), 4160 + 4096);
    assert_eq!(table.len(), 2);
    assert!(!table.is_empty());
}

#[test]
fn push_rejects_an_empty_range() {
    let mut table = two_ranges();
    assert!(!table.push(0x5000, 0));
    assert_eq!(table.len(), 2);
    assert_eq!(table.end_offset(), 8256);
}

#[test]
fn push_rejects_a_range_beyond_the_address_space() {
    let mut table = TranslationTable::new();
    assert!(!table.push(u64::MAX, 2));
    assert!(table.push(u64::MAX, 1));
    assert!(table.push(u64::MAX - 9, 10));
    assert_eq!(table.len(), 2);
}

#[test]
fn push_rejects_a_record_beyond_the_largest_offset() {
    let mut table = TranslationTable::new();
    assert!(!table.push(0, u64::MAX - 31));
    assert!(table.push(0, u64::MAX - 32));
    assert_eq!(table.end_offset(), u64::MAX);
    assert!(!table.push(0, 1));
    assert_eq!(table.len(), 1);
}

#[test]
fn translation_is_exact() {
    let table = two_ranges();
    for (addr, offset) in [(0x1000u64, 32u64), (0x1001, 33), (0x1FFF, 4127), (0x2000, 4160), (0x2ABC, 4160 + 0xABC)] {
        let t = table.translate(addr, u64::MAX).unwrap();
        assert_eq!(t.file_offset, offset);
    }
}

#[test]
fn usable_length_is_capped_by_the_request_and_by_the_entry() {
    let table = two_ranges();
    assert_eq!(table.translate(0x1FF0, 32), Ok(Translation { file_offset: 4112, usable_len: 16 }));
    assert_eq!(table.translate(0x1FF0, 8), Ok(Translation { file_offset: 4112, usable_len: 8 }));
    assert_eq!(table.translate(0x1000, u64::MAX), Ok(Translation { file_offset: 32, usable_len: 0x1000 }));
    assert_eq!(table.translate(0x1000, 0), Ok(Translation { file_offset: 32, usable_len: 0 }));
}

#[test]
fn boundaries_are_closed_below_and_open_above() {
    let mut table = TranslationTable::new();
    assert!(table.push(0x1000, 0x1000));
    assert_eq!(table.translate(0x1FFF, 1), Ok(Translation { file_offset: 32 + 0xFFF, usable_len: 1 }));
    assert_eq!(table.translate(0x2000, 1), Err(OutOfRange));
    assert_eq!(table.translate(0x0FFF, 1), Err(OutOfRange));
    assert_eq!(table.translate(0x1000, 1), Ok(Translation { file_offset: 32, usable_len: 1 }));
}

#[test]
fn address_past_an_entry_may_be_covered_by_another() {
    let table = two_ranges();
    assert_eq!(table.translate(0x2000, 1), Ok(Translation { file_offset: 4160, usable_len: 1 }));
    assert_eq!(table.translate(0x3000, 1), Err(OutOfRange));
}

#[test]
fn earliest_entry_wins_where_ranges_overlap() {
    let mut table = TranslationTable::new();
    assert!(table.push(0x1800, 0x1000));
    assert!(table.push(0x1000, 0x1000));
    assert_eq!(table.translate(0x1800, 0x2000), Ok(Translation { file_offset: 32, usable_len: 0x1000 }));
    assert_eq!(
        table.translate(0x1000, 0x2000),
        Ok(Translation { file_offset: 32 + 0x1000 + 32, usable_len: 0x1000 })
    );
}

#[test]
fn ranges_may_come_out_of_order() {
    let mut table = TranslationTable::new();
    assert!(table.push(0x9000, 0x10));
    assert!(table.push(0x1000, 0x10));
    assert_eq!(table.translate(0x1008, 100), Ok(Translation { file_offset: 32 + 0x10 + 32 + 8, usable_len: 8 }));
    assert_eq!(table.translate(0x9008, 100), Ok(Translation { file_offset: 32 + 8, usable_len: 8 }));
    assert_eq!(table.translate(0x5000, 100), Err(OutOfRange));
}

#[test]
fn top_of_the_address_space_translates() {
    let mut table = TranslationTable::new();
    assert!(table.push(u64::MAX - 0xF, 0x10));
    assert_eq!(table.translate(u64::MAX, u64::MAX), Ok(Translation { file_offset: 32 + 0xF, usable_len: 1 }));
}
