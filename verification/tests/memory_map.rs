use memflow::types::{umem, Address};
use memflow_lime::memory_map::to_memory_map;
use memflow_lime::table::TranslationTable;

fn table_of(ranges: &[(u64, u64)]) -> TranslationTable {
    let mut table = TranslationTable::new();
    for &(start, length) in ranges {
        assert!(table.push(start, length));
    }
    table
}

#[test]
fn ascending_table_becomes_a_memory_map() {
    let table = table_of(&[(0x1000, 0x1000), (0x2000, 0x1000), (0x8000, 0x10)]);
    let mappings = to_memory_map(&table).unwrap().into_vec();
    let got: Vec<(u64, u64, u64)> =
        mappings.iter().map(|m| (m.base.to_umem(), m.size, m.real_base.to_umem())).collect();
    assert_eq!(got, vec![(0x1000, 0x1000, 32), (0x2000, 0x1000, 4160), (0x8000, 0x10, 8288)]);
}

#[test]
fn empty_table_becomes_an_empty_memory_map() {
    let map = to_memory_map(&TranslationTable::new()).unwrap();
    assert!(map.is_empty());
}

#[test]
fn memory_map_translates_as_the_table_does() {
    let table = table_of(&[(0x1000, 0x1000), (0x2000, 0x1000), (0x8000, 0x10)]);
    let map = to_memory_map(&table).unwrap();
    for (addr, len) in [(0x1000u64, 1u64), (0x1FF0, 32), (0x2000, 0x1000), (0x2FFF, 1), (0x8008, 8)] {
        let mut ignore = |_| true;
        let found = map.map::<umem, _>(Address::from(addr), len, Some(&mut ignore)).next().unwrap();
        let want = table.translate(addr, len).unwrap();
        assert_eq!((found.0).0.to_umem(), want.file_offset);
        assert_eq!((found.0).1, want.usable_len);
    }
}

#[test]
fn table_out_of_order_has_no_memory_map() {
    assert!(to_memory_map(&table_of(&[(0x2000, 0x1000), (0x1000, 0x1000)])).is_none());
}

#[test]
fn table_with_overlap_has_no_memory_map() {
    assert!(to_memory_map(&table_of(&[(0x1000, 0x1000), (0x1FFF, 0x1000)])).is_none());
}

#[test]
fn table_that_reaches_the_top_of_the_address_space_has_no_memory_map() {
    assert!(to_memory_map(&table_of(&[(u64::MAX - 0xF, 0x10)])).is_none());
    assert!(to_memory_map(&table_of(&[(u64::MAX - 0x10, 0x10)])).is_some());
}
