use delta_tree::item::Item;

/// The size fits where it is at most what is expected on a machine with 64 bits.
fn size_ok(actual_size: usize, expected_64_bit_size: usize) -> bool {
    actual_size <= expected_64_bit_size
}

#[test]
fn size_of_pack_tree_item() {
    let actual = std::mem::size_of::<[Item<()>; 7_500_000]>();
    let expected = 300_000_000;
    assert!(
        size_ok(actual, expected),
        "we don't want these to grow unnoticed: {actual} <~ {expected}"
    );
}

#[test]
fn size_of_pack_verify_data_structure() {
    pub struct IndexEntry {
        _oid: [u8; 20],
        _pack_offset: u64,
        _crc32: Option<u32>,
    }
    pub struct EntryWithDefault {
        _index_entry: IndexEntry,
        _kind: u8,
        _object_size: u64,
        _decompressed_size: u64,
        _compressed_size: u64,
        _header_size: u16,
        _level: u16,
    }

    let actual = std::mem::size_of::<[Item<EntryWithDefault>; 7_500_000]>();
    let expected = 840_000_000;
    assert!(
        size_ok(actual, expected),
        "we don't want these to grow unnoticed: {actual} <~ {expected}"
    );
}
