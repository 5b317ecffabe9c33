use rkv::compact::{compaction, merge_two, sstable_compaction};
use rkv::sstable::{create_sstable, tombstone, SSTable};

fn pairs(items: &[(&[u8], &[u8])]) -> Vec<(Vec<u8>, Vec<u8>)> {
    let mut v = Vec::new();
    for (k, val) in items {
        v.push((k.to_vec(), val.to_vec()));
    }
    v
}

#[test]
fn test_sstable_write() {
    let mut sstable = SSTable::new(1, "test.sstable".to_string());
    let key = b"test_key";
    let value = b"test_value";
    let store = pairs(&[(key, value)]);
    sstable.write(&store);
    let value_read = match sstable.search(key) {
        Some(v) => v,
        _ => panic!("Failed to read value."),
    };
    assert_eq!(value, value_read.as_slice());
}

#[test]
fn test_merge_n_sstable_large() {
    let mut sstable_o = create_sstable(0);
    let mut sstable_n = create_sstable(1);
    let mut sstable_m = create_sstable(2);
    // Sorted byte-wise: key1 < key10 < key3 < key5.
    sstable_o.write(&pairs(&[
        (b"key1", b"value1"),
        (b"key10", b"value6"),
        (b"key3", b"value3"),
        (b"key5", b"value2"),
    ]));
    sstable_n.write(&pairs(&[
        (b"key10", b"value9"),
        (b"key11", b"value7"),
        (b"key2", b"value4"),
        (b"key3", b"value5"),
        (b"key4", b"value2"),
        (b"key60", b"value7"),
    ]));
    merge_two(&sstable_o, &sstable_n, &mut sstable_m);
    let (data, _) = sstable_m.file_images();
    let expected: &[u8] = b"\x04\x00key1\x06\x00\x00\x00value1\
                            \x05\x00key10\x06\x00\x00\x00value9\
                            \x05\x00key11\x06\x00\x00\x00value7\
                            \x04\x00key2\x06\x00\x00\x00value4\
                            \x04\x00key3\x06\x00\x00\x00value5\
                            \x04\x00key4\x06\x00\x00\x00value2\
                            \x04\x00key5\x06\x00\x00\x00value2\
                            \x05\x00key60\x06\x00\x00\x00value7";
    assert_eq!(data.as_slice(), expected);
}

#[test]
fn test_merge_o_sstable_large() {
    let mut sstable_o = create_sstable(0);
    let mut sstable_n = create_sstable(1);
    let mut sstable_m = create_sstable(2);
    sstable_o.write(&pairs(&[
        (b"key10", b"value9"),
        (b"key11", b"value7"),
        (b"key2", b"value4"),
        (b"key3", b"value5"),
        (b"key4", b"value2"),
        (b"key60", b"value7"),
    ]));
    sstable_n.write(&pairs(&[
        (b"key1", b"value1"),
        (b"key10", b"value6"),
        (b"key3", b"value3"),
        (b"key5", b"value2"),
    ]));
    merge_two(&sstable_o, &sstable_n, &mut sstable_m);
    let (data, _) = sstable_m.file_images();
    let expected: &[u8] = b"\x04\x00key1\x06\x00\x00\x00value1\
                            \x05\x00key10\x06\x00\x00\x00value6\
                            \x05\x00key11\x06\x00\x00\x00value7\
                            \x04\x00key2\x06\x00\x00\x00value4\
                            \x04\x00key3\x06\x00\x00\x00value3\
                            \x04\x00key4\x06\x00\x00\x00value2\
                            \x04\x00key5\x06\x00\x00\x00value2\
                            \x05\x00key60\x06\x00\x00\x00value7";
    assert_eq!(data.as_slice(), expected);
}

#[test]
fn merge_keeps_newer_tombstone() {
    let mut older = create_sstable(0);
    let mut newer = create_sstable(0);
    let mut merged = create_sstable(1);
    older.write(&pairs(&[(b"key1", b"value1"), (b"key2", b"value2")]));
    newer.write(&pairs(&[(b"key2", b"~tombstone~".as_slice())]));
    merge_two(&older, &newer, &mut merged);
    assert_eq!(merged.search(b"key1"), Some(b"value1".to_vec()));
    assert_eq!(merged.search(b"key2"), None);
    // The tombstone record itself is preserved through a pairwise merge.
    assert_eq!(merged.search_raw(b"key2"), Some(tombstone()));
}

#[test]
fn scan_agrees_with_search() {
    let mut table = create_sstable(0);
    table.write(&pairs(&[
        (b"alpha", b"1"),
        (b"beta", b"~tombstone~".as_slice()),
        (b"gamma", b"3"),
    ]));
    assert_eq!(table.scan(b"alpha"), Some(b"1".to_vec()));
    assert_eq!(table.scan(b"beta"), None);
    assert_eq!(table.scan(b"gamma"), Some(b"3".to_vec()));
    assert_eq!(table.scan(b"delta"), None);
    assert_eq!(table.search(b"alpha"), Some(b"1".to_vec()));
    assert_eq!(table.search(b"beta"), None);
    assert_eq!(table.search(b"delta"), None);
}

#[test]
fn as_hashmap_omits_tombstones() {
    let mut table = create_sstable(0);
    table.write(&pairs(&[
        (b"alpha", b"1"),
        (b"beta", b"~tombstone~".as_slice()),
        (b"gamma", b"3"),
    ]));
    let live = table.as_hashmap();
    assert_eq!(
        live,
        pairs(&[(b"alpha", b"1"), (b"gamma", b"3")])
    );
}

#[test]
fn whole_catalog_compaction_drops_tombstones() {
    let mut older = create_sstable(0);
    let mut newer = create_sstable(0);
    older.write(&pairs(&[(b"key1", b"value1"), (b"key2", b"value2")]));
    newer.write(&pairs(&[
        (b"key2", b"~tombstone~".as_slice()),
        (b"key3", b"value3"),
    ]));
    let mut catalog = Vec::new();
    catalog.push(older);
    catalog.push(newer);
    let combined = compaction(&catalog);
    assert_eq!(combined.search(b"key1"), Some(b"value1".to_vec()));
    assert_eq!(combined.search(b"key2"), None);
    assert_eq!(combined.search(b"key3"), Some(b"value3".to_vec()));
    // Collapsing the whole catalog garbage-collects the tombstone record.
    assert_eq!(combined.search_raw(b"key2"), None);
}

#[test]
fn pairwise_compaction_reaches_one_table() {
    let mut catalog = Vec::new();
    for n in 0..5u8 {
        let mut t = create_sstable(0);
        let key = vec![b'k', b'0' + n];
        let val = vec![b'v', b'0' + n];
        let mut ps = Vec::new();
        ps.push((key, val));
        t.write(&ps);
        catalog.push(t);
    }
    let merged = sstable_compaction(catalog);
    assert_eq!(merged.len(), 1);
    for n in 0..5u8 {
        let key = vec![b'k', b'0' + n];
        let val = vec![b'v', b'0' + n];
        assert_eq!(merged[0].search(key.as_slice()), Some(val));
    }
}

#[test]
fn merge_levels_grow() {
    let a = create_sstable(0);
    assert_eq!(a.get_level(), 1);
    let b = create_sstable(a.get_level());
    assert_eq!(b.get_level(), 2);
}

#[test]
fn fresh_tables_carry_a_unique_name() {
    let a = create_sstable(0);
    let b = create_sstable(0);
    assert_eq!(a.get_id().len(), 36);
    assert_eq!(b.get_id().len(), 36);
    assert_ne!(a.get_id(), b.get_id());
}
