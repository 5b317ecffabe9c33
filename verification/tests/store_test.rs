use rkv::store::KVStore;
use rkv::RkvError;

#[test]
fn test_add_item() {
    let key = b"life";
    let value = b"42";
    let mut store = KVStore::new(20);
    store.set(key, value).unwrap();
    match store.get(b"life") {
        Some(v) => assert_eq!(v, value, "Expected value to be b'42'"),
        None => panic!("Expected value to be b'42'"),
    }
}

#[test]
fn test_sstable_read() {
    let setup: [(&[u8], &[u8]); 8] = [
        (b"key1", b"value100"),
        (b"key2", b"value200"),
        (b"key3", b"value300"),
        (b"key1", b"value121"),
        (b"key4", b"value400"),
        (b"key5", b"value500"),
        (b"key6", b"value600"),
        (b"key7", b"value700"),
    ];
    let mut store = KVStore::new(20);
    for (key, value) in setup {
        store.set(key, value).unwrap();
    }
    match store.get(b"key4") {
        Some(v) => assert_eq!(v, b"value400", "Value mismatch"),
        None => panic!("Expected a value to be found'"),
    }
    match store.get(b"key1") {
        Some(v) => assert_eq!(v, b"value121", "Value mismatch"),
        None => panic!("Expected a value to be found'"),
    }
}

#[test]
fn test_delete_key() {
    let setup: [(&[u8], &[u8]); 7] = [
        (b"key1", b"value1"),
        (b"key2", b"value2"),
        (b"key3", b"value3"),
        (b"key4", b"value4"),
        (b"key5", b"value5"),
        (b"key6", b"value6"),
        (b"key7", b"value7"),
    ];
    let mut store = KVStore::new(20);
    for (key, value) in setup {
        store.set(key, value).unwrap();
    }
    store.delete(b"key2");
    if let Some(v) = store.get(b"key2") {
        panic!("Unexpected value {:?} found", v);
    }
}

#[test]
fn test_compaction() {
    let setup: [(&[u8], &[u8]); 12] = [
        (b"key1", b"value1"),
        (b"key2", b"value2"),
        (b"key3", b"value3"),
        (b"key4", b"value4"),
        (b"key1", b"value7"),
        (b"key5", b"value1"),
        (b"key5", b"value2"),
        (b"key5", b"value3"),
        (b"key5", b"value4"),
        (b"key5", b"value5"),
        (b"key6", b"value6"),
        (b"key7", b"value7"),
    ];
    let mut store = KVStore::new(10);
    for (key, value) in setup {
        store.set(key, value).unwrap();
    }
    store.compaction();
    match store.get(b"key1") {
        Some(v) => assert_eq!(v, b"value7", "Expected value to be b'value7'"),
        None => panic!("Expected a value to be found'"),
    }
    match store.get(b"key2") {
        Some(v) => assert_eq!(v, b"value2", "Expected value to be b'value2'"),
        None => panic!("Expected a value to be found'"),
    }
    match store.get(b"key3") {
        Some(v) => assert_eq!(v, b"value3", "Expected value to be b'value3'"),
        None => panic!("Expected a value to be found'"),
    }
    match store.get(b"key5") {
        Some(v) => assert_eq!(v, b"value5", "Expected value to be b'value3'"),
        None => panic!("Expected a value to be found'"),
    }
    assert_eq!(
        store.get_sstables_count(),
        1,
        "Compaction should result in 1 table."
    );
}

#[test]
fn basic_roundtrip_wide_budget() {
    let mut store = KVStore::new(100);
    store.set(b"life", b"42").unwrap();
    assert_eq!(store.get(b"life"), Some(b"42".to_vec()));
    assert_eq!(store.get_sstables_count(), 0);
    assert_eq!(store.size(), 6);
}

#[test]
fn overflow_triggers_flush() {
    let mut store = KVStore::new(20);
    let setup: [(&[u8], &[u8]); 7] = [
        (b"key1", b"value1"),
        (b"key2", b"value2"),
        (b"key3", b"value3"),
        (b"key4", b"value4"),
        (b"key5", b"value5"),
        (b"key6", b"value6"),
        (b"key7", b"value7"),
    ];
    for (key, value) in setup {
        store.set(key, value).unwrap();
    }
    assert_eq!(store.get(b"key1"), Some(b"value1".to_vec()));
    assert!(store.get_sstables_count() >= 1);
}

#[test]
fn delete_semantics() {
    let mut store = KVStore::new(20);
    let setup: [(&[u8], &[u8]); 7] = [
        (b"key1", b"value1"),
        (b"key2", b"value2"),
        (b"key3", b"value3"),
        (b"key4", b"value4"),
        (b"key5", b"value5"),
        (b"key6", b"value6"),
        (b"key7", b"value7"),
    ];
    for (key, value) in setup {
        store.set(key, value).unwrap();
    }
    store.delete(b"key2");
    assert_eq!(store.get(b"key2"), None);
    assert_eq!(store.get(b"key3"), Some(b"value3".to_vec()));
}

#[test]
fn overwrite_across_flushes() {
    let mut store = KVStore::new(10);
    store.set(b"key1", b"value1").unwrap();
    store.set(b"key2", b"value2").unwrap();
    store.set(b"key3", b"value3").unwrap();
    store.set(b"key4", b"value4").unwrap();
    store.set(b"key5", b"value5").unwrap();
    store.set(b"key1", b"value7").unwrap();
    store.compaction();
    assert_eq!(store.get(b"key1"), Some(b"value7".to_vec()));
}

#[test]
fn compaction_collapses_catalog() {
    let mut store = KVStore::new(10);
    store.set(b"key1", b"value1").unwrap();
    store.set(b"key2", b"value2").unwrap();
    store.set(b"key3", b"value3").unwrap();
    store.set(b"key4", b"value4").unwrap();
    store.set(b"key5", b"value5").unwrap();
    store.set(b"key1", b"value7").unwrap();
    store.compaction();
    assert_eq!(store.get_sstables_count(), 1);
    assert_eq!(store.get(b"key1"), Some(b"value7".to_vec()));
    assert_eq!(store.get(b"key2"), Some(b"value2".to_vec()));
    assert_eq!(store.get(b"key3"), Some(b"value3".to_vec()));
    assert_eq!(store.get(b"key4"), Some(b"value4".to_vec()));
    assert_eq!(store.get(b"key5"), Some(b"value5".to_vec()));
}

#[test]
fn pair_larger_than_budget_is_rejected() {
    let mut store = KVStore::new(5);
    assert_eq!(
        store.set(b"key1", b"value1"),
        Err(RkvError::PairLargerThanBudget)
    );
    assert_eq!(store.get(b"key1"), None);
    assert_eq!(store.size(), 0);
}

#[test]
fn setting_the_tombstone_sentinel_deletes() {
    let mut store = KVStore::new(100);
    store.set(b"key1", b"value1").unwrap();
    store.set(b"key1", b"~tombstone~").unwrap();
    assert_eq!(store.get(b"key1"), None);
}

#[test]
fn delete_of_absent_key_is_allowed() {
    let mut store = KVStore::new(100);
    store.delete(b"ghost");
    assert_eq!(store.get(b"ghost"), None);
}

#[test]
fn restart_preserves_flushed_data() {
    let mut store = KVStore::new(10);
    store.set(b"key1", b"value1").unwrap();
    store.set(b"key2", b"value2").unwrap();
    store.set(b"key3", b"value3").unwrap();
    // key1 and key2 are flushed by now; key3 may still sit in the memtable,
    // so flush everything by overflowing once more and checking the count.
    store.set(b"key4", b"value4").unwrap();
    store.set(b"key5", b"value5").unwrap();
    assert!(store.get_sstables_count() >= 1);
    // Persist every catalog table through its file images and decode them
    // back, as a restart does.
    let mut recovered = Vec::new();
    for i in 0..store.get_sstables_count() {
        let table = store.sstable_at(i);
        let (data, index) = table.file_images();
        let back = rkv::sstable::SSTable::from_files(
            table.get_level(),
            table.get_id().clone(),
            data.as_slice(),
            index.as_slice(),
        )
        .unwrap();
        recovered.push(back);
    }
    let restarted = KVStore::restore(10, recovered);
    assert_eq!(restarted.get(b"key1"), Some(b"value1".to_vec()));
    assert_eq!(restarted.get(b"key2"), Some(b"value2".to_vec()));
}

#[test]
fn get_on_a_fresh_store_finds_nothing() {
    let store = KVStore::new(100);
    assert_eq!(store.get(b"anything"), None);
    assert_eq!(store.get_sstables_count(), 0);
    assert_eq!(store.size(), 0);
}

#[test]
fn largest_key_the_format_holds() {
    let mut store = KVStore::new(70000);
    let key = vec![b'k'; 65535];
    store.set(key.as_slice(), b"value").unwrap();
    assert_eq!(store.get(key.as_slice()), Some(b"value".to_vec()));
    // Push the key through a flush and read it back from the catalog.
    let filler = vec![b'f'; 10000];
    store.set(b"filler1", filler.as_slice()).unwrap();
    store.set(b"filler2", filler.as_slice()).unwrap();
    store.set(b"filler3", filler.as_slice()).unwrap();
    store.set(b"filler4", filler.as_slice()).unwrap();
    store.set(b"filler5", filler.as_slice()).unwrap();
    store.set(b"filler6", filler.as_slice()).unwrap();
    store.set(b"filler7", filler.as_slice()).unwrap();
    assert!(store.get_sstables_count() >= 1);
    assert_eq!(store.get(key.as_slice()), Some(b"value".to_vec()));
}

#[test]
fn size_tracks_accepted_bytes() {
    let mut store = KVStore::new(100);
    assert_eq!(store.size(), 0);
    store.set(b"key1", b"value1").unwrap();
    assert_eq!(store.size(), 10);
    store.set(b"key2", b"value2").unwrap();
    assert_eq!(store.size(), 20);
}
