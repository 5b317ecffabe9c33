use rkv::codec::{encode_table, key_value_at, parse_records, set_index, set_key, set_value};
use rkv::sstable::SSTable;
use rkv::RkvError;

fn pairs(items: &[(&[u8], &[u8])]) -> Vec<(Vec<u8>, Vec<u8>)> {
    let mut v = Vec::new();
    for (k, val) in items {
        v.push((k.to_vec(), val.to_vec()));
    }
    v
}

#[test]
fn set_key_writes_length_prefixed_key() {
    let mut buf = Vec::new();
    let written = set_key(&mut buf, 9, b"test_mode");
    assert_eq!(buf, b"\x09\x00test_mode".to_vec());
    assert_eq!(written, buf.len());
}

#[test]
fn set_value_writes_length_prefixed_value() {
    let mut buf = Vec::new();
    let written = set_value(&mut buf, 7, b"1234567");
    assert_eq!(buf, b"\x07\x00\x00\x001234567".to_vec());
    assert_eq!(written, buf.len());
}

#[test]
fn set_index_writes_an_offset_entry() {
    let mut buf = Vec::new();
    set_index(&mut buf, 0x0102030405060708);
    assert_eq!(buf, vec![8, 7, 6, 5, 4, 3, 2, 1]);
}

#[test]
fn encode_then_parse_roundtrips() {
    let records = pairs(&[(b"key1", b"value1"), (b"key2", b"value2")]);
    let (data, index) = encode_table(&records);
    assert_eq!(index.len(), 8 * records.len());
    let back = parse_records(data.as_slice()).unwrap();
    assert_eq!(back, records);
}

#[test]
fn index_entries_locate_records() {
    let records = pairs(&[(b"key1", b"value1"), (b"key10", b"value10")]);
    let (data, index) = encode_table(&records);
    // Record 0 begins at offset 0; record 1 after the 16 bytes of record 0.
    assert_eq!(&index[0..8], &[0, 0, 0, 0, 0, 0, 0, 0]);
    assert_eq!(&index[8..16], &[16, 0, 0, 0, 0, 0, 0, 0]);
    let (k0, v0) = key_value_at(0, index.as_slice(), data.as_slice()).unwrap();
    assert_eq!(k0, b"key1".to_vec());
    assert_eq!(v0, b"value1".to_vec());
    let (k1, v1) = key_value_at(1, index.as_slice(), data.as_slice()).unwrap();
    assert_eq!(k1, b"key10".to_vec());
    assert_eq!(v1, b"value10".to_vec());
}

#[test]
fn key_value_at_rejects_a_bad_position() {
    let records = pairs(&[(b"key1", b"value1")]);
    let (data, index) = encode_table(&records);
    assert_eq!(
        key_value_at(1, index.as_slice(), data.as_slice()),
        Err(RkvError::Corrupt)
    );
}

#[test]
fn key_value_at_rejects_a_mismatched_index() {
    let records = pairs(&[(b"key1", b"value1")]);
    let (data, _) = encode_table(&records);
    let wrong_index = vec![1, 0, 0, 0, 0, 0, 0, 0];
    assert_eq!(
        key_value_at(0, wrong_index.as_slice(), data.as_slice()),
        Err(RkvError::Corrupt)
    );
}

#[test]
fn parse_rejects_truncated_data() {
    let records = pairs(&[(b"key1", b"value1")]);
    let (data, _) = encode_table(&records);
    let cut = &data[0..data.len() - 1];
    assert_eq!(parse_records(cut), Err(RkvError::Corrupt));
    assert_eq!(parse_records(&data[0..1]), Err(RkvError::Corrupt));
}

#[test]
fn parse_rejects_overrunning_length_field() {
    // A key length of 200 with only four key bytes behind it.
    let bytes = b"\xc8\x00key1";
    assert_eq!(parse_records(bytes), Err(RkvError::Corrupt));
}

#[test]
fn from_files_roundtrips_a_table() {
    let mut table = SSTable::new(3, "table-under-test".to_string());
    table.write(&pairs(&[(b"key1", b"value1"), (b"key2", b"value2")]));
    let (data, index) = table.file_images();
    let back = SSTable::from_files(3, "table-under-test".to_string(), data.as_slice(), index.as_slice())
        .unwrap();
    assert_eq!(back.get_level(), 3);
    assert_eq!(back.search(b"key1"), Some(b"value1".to_vec()));
    assert_eq!(back.search(b"key2"), Some(b"value2".to_vec()));
    assert_eq!(back.search(b"key3"), None);
}

#[test]
fn from_files_rejects_unsorted_records() {
    let records = pairs(&[(b"key2", b"value2"), (b"key1", b"value1")]);
    // Encode out of order by hand: two records, keys descending.
    let mut data = Vec::new();
    let mut index = Vec::new();
    for (k, v) in &records {
        set_index(&mut index, data.len() as u64);
        set_key(&mut data, k.len(), k.as_slice());
        set_value(&mut data, v.len(), v.as_slice());
    }
    assert!(matches!(
        SSTable::from_files(1, "x".to_string(), data.as_slice(), index.as_slice()),
        Err(RkvError::Corrupt)
    ));
}

#[test]
fn from_files_rejects_a_wrong_index() {
    let mut table = SSTable::new(1, "y".to_string());
    table.write(&pairs(&[(b"key1", b"value1")]));
    let (data, mut index) = table.file_images();
    index[0] = 1;
    assert!(matches!(
        SSTable::from_files(1, "y".to_string(), data.as_slice(), index.as_slice()),
        Err(RkvError::Corrupt)
    ));
}

#[test]
fn from_files_rejects_an_empty_key() {
    // One record with key length zero.
    let mut data = Vec::new();
    let mut index = Vec::new();
    set_index(&mut index, 0);
    set_key(&mut data, 0, b"");
    set_value(&mut data, 6, b"value1");
    assert!(matches!(
        SSTable::from_files(1, "z".to_string(), data.as_slice(), index.as_slice()),
        Err(RkvError::Corrupt)
    ));
}
