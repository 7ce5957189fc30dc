use engine::memtable::{Memtable, Value};
use engine::skiplist_error::SkipListError;
use engine::skiplist::SkipList;
use engine::wal::{encode_entry, encode_raw_entry, recover};

#[test]
fn test_wal_append_and_recover() {
    let mut log: Vec<u8> = Vec::new();

    let key1 = b"wal_key1".to_vec();
    let val1 = Value::Data(b"wal_val1".to_vec());
    log.extend_from_slice(&encode_entry(&key1, &val1));

    let key2 = b"wal_key2".to_vec();
    let val2 = Value::Tombstone;
    log.extend_from_slice(&encode_entry(&key2, &val2));

    let mut memtable = Memtable::new();
    recover(&log, &mut memtable.skiplist).unwrap();

    match memtable.extract(&key1).unwrap() {
        Value::Data(v) => assert_eq!(v, b"wal_val1".to_vec()),
        _ => panic!("Expected Value::Data for wal_key1"),
    }

    match memtable.extract(&key2).unwrap() {
        Value::Tombstone => (),
        _ => panic!("Expected Value::Tombstone for wal_key2"),
    }
}

#[test]
fn test_wal_recycle() {
    let mut log: Vec<u8> = Vec::new();

    let key = b"recycle_key".to_vec();
    let val = Value::Data(b"recycle_val".to_vec());
    log.extend_from_slice(&encode_entry(&key, &val));

    // Recycling starts an empty log.
    log.clear();

    let mut memtable = Memtable::new();
    recover(&log, &mut memtable.skiplist).unwrap();

    match memtable.extract(&key).unwrap() {
        Value::Missing => (),
        _ => panic!("Expected Value::Missing after WAL recycling"),
    }
}

#[test]
fn wal_entry_starts_with_length() {
    let entry = encode_entry(&b"k".to_vec(), &Value::Data(b"v".to_vec()));
    let mut len = [0u8; 8];
    len.copy_from_slice(&entry[..8]);
    assert_eq!(u64::from_le_bytes(len) as usize, entry.len() - 8);
}

#[test]
fn wal_later_entry_wins() {
    let key = b"k".to_vec();
    let mut log = encode_entry(&key, &Value::Data(b"one".to_vec()));
    log.extend_from_slice(&encode_entry(&key, &Value::Data(b"two".to_vec())));
    let mut memtable = Memtable::new();
    recover(&log, &mut memtable.skiplist).unwrap();
    assert_eq!(memtable.extract(&key).unwrap(), Value::Data(b"two".to_vec()));
}

#[test]
fn wal_truncated_entry_is_io_eof() {
    let key = b"k".to_vec();
    let mut log = encode_entry(&key, &Value::Data(b"one".to_vec()));
    let second = encode_entry(&b"z".to_vec(), &Value::Data(b"two".to_vec()));
    log.extend_from_slice(&second[..second.len() - 1]);
    let mut memtable = Memtable::new();
    let r = recover(&log, &mut memtable.skiplist);
    assert!(matches!(r, Err(SkipListError::IoError(ref e)) if e.kind() == std::io::ErrorKind::UnexpectedEof));
    // The complete entry before the cut stays recovered.
    assert_eq!(memtable.extract(&key).unwrap(), Value::Data(b"one".to_vec()));
}

#[test]
fn wal_undecodable_entry_is_bitcode_error() {
    let mut log: Vec<u8> = Vec::new();
    log.extend_from_slice(&3u64.to_le_bytes());
    log.extend_from_slice(&[0xff, 0xff, 0xff]);
    let mut memtable = Memtable::new();
    let r = recover(&log, &mut memtable.skiplist);
    assert!(matches!(r, Err(SkipListError::BitcodeError(_))));
}

#[test]
fn wal_short_tail_is_ignored() {
    let key = b"k".to_vec();
    let mut log = encode_entry(&key, &Value::Tombstone);
    log.extend_from_slice(&[1, 2, 3]);
    let mut memtable = Memtable::new();
    recover(&log, &mut memtable.skiplist).unwrap();
    assert_eq!(memtable.extract(&key).unwrap(), Value::Tombstone);
}

#[test]
fn raw_entries_rebuild_a_skip_list() {
    let mut log = encode_raw_entry(&b"b".to_vec(), &b"2".to_vec());
    log.extend_from_slice(&encode_raw_entry(&b"a".to_vec(), &b"1".to_vec()));
    log.extend_from_slice(&encode_raw_entry(&b"b".to_vec(), &b"3".to_vec()));
    let mut list: SkipList<Vec<u8>, Vec<u8>> = SkipList::new(5, vec![b'0'], vec![b'0']);
    recover(&log, &mut list).unwrap();
    assert_eq!(list.search(b"a".to_vec()), Some(b"1".to_vec()));
    assert_eq!(list.search(b"b".to_vec()), Some(b"3".to_vec()));
    assert_eq!(list.len(), 2);
}
