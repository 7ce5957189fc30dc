use engine::engine::{Engine, FlushedTable, GetStep, FLUSH_LIMIT};
use engine::engine_error::EngineError;
use engine::sstable::errors::SsTableReaderError;

/// An engine together with the bytes of the tables it flushed, kept in memory.
struct Db {
    engine: Engine,
    tables: Vec<Vec<u8>>,
}

impl Db {
    fn new(_name: &str) -> Result<Db, EngineError> {
        Ok(Db { engine: Engine::new(), tables: Vec::new() })
    }

    fn set(&mut self, key: &Vec<u8>, value: Vec<u8>) -> Result<(), EngineError> {
        if let Some(FlushedTable { sstable_no, bytes }) = self.engine.set(key, value)? {
            assert_eq!(sstable_no, self.tables.len());
            self.tables.push(bytes);
        }
        Ok(())
    }

    fn get(&self, key: &Vec<u8>) -> Result<Option<Vec<u8>>, EngineError> {
        self.engine.get(key, &self.tables)
    }

    fn del(&mut self, key: &Vec<u8>) {
        self.engine.del(key)
    }

    /// Reads `key` one table at a time, as a caller that loads tables on demand does.
    fn get_by_steps(&self, key: &Vec<u8>) -> Result<(Option<Vec<u8>>, usize), EngineError> {
        let mut reads = 0;
        let mut step = self.engine.get_start(key)?;
        loop {
            match step {
                GetStep::Done(v) => return Ok((v, reads)),
                GetStep::ReadSstable(no) => {
                    reads += 1;
                    step = self.engine.get_continue(key, no, &self.tables[no])?;
                }
            }
        }
    }
}

#[test]
fn test_set_and_get_from_memtable() {
    let mut engine = Db::new("test_set_and_get_from_memtable").unwrap();

    let key = b"0001".to_vec();
    let value = b"value1".to_vec();

    engine.set(&key, value.clone()).unwrap();

    assert_eq!(engine.get(&key).unwrap(), Some(value));
}

#[test]
fn test_get_missing_key() {
    let mut engine = Db::new("test_get_missing_key").unwrap();

    let key = b"9999".to_vec();

    assert_eq!(engine.get(&key).unwrap(), None);
}


//     let key = b"0001".to_vec();

//     engine.set(&key, b"first".to_vec()).unwrap();
//     engine.set(&key, b"second".to_vec()).unwrap();

//     assert_eq!(
//         engine.get(&key).unwrap(),
//         Some(b"second".to_vec())
//     );
// }

#[test]
fn test_flush_and_get_from_sstable() {
    let mut engine = Db::new("test_flush_and_get_from_sstable").unwrap();

    // Make the memtable exceed 4 KB.
    for i in 0..1000 {
        let key = format!("{:04}", i).into_bytes();
        let value = format!("value{:04}", i).into_bytes();

        engine.set(&key, value).unwrap();
    }

    // These should now be in an SSTable.
    let key = b"0000".to_vec();
    assert_eq!(engine.get(&key).unwrap(), Some(b"value0000".to_vec()));

    let key = b"0500".to_vec();
    assert_eq!(engine.get(&key).unwrap(), Some(b"value0500".to_vec()));

    let key = b"0999".to_vec();
    assert_eq!(engine.get(&key).unwrap(), Some(b"value0999".to_vec()));
}

#[test]
fn test_flush_multiple_sstables() {
    let mut engine = Db::new("test_flush_multiple_sstables").unwrap();

    // Enough data to create multiple SSTables.
    for i in 0..5000 {
        let key = format!("{:04}", i).into_bytes();
        let value = format!("value{:04}", i).into_bytes();

        engine.set(&key, value).unwrap();
    }

    // Beginning of the first SSTable.
    assert_eq!(
        engine.get(&b"0000".to_vec()).unwrap(),
        Some(b"value0000".to_vec())
    );

    // Somewhere in the middle.
    assert_eq!(
        engine.get(&b"2500".to_vec()).unwrap(),
        Some(b"value2500".to_vec())
    );

    // End of the data.
    assert_eq!(
        engine.get(&b"4999".to_vec()).unwrap(),
        Some(b"value4999".to_vec())
    );
}

#[test]
fn test_key_not_found_after_flush() {
    let mut engine = Db::new("test_key_not_found_after_flush").unwrap();

    for i in 0..1000 {
        let key = format!("{:04}", i).into_bytes();
        let value = format!("value{:04}", i).into_bytes();

        engine.set(&key, value).unwrap();
    }

    assert_eq!(engine.get(&b"9999".to_vec()).unwrap(), None);
}

#[test]
fn test_keys_across_multiple_flushes() {
    let mut engine = Db::new("test_keys_across_multiple_flushes").unwrap();

    for i in 0..10000 {
        let key = format!("{:04}", i).into_bytes();
        let value = format!("{:04}", i * 2).into_bytes();

        engine.set(&key, value).unwrap();
    }

    for i in 0..10000 {
        let key = format!("{:04}", i).into_bytes();
        let expected = format!("{:04}", i * 2).into_bytes();

        assert_eq!(
            engine.get(&key).unwrap(),
            Some(expected),
            "failed for key {:04}",
            i
        );
    }
}

#[test]
fn test_set_overwrites_value() {
    let mut engine = Db::new("test_set_overwrites_value").unwrap();

    let key = b"0001".to_vec();

    engine.set(&key, b"first".to_vec()).unwrap();
    assert_eq!(engine.get(&key).unwrap(), Some(b"first".to_vec()));

    // Update the existing key.
    engine.set(&key, b"second".to_vec()).unwrap();

    assert_eq!(engine.get(&key).unwrap(), Some(b"second".to_vec()));
}

#[test]
fn test_update_after_flush() {
    let mut engine = Db::new("test_update_after_flush").unwrap();

    let key = b"0001".to_vec();

    engine.set(&key, b"first".to_vec()).unwrap();

    // Force the first value into an SSTable.
    for i in 0..1000 {
        let key = format!("{:04}", i + 10).into_bytes();
        let value = format!("value{:04}", i + 10).into_bytes();
        engine.set(&key, value).unwrap();
    }

    assert_eq!(engine.get(&key).unwrap(), Some(b"first".to_vec()));

    // New value goes into the newer memtable.
    engine.set(&key, b"second".to_vec()).unwrap();

    assert_eq!(engine.get(&key).unwrap(), Some(b"second".to_vec()));
}

#[test]
fn test_delete_from_memtable() {
    let mut engine = Db::new("test_delete_from_memtable").unwrap();

    let key = b"0001".to_vec();

    engine.set(&key, b"value1".to_vec()).unwrap();

    assert_eq!(engine.get(&key).unwrap(), Some(b"value1".to_vec()));

    engine.del(&key);

    assert_eq!(engine.get(&key).unwrap(), None);
}

#[test]
fn test_delete_after_flush() {
    let mut engine = Db::new("test_delete_after_flush").unwrap();

    let key = b"0001".to_vec();

    engine.set(&key, b"value1".to_vec()).unwrap();

    // Force the value into an SSTable.
    for i in 0..1000 {
        let key = format!("{:04}", i + 10).into_bytes();
        let value = format!("value{:04}", i + 10).into_bytes();

        engine.set(&key, value).unwrap();
    }

    assert_eq!(engine.get(&key).unwrap(), Some(b"value1".to_vec()));

    // Tombstone goes into the newer MemTable.
    engine.del(&key);

    assert_eq!(engine.get(&key).unwrap(), None);
}

#[test]
fn test_delete_survives_flush() {
    let mut engine = Db::new("test_delete_survives_flush").unwrap();

    let key = b"0001".to_vec();

    engine.set(&key, b"value1".to_vec()).unwrap();

    // Flush the first value.
    for i in 0..1000 {
        let key = format!("{:04}", i + 10).into_bytes();
        let value = format!("value{:04}", i + 10).into_bytes();

        engine.set(&key, value).unwrap();
    }

    assert_eq!(engine.get(&key).unwrap(), Some(b"value1".to_vec()));

    // Write tombstone.
    engine.del(&key);

    // Force tombstone into an SSTable too.
    for i in 0..1000 {
        let key = format!("{:04}", i + 2000).into_bytes();
        let value = format!("value{:04}", i + 2000).into_bytes();

        engine.set(&key, value).unwrap();
    }

    assert_eq!(engine.get(&key).unwrap(), None);
}

#[test]
fn test_delete_missing_key() {
    let mut engine = Db::new("test_delete_missing_key").unwrap();

    let key = b"9999".to_vec();

    assert_eq!(engine.get(&key).unwrap(), None);

    engine.del(&key);

    assert_eq!(engine.get(&key).unwrap(), None);
}

#[test]
fn test_overwrite_across_multiple_flushes() {
    let mut engine = Db::new("test_overwrite_across_multiple_flushes").unwrap();

    let key = b"0001".to_vec();

    // Set key to "first_value" and flush to SSTable 0.
    engine.set(&key, b"first_value".to_vec()).unwrap();
    for i in 0..1000 {
        let k = format!("{:04}", i + 10).into_bytes();
        let v = format!("value{:04}", i + 10).into_bytes();
        engine.set(&k, v).unwrap();
    }

    assert_eq!(engine.get(&key).unwrap(), Some(b"first_value".to_vec()));

    // Overwrite key with "second_value" and flush to SSTable 1.
    engine.set(&key, b"second_value".to_vec()).unwrap();
    for i in 0..1000 {
        let k = format!("{:04}", i + 2000).into_bytes();
        let v = format!("value{:04}", i + 2000).into_bytes();
        engine.set(&k, v).unwrap();
    }

    // Newer SSTable value should override older SSTable value.
    assert_eq!(engine.get(&key).unwrap(), Some(b"second_value".to_vec()));
}


#[test]
fn flush_happens_past_the_limit() {
    let mut engine = Db::new("flush_happens_past_the_limit").unwrap();
    let value = vec![7u8; FLUSH_LIMIT - 1];
    engine.set(&b"a".to_vec(), value.clone()).unwrap();
    assert_eq!(engine.tables.len(), 0);
    engine.set(&b"b".to_vec(), vec![1u8]).unwrap();
    assert_eq!(engine.tables.len(), 1);
    assert_eq!(engine.get(&b"a".to_vec()).unwrap(), Some(value));
    assert_eq!(engine.get(&b"b".to_vec()).unwrap(), Some(vec![1u8]));
}

#[test]
fn exactly_at_limit_does_not_flush() {
    let mut engine = Db::new("exactly_at_limit_does_not_flush").unwrap();
    engine.set(&b"k".to_vec(), vec![0u8; FLUSH_LIMIT - 1]).unwrap();
    assert_eq!(engine.tables.len(), 0);
}

#[test]
fn reads_by_steps_agree_and_skip_tables() {
    let mut engine = Db::new("reads_by_steps_agree_and_skip_tables").unwrap();
    for i in 0..3000 {
        let key = format!("{:04}", i).into_bytes();
        engine.set(&key, format!("v{}", i).into_bytes()).unwrap();
    }
    assert!(engine.tables.len() >= 2);
    for i in [0, 1, 1500, 2999, 4000] {
        let key = format!("{:04}", i).into_bytes();
        let (v, _) = engine.get_by_steps(&key).unwrap();
        assert_eq!(v, engine.get(&key).unwrap());
    }
    // A key past every table's last key reads no table.
    let (v, reads) = engine.get_by_steps(&b"9999".to_vec()).unwrap();
    assert_eq!((v, reads), (None, 0));
    // A key in the oldest table skips the newer ones whose keys are all greater
    // only when their last keys are below it; here every table may hold "0000".
    let (v, reads) = engine.get_by_steps(&b"0000".to_vec()).unwrap();
    assert_eq!(v, Some(b"v0".to_vec()));
    assert!(reads >= 1);
}

#[test]
fn tombstone_in_table_hides_older_value() {
    let mut engine = Db::new("tombstone_in_table_hides_older_value").unwrap();
    let key = b"zzzz".to_vec();
    engine.set(&key, b"old".to_vec()).unwrap();
    for i in 0..1000 {
        engine.set(&format!("{:04}", i).into_bytes(), b"x".to_vec()).unwrap();
    }
    engine.del(&key);
    for i in 1000..2000 {
        engine.set(&format!("{:04}", i).into_bytes(), b"x".to_vec()).unwrap();
    }
    assert!(engine.tables.len() >= 2);
    assert_eq!(engine.get(&key).unwrap(), None);
    engine.set(&key, b"new".to_vec()).unwrap();
    assert_eq!(engine.get(&key).unwrap(), Some(b"new".to_vec()));
}

#[test]
fn corrupt_table_is_reported() {
    let mut engine = Db::new("corrupt_table_is_reported").unwrap();
    for i in 0..1000 {
        engine.set(&format!("{:04}", i).into_bytes(), b"x".to_vec()).unwrap();
    }
    assert!(engine.tables.len() >= 1);
    let mut tables = engine.tables.clone();
    tables[0] = vec![1, 2, 3];
    let r = engine.engine.get(&b"0001".to_vec(), &tables);
    assert!(matches!(r, Err(EngineError::SsTableReaderError(SsTableReaderError::IoError(_)))));
}

#[test]
fn empty_key_can_be_set_and_read() {
    let mut engine = Db::new("empty_key_can_be_set_and_read").unwrap();
    engine.set(&Vec::new(), b"nothing".to_vec()).unwrap();
    assert_eq!(engine.get(&Vec::new()).unwrap(), Some(b"nothing".to_vec()));
}

#[test]
fn empty_key_survives_flush() {
    let mut engine = Db::new("empty_key_survives_flush").unwrap();
    let big = vec![3u8; 3990];
    engine.set(&Vec::new(), big.clone()).unwrap();
    engine.set(&b"z".to_vec(), vec![1u8; 200]).unwrap();
    assert_eq!(engine.tables.len(), 1);
    assert_eq!(engine.get(&Vec::new()).unwrap(), Some(big));
}
