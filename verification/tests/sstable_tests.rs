use engine::engine_error::EngineError;
use engine::memtable::Memtable;
use engine::skiplist::SkipList;
use engine::sstable::errors::SsTableReaderError;
use engine::sstable::footer::Footer;
use engine::sstable::reader::SstableReader;
use engine::sstable::writer::SstableWriter;

fn write_table(skiplist: SkipList<Vec<u8>, Vec<u8>>) -> Result<Vec<u8>, EngineError> {
    let mut writer = SstableWriter::new();
    writer.build(Memtable { skiplist, size: 0 })?;
    Ok(writer.into_bytes())
}

#[test]
fn test_sstable_read_write() -> Result<(), EngineError> {
    let mut skiplist = SkipList::<Vec<u8>, Vec<u8>>::new(5, vec![b'0'], vec![b'0']);

    // Create multiple blocks
    for i in 0..1000 {
        let key = format!("{:04}", i).into_bytes();
        let value = format!("value{}", i).into_bytes();
        skiplist.insert(key, value);
    }

    let bytes = write_table(skiplist)?;
    let reader = SstableReader::new(&bytes);

    for i in 0..1000 {
        let key = format!("{:04}", i).into_bytes();
        let expected = format!("value{}", i).into_bytes();

        let actual = reader.binary_search_data(&key)?;

        assert_eq!(actual, Some(expected));
    }

    Ok(())
}

fn build_sstable(count: usize) -> Result<Vec<u8>, EngineError> {
    let mut skiplist = SkipList::<Vec<u8>, Vec<u8>>::new(5, vec![b'0'], vec![b'0']);

    for i in 0..count {
        let key = format!("{:04}", i).into_bytes();
        let value = format!("value{}", i).into_bytes();
        skiplist.insert(key, value);
    }

    write_table(skiplist)
}

#[test]
fn test_first_key() -> Result<(), EngineError> {
    let bytes = build_sstable(1000)?;
    let reader = SstableReader::new(&bytes);

    assert_eq!(
        reader.binary_search_data(&b"0000".to_vec())?,
        Some(b"value0".to_vec())
    );

    Ok(())
}

#[test]
fn test_last_key() -> Result<(), EngineError> {
    let bytes = build_sstable(1000)?;
    let reader = SstableReader::new(&bytes);

    assert_eq!(
        reader.binary_search_data(&b"0999".to_vec())?,
        Some(b"value999".to_vec())
    );

    Ok(())
}

#[test]
fn test_middle_key() -> Result<(), EngineError> {
    let bytes = build_sstable(1000)?;
    let reader = SstableReader::new(&bytes);

    assert_eq!(
        reader.binary_search_data(&b"0500".to_vec())?,
        Some(b"value500".to_vec())
    );

    Ok(())
}

#[test]
fn test_key_not_found() -> Result<(), EngineError> {
    let bytes = build_sstable(1000)?;
    let reader = SstableReader::new(&bytes);

    assert_eq!(reader.binary_search_data(&b"1500".to_vec())?, None);

    Ok(())
}

#[test]
fn test_key_smaller_than_smallest() -> Result<(), EngineError> {
    let bytes = build_sstable(1000)?;
    let reader = SstableReader::new(&bytes);

    assert_eq!(reader.binary_search_data(&b"-001".to_vec())?, None);

    Ok(())
}

#[test]
fn test_single_entry() -> Result<(), EngineError> {
    let bytes = build_sstable(1)?;
    let reader = SstableReader::new(&bytes);

    assert_eq!(
        reader.binary_search_data(&b"0000".to_vec())?,
        Some(b"value0".to_vec())
    );

    assert_eq!(reader.binary_search_data(&b"0001".to_vec())?, None);

    Ok(())
}

#[test]
fn test_empty_table() -> Result<(), EngineError> {
    let bytes = build_sstable(0)?;
    let reader = SstableReader::new(&bytes);

    assert_eq!(reader.binary_search_data(&b"0000".to_vec())?, None);

    Ok(())
}

#[test]
fn build_returns_last_key_and_splits_blocks() {
    let mut skiplist = SkipList::<Vec<u8>, Vec<u8>>::new(5, vec![b'0'], vec![b'0']);
    for i in 0..1000 {
        skiplist.insert(format!("{:04}", i).into_bytes(), format!("value{}", i).into_bytes());
    }
    let mut writer = SstableWriter::new();
    let last = writer.build(Memtable { skiplist, size: 0 }).unwrap();
    assert_eq!(last, b"0999".to_vec());
    let bytes = writer.into_bytes();
    let reader = SstableReader::new(&bytes);
    let index = reader.read_index_block().unwrap();
    assert!(index.blocks.len() > 1);
    assert_eq!(index.blocks.last().unwrap().last_key, b"0999".to_vec());
    let mut offset = 0u64;
    for b in &index.blocks {
        assert_eq!(b.offset, offset);
        offset += b.len;
    }
    let footer = reader.read_footer().unwrap();
    assert_eq!(footer.index_offset, offset);
}

#[test]
fn empty_table_has_no_blocks_and_empty_last_key() {
    let skiplist = SkipList::<Vec<u8>, Vec<u8>>::new(5, vec![b'0'], vec![b'0']);
    let mut writer = SstableWriter::new();
    let last = writer.build(Memtable { skiplist, size: 0 }).unwrap();
    assert_eq!(last, Vec::<u8>::new());
    let bytes = writer.into_bytes();
    let reader = SstableReader::new(&bytes);
    assert_eq!(reader.read_index_block().unwrap().blocks.len(), 0);
    assert_eq!(reader.binary_search_index(&b"a".to_vec()).unwrap(), None);
}

#[test]
fn reader_short_input_is_eof() {
    let bytes = vec![1, 2, 3];
    let reader = SstableReader::new(&bytes);
    assert!(matches!(reader.read_footer(), Err(SsTableReaderError::IoError(ref e)) if e.kind() == std::io::ErrorKind::UnexpectedEof));
    assert!(matches!(
        reader.binary_search_data(&b"a".to_vec()),
        Err(SsTableReaderError::IoError(_))
    ));
}

#[test]
fn reader_bad_footer_is_bitcode_error() {
    let mut bytes = vec![0xffu8; 4];
    bytes.extend_from_slice(&4u64.to_le_bytes());
    let reader = SstableReader::new(&bytes);
    assert!(matches!(reader.read_footer(), Err(SsTableReaderError::BitcodeError(_))));
}

#[test]
fn reader_footer_past_end_is_eof() {
    let footer = Footer::new(1000, 10);
    let mut bytes = Vec::new();
    footer.write_to(&mut bytes);
    let reader = SstableReader::new(&bytes);
    assert_eq!(reader.read_footer().unwrap().index_offset, 1000);
    assert!(matches!(reader.read_index_block(), Err(SsTableReaderError::IoError(_))));
}

#[test]
fn footer_roundtrip() {
    let footer = Footer::new(123, 45);
    let mut bytes = Vec::new();
    footer.write_to(&mut bytes);
    let mut len = [0u8; 8];
    len.copy_from_slice(&bytes[bytes.len() - 8..]);
    let body_len = u64::from_le_bytes(len) as usize;
    assert_eq!(bytes.len(), body_len + 8);
    let back = Footer::decode(&bytes[..body_len]).unwrap();
    assert_eq!((back.index_offset, back.index_len), (123, 45));
    let (len_bytes, body) = footer.encode();
    assert_eq!(u64::from_le_bytes(len_bytes) as usize, body.len());
    assert_eq!(bitcode::decode::<u64>(&body).unwrap(), 123);
}

#[test]
fn large_first_entry_with_empty_key_reads_back() {
    let mut skiplist = SkipList::<Vec<u8>, Vec<u8>>::new(5, vec![b'0'], vec![b'0']);
    skiplist.insert(Vec::new(), vec![0u8; 4000]);
    skiplist.insert(b"a".to_vec(), b"x".to_vec());
    let bytes = write_table(skiplist).unwrap();
    let reader = SstableReader::new(&bytes);
    assert_eq!(reader.binary_search_data(&Vec::new()).unwrap(), Some(vec![0u8; 4000]));
    assert_eq!(reader.binary_search_data(&b"a".to_vec()).unwrap(), Some(b"x".to_vec()));
    let index = reader.read_index_block().unwrap();
    assert_eq!(index.blocks.len(), 2);
    for b in &index.blocks {
        assert!(b.len > 0);
    }
    assert_eq!(index.blocks[0].last_key, Vec::<u8>::new());
}
