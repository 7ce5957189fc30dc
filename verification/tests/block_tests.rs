use engine::sstable::data_block::DataBlock;
use engine::sstable::index::{BlockMeta, IndexBlock};

#[test]
fn data_block_add_lays_out_entries() {
    let mut block = DataBlock::new();
    assert_eq!(block.size(), 0);
    block.add(b"ab", b"xyz");
    assert_eq!(block.size(), 8 + 2 + 8 + 3);
    let mut out = vec![9u8];
    block.write_to(&mut out);
    let mut expected = vec![9u8];
    expected.extend_from_slice(&2u64.to_le_bytes());
    expected.extend_from_slice(b"ab");
    expected.extend_from_slice(&3u64.to_le_bytes());
    expected.extend_from_slice(b"xyz");
    assert_eq!(out, expected);
}

#[test]
fn data_block_can_fit_is_strictly_below_limit() {
    let mut block = DataBlock::new();
    assert!(block.can_fit(3999));
    assert!(!block.can_fit(4000));
    block.add(b"k", b"v");
    assert_eq!(block.size(), 18);
    assert!(block.can_fit(3981));
    assert!(!block.can_fit(3982));
    assert!(!block.can_fit(usize::MAX));
}

#[test]
fn block_meta_new_and_encode() {
    let meta = BlockMeta::new(10, 20, b"last".to_vec());
    assert_eq!((meta.len, meta.offset, meta.last_key.clone()), (10, 20, b"last".to_vec()));
    let (len_bytes, body) = meta.encode();
    assert_eq!(u64::from_le_bytes(len_bytes) as usize, body.len());
    assert!(!body.is_empty());
}

#[test]
fn index_block_encode_and_rows() {
    let empty = IndexBlock::new();
    assert_eq!(empty.blocks.len(), 0);
    let index = IndexBlock::from_rows(vec![(5, 0, b"a".to_vec()), (7, 5, b"b".to_vec())]);
    assert_eq!(index.blocks.len(), 2);
    assert_eq!(index.blocks[1].offset, 5);
    assert_eq!(index.blocks[1].last_key, b"b".to_vec());
    let (len_bytes, body) = index.encode();
    assert_eq!(u64::from_le_bytes(len_bytes) as usize, body.len());
    let mut out = Vec::new();
    index.write_bytes_to(&mut out).unwrap();
    assert_eq!(out.len(), 8 + body.len());
    assert_eq!(&out[8..], &body[..]);
    assert_ne!(body, empty.encode().1);
}
