//! The index: one row per data block, with its length, offset and last key.
use crate::bytes_util::{append_bytes, append_le8, le8};
use crate::codec::{
    bitcode_of_row, bitcode_of_rows, bitcode_rows_from, encode_row, encode_rows, row_view, rows_view,
};
use crate::sstable::errors::SsTableWriterError;
use crate::sstable::footer::to_array8;
use crate::sstable::format::index_section;
use crate::traits::copy_bytes;
use vstd::prelude::*;

verus! {

#[derive(Debug)]
pub struct BlockMeta {
    pub len: u64,
    pub offset: u64,
    pub last_key: Vec<u8>,
}

impl BlockMeta {
    /// The row this block contributes to the index.
    pub open spec fn row(&self) -> (u64, u64, Seq<u8>) {
        (self.len, self.offset, self.last_key@)
    }

    pub fn new(len: usize, offset: u64, last_key: Vec<u8>) -> (r: Self)
        ensures
            r.len == len as u64,
            r.offset == offset,
            r.last_key == last_key,
    {
        Self { len: len as u64, offset, last_key }
    }

    /// The 8 little-endian bytes of the encoding's length, and the encoding.
    pub fn encode(&self) -> (r: ([u8; 8], Vec<u8>))
        ensures
            r.1@ == bitcode_of_row(self.row()),
            r.0@ == le8(r.1@.len() as u64),
    {
        let bytes = encode_row(self.len, self.offset, &self.last_key);
        let len = vstd::bytes::u64_to_le_bytes(bytes.len() as u64);
        (to_array8(&len), bytes)
    }
}

#[derive(Debug)]
pub struct IndexBlock {
    pub blocks: Vec<BlockMeta>,
}

impl IndexBlock {
    /// The rows of the index.
    pub open spec fn rows(&self) -> Seq<(u64, u64, Seq<u8>)> {
        self.blocks@.map_values(|b: BlockMeta| b.row())
    }

    pub fn new() -> (r: Self)
        ensures
            r.rows() == Seq::<(u64, u64, Seq<u8>)>::empty(),
    {
        let r = Self { blocks: Vec::new() };
        assert(r.rows() =~= Seq::<(u64, u64, Seq<u8>)>::empty());
        r
    }

    /// The index whose rows are `rows`.
    pub fn from_rows(rows: Vec<(u64, u64, Vec<u8>)>) -> (r: Self)
        ensures
            r.rows() == rows_view(rows@),
    {
        let mut blocks: Vec<BlockMeta> = Vec::new();
        let mut i: usize = 0;
        while i < rows.len()
            invariant
                i <= rows@.len(),
                blocks@.len() == i,
                forall|j: int| 0 <= j < i ==> (#[trigger] blocks@[j]).row() == row_view(rows@[j]),
            decreases rows@.len() - i,
        {
            let row = &rows[i];
            blocks.push(BlockMeta { len: row.0, offset: row.1, last_key: copy_bytes(&row.2) });
            i = i + 1;
        }
        let r = Self { blocks };
        assert(r.rows() =~= rows_view(rows@));
        r
    }

    /// The rows as plain tuples.
    fn to_rows(&self) -> (r: Vec<(u64, u64, Vec<u8>)>)
        ensures
            rows_view(r@) == self.rows(),
    {
        let mut rows: Vec<(u64, u64, Vec<u8>)> = Vec::new();
        let mut i: usize = 0;
        while i < self.blocks.len()
            invariant
                i <= self.blocks@.len(),
                rows@.len() == i,
                forall|j: int| 0 <= j < i ==> row_view(#[trigger] rows@[j]) == self.blocks@[j].row(),
            decreases self.blocks@.len() - i,
        {
            let b = &self.blocks[i];
            rows.push((b.len, b.offset, copy_bytes(&b.last_key)));
            i = i + 1;
        }
        assert(rows_view(rows@) =~= self.rows());
        rows
    }

    /// The 8 little-endian bytes of the encoding's length, and the encoding.
    pub fn encode(&self) -> (r: ([u8; 8], Vec<u8>))
        ensures
            r.1@ == bitcode_of_rows(self.rows()),
            r.0@ == le8(r.1@.len() as u64),
            bitcode_rows_from(r.1@) == Some(self.rows()),
    {
        let rows = self.to_rows();
        let bytes = encode_rows(&rows);
        let len = vstd::bytes::u64_to_le_bytes(bytes.len() as u64);
        (to_array8(&len), bytes)
    }

    /// Appends the index section: the encoding's length, then the encoding.
    pub fn write_bytes_to(&self, out: &mut Vec<u8>) -> (r: Result<(), SsTableWriterError>)
        ensures
            r is Ok,
            final(out)@ == old(out)@ + index_section(self.rows()),
            bitcode_rows_from(bitcode_of_rows(self.rows())) == Some(self.rows()),
    {
        let (len, bytes) = self.encode();
        append_bytes(out, &len);
        append_bytes(out, &bytes);
        assert(final(out)@ =~= old(out)@ + index_section(self.rows()));
        Ok(())
    }
}

} // verus!
