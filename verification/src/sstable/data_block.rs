//! A data block under construction: the bytes of its entries and their count.
use crate::bytes_util::{append_bytes, append_le8};
use crate::sstable::format::{kv_entry, BLOCK_LIMIT};
use vstd::prelude::*;

verus! {

pub struct DataBlock {
    kv_list_bytes: Vec<u8>,
    size: usize,
}

impl View for DataBlock {
    type V = Seq<u8>;

    /// The bytes of the entries added so far.
    closed spec fn view(&self) -> Seq<u8> {
        self.kv_list_bytes@
    }
}

impl DataBlock {
    /// `size` counts the bytes of the block.
    pub closed spec fn wf(&self) -> bool {
        self.size == self@.len()
    }

    /// The number of bytes in the block.
    pub fn size(&self) -> (r: usize)
        requires
            self.wf(),
        ensures
            r == self@.len(),
    {
        self.size
    }

    pub fn new() -> (r: Self)
        ensures
            r.wf(),
            r@ == Seq::<u8>::empty(),
    {
        Self { kv_list_bytes: Vec::new(), size: 0 }
    }

    /// Appends the entry `key`, `value`.
    pub fn add(&mut self, key: &[u8], value: &[u8])
        requires
            old(self).wf(),
        ensures
            final(self).wf(),
            final(self)@ == old(self)@ + kv_entry(key@, value@),
    {
        append_le8(&mut self.kv_list_bytes, key.len() as u64);
        append_bytes(&mut self.kv_list_bytes, key);
        append_le8(&mut self.kv_list_bytes, value.len() as u64);
        append_bytes(&mut self.kv_list_bytes, value);
        self.size = self.kv_list_bytes.len();
        assert(self@ =~= old(self)@ + kv_entry(key@, value@));
    }

    /// Whether an entry of `entry_size` bytes keeps the block under the limit.
    pub fn can_fit(&self, entry_size: usize) -> (r: bool)
        requires
            self.wf(),
        ensures
            r == (self@.len() + entry_size < BLOCK_LIMIT),
    {
        entry_size < BLOCK_LIMIT && self.size < BLOCK_LIMIT - entry_size
    }

    /// Appends the block's bytes to `out`.
    pub fn write_to(&self, out: &mut Vec<u8>)
        ensures
            final(out)@ == old(out)@ + self@,
    {
        append_bytes(out, &self.kv_list_bytes);
    }
}

} // verus!
