//! Writes a memtable out as a table.
use crate::memtable::Memtable;
use crate::ordered::{keys_sorted, lookup};
use crate::sstable::data_block::DataBlock;
use crate::sstable::errors::SsTableWriterError;
use crate::sstable::footer::Footer;
use crate::sstable::format::{
    block_bytes, block_of, data_bytes, entry_size, index_rows, index_section, last_key_before,
    block_for, first_not_below, index_of, split_blocks, split_rec, sstable_layout, sstable_read, ReadFault, BLOCK_LIMIT,
};
use crate::sstable::index::{BlockMeta, IndexBlock};
use crate::sstable::roundtrip::{
    lemma_block_bytes_len, lemma_block_extend, lemma_data_bytes_push, lemma_index_rows_push,
    lemma_first_not_below_range, lemma_layout_block, lemma_layout_index, lemma_layout_read,
};
use crate::traits::copy_bytes;
use vstd::prelude::*;

verus! {

pub struct SstableWriter {
    index: IndexBlock,
    bytes: Vec<u8>,
}

impl SstableWriter {
    /// The table bytes built so far.
    pub closed spec fn bytes_view(&self) -> Seq<u8> {
        self.bytes@
    }

    /// Nothing was built yet.
    pub closed spec fn is_fresh(&self) -> bool {
        &&& self.bytes@.len() == 0
        &&& self.index.rows().len() == 0
    }

    pub fn new() -> (r: Self)
        ensures
            r.is_fresh(),
    {
        Self { index: IndexBlock::new(), bytes: Vec::new() }
    }

    /// The table bytes, for writing out.
    pub fn bytes(&self) -> (r: &Vec<u8>)
        ensures
            r@ == self.bytes_view(),
    {
        &self.bytes
    }

    /// The table bytes, taken out of the writer.
    pub fn into_bytes(self) -> (r: Vec<u8>)
        ensures
            r@ == self.bytes_view(),
    {
        self.bytes
    }

    /// Builds the table of the memtable's pairs, in key order, and returns the last
    /// key (empty when there is none). Reading the table gives back what the
    /// memtable binds each key, and its index reads back as written.
    pub fn build(&mut self, memtable: Memtable) -> (r: Result<Vec<u8>, SsTableWriterError>)
        requires
            old(self).is_fresh(),
            memtable.skiplist.wf(),
        ensures
            r matches Ok(last) && last@ == last_key_before(
                memtable.entries(),
                memtable.entries().len() as int,
            ),
            final(self).bytes_view() == sstable_layout(memtable.entries()),
            forall|k: Seq<u8>|
                #![trigger sstable_read(final(self).bytes_view(), k)]
                sstable_read(
                    final(self).bytes_view(),
                    k,
                ) == Ok::<_, ReadFault>(lookup(memtable.entries(), k)),
            index_of(final(self).bytes_view()) == Ok::<_, ReadFault>(
                index_rows(memtable.entries(), split_blocks(memtable.entries())),
            ),
            forall|k: Seq<u8>|
                #![trigger block_for(final(self).bytes_view(), k)]
                block_for(final(self).bytes_view(), k) == ({
                    let cuts = split_blocks(memtable.entries());
                    let p = first_not_below(index_rows(memtable.entries(), cuts), k);
                    if p >= cuts.len() {
                        Ok::<_, ReadFault>(None)
                    } else {
                        Ok(Some(block_of(memtable.entries(), cuts[p])))
                    }
                }),
    {
        let ghost entries = memtable.entries();
        proof {
            memtable.skiplist.lemma_view_sorted();
        }
        let mut data_block = DataBlock::new();
        let mut last_key: Vec<u8> = Vec::new();
        let mut offset: u64 = 0;
        let mut it = memtable.skiplist.iter();
        let ghost mut i: int = 0;
        let ghost mut start: int = 0;
        let ghost mut done: Seq<(int, int)> = seq![];
        assert(entries.skip(0) =~= entries);
        assert(last_key@ =~= last_key_before(entries, 0));
        assert(self.index.rows() =~= index_rows(entries, done));
        assert(entries.subrange(0, 0) =~= Seq::<(Seq<u8>, Seq<u8>)>::empty());
        loop
            invariant
                it.valid(),
                0 <= i <= entries.len(),
                it.remaining() == entries.skip(i),
                0 <= start <= i,
                start == i ==> i == 0 && done.len() == 0,
                data_block.wf(),
                data_block@ == block_bytes(entries.subrange(start, i)),
                self.bytes@ == data_bytes(entries, done),
                offset == self.bytes@.len(),
                self.index.rows() == index_rows(entries, done),
                last_key@ == last_key_before(entries, i),
                split_rec(entries, i, start, done) == split_blocks(entries),
            ensures
                i == entries.len(),
                0 <= start <= i,
                start == i ==> i == 0 && done.len() == 0,
                data_block.wf(),
                data_block@ == block_bytes(entries.subrange(start, i)),
                self.bytes@ == data_bytes(entries, done),
                offset == self.bytes@.len(),
                self.index.rows() == index_rows(entries, done),
                last_key@ == last_key_before(entries, i),
                split_rec(entries, i, start, done) == split_blocks(entries),
            decreases entries.len() - i,
        {
            let next = it.next();
            match next {
                None => {
                    break ;
                },
                Some(kv) => {
                    assert(entries.skip(i)[0] == entries[i]);
                    let es = 16usize.saturating_add(kv.key.len()).saturating_add(kv.value.len());
                    proof {
                        lemma_block_bytes_len(entries.subrange(start, i));
                        if start == i {
                            assert(entries.subrange(start, i) =~= Seq::<(Seq<u8>, Seq<u8>)>::empty());
                        }
                    }
                    if data_block.size() > 0 && !data_block.can_fit(es) {
                        let size = data_block.size();
                        let meta = BlockMeta::new(size, offset, copy_bytes(&last_key));
                        self.index.blocks.push(meta);
                        data_block.write_to(&mut self.bytes);
                        offset = self.bytes.len() as u64;
                        data_block = DataBlock::new();
                        proof {
                            let c = (start, i);
                            lemma_index_rows_push(entries, done, c);
                            lemma_data_bytes_push(entries, done, c);
                            assert(self.index.rows() =~= index_rows(entries, done.push(c)));
                            done = done.push(c);
                            start = i;
                            assert(entries.subrange(start, i) =~= Seq::<(Seq<u8>, Seq<u8>)>::empty());
                        }
                    }
                    data_block.add(&kv.key, &kv.value);
                    proof {
                        lemma_block_extend(entries, start, i);
                        assert(entries.skip(i + 1) =~= entries.skip(i).drop_first());
                    }
                    last_key = kv.key;
                    proof {
                        i = i + 1;
                    }
                },
            }
        }
        if data_block.size() > 0 {
            let size = data_block.size();
            let meta = BlockMeta::new(size, offset, copy_bytes(&last_key));
            self.index.blocks.push(meta);
            data_block.write_to(&mut self.bytes);
            offset = self.bytes.len() as u64;
            proof {
                let c = (start, i);
                lemma_index_rows_push(entries, done, c);
                lemma_data_bytes_push(entries, done, c);
                assert(self.index.rows() =~= index_rows(entries, done.push(c)));
                done = done.push(c);
            }
        } else {
            proof {
                if start < i {
                    lemma_block_bytes_len(entries.subrange(start, i));
                }
            }
        }
        assert(done == split_blocks(entries));
        let index_offset = offset;
        let _ = self.index.write_bytes_to(&mut self.bytes);
        let index_len = self.bytes.len() as u64 - index_offset;
        let footer = Footer::new(index_offset, index_len);
        footer.write_to(&mut self.bytes);
        let total = self.bytes.len();
        proof {
            assert(total as int <= u64::MAX);
            let rows = index_rows(entries, done);
            let data = data_bytes(entries, done);
            assert(self.bytes@ =~= sstable_layout(entries));
            assert forall|k: Seq<u8>| #![trigger sstable_read(self.bytes@, k)]
                sstable_read(self.bytes@, k) == Ok::<
                    _,
                    ReadFault,
                >(lookup(entries, k)) by {
                lemma_layout_read(entries, k);
            }
            lemma_layout_index(entries);
            assert forall|k: Seq<u8>| #![trigger block_for(self.bytes@, k)]
                block_for(self.bytes@, k) == ({
                    let cuts = split_blocks(entries);
                    let p = first_not_below(index_rows(entries, cuts), k);
                    if p >= cuts.len() {
                        Ok::<_, ReadFault>(None)
                    } else {
                        Ok(Some(block_of(entries, cuts[p])))
                    }
                }) by {
                let cuts = split_blocks(entries);
                let rows = index_rows(entries, cuts);
                lemma_first_not_below_range(rows, k);
                let p = first_not_below(rows, k);
                if p < cuts.len() {
                    lemma_layout_block(entries, p);
                }
            }
        }
        Ok(last_key)
    }
}

} // verus!
