//! Reads a table from its bytes: the footer, the index, the block that can hold a
//! key, and the key's value.
use crate::bytes_util::{get_le8, read_le8};
use crate::codec::{decode_rows, rows_view};
use crate::ordered::{keys_sorted, lemma_lookup_absent, lemma_lookup_at, lookup};
use crate::skiplist::SkipListKV;
use crate::skiplist_error::unexpected_eof;
use crate::sstable::errors::SsTableReaderError;
use crate::sstable::footer::Footer;
use crate::sstable::format::{
    block_for, first_not_below, footer_of, index_of, keys_increasing, parse_entries,
    rows_nondecreasing, sstable_read, ReadFault,
};
use crate::sstable::index::IndexBlock;
use crate::sstable::roundtrip::lemma_first_not_below_at;
use crate::traits::{copy_bytes, lex_lt, KeyOrder, TypeSkipListKey};
use vstd::prelude::*;

verus! {

/// The reader error that stands for a fault.
pub open spec fn fault_matches(f: ReadFault, e: SsTableReaderError) -> bool {
    match f {
        ReadFault::Eof => e is IoError,
        ReadFault::Decode => e is BitcodeError,
        ReadFault::Unsorted => e is Unsorted,
    }
}

/// The views of read pairs.
pub open spec fn kv_view(s: Seq<SkipListKV<Vec<u8>, Vec<u8>>>) -> Seq<(Seq<u8>, Seq<u8>)> {
    s.map_values(|kv: SkipListKV<Vec<u8>, Vec<u8>>| (kv.key@, kv.value@))
}

/// `acc` followed by what `r` read, or the fault of `r`.
pub open spec fn after(acc: Seq<(Seq<u8>, Seq<u8>)>, r: Result<Seq<(Seq<u8>, Seq<u8>)>, ReadFault>) -> Result<
    Seq<(Seq<u8>, Seq<u8>)>,
    ReadFault,
> {
    match r {
        Ok(rest) => Ok(acc + rest),
        Err(e) => Err(e),
    }
}

/// Byte strings in order: `a` is at most `b`.
pub open spec fn bytes_le(a: Seq<u8>, b: Seq<u8>) -> bool {
    !lex_lt(b, a)
}

proof fn lemma_bytes_order(a: Seq<u8>, b: Seq<u8>, c: Seq<u8>)
    ensures
        !lex_lt(a, a),
        lex_lt(a, b) && lex_lt(b, c) ==> lex_lt(a, c),
        a != b ==> lex_lt(a, b) || lex_lt(b, a),
{
    <Vec<u8> as TypeSkipListKey>::lemma_key_order(a, b, c);
}

/// In nondecreasing rows, an earlier last key is at most a later one.
proof fn lemma_rows_pairwise(rows: Seq<(u64, u64, Seq<u8>)>, i: int, j: int)
    requires
        rows_nondecreasing(rows),
        0 <= i <= j < rows.len(),
    ensures
        bytes_le(rows[i].2, rows[j].2),
    decreases j - i,
{
    lemma_bytes_order(rows[i].2, rows[i].2, rows[i].2);
    if i < j {
        lemma_rows_pairwise(rows, i, j - 1);
        assert(!lex_lt(rows[j - 1 + 1].2, rows[j - 1].2));
        lemma_bytes_order(rows[j].2, rows[j - 1].2, rows[i].2);
        lemma_bytes_order(rows[i].2, rows[j - 1].2, rows[j].2);
        lemma_bytes_order(rows[j].2, rows[i].2, rows[j - 1].2);
    }
}

/// Adjacent keys going up means all keys go up.
proof fn lemma_increasing_sorted(es: Seq<(Seq<u8>, Seq<u8>)>)
    requires
        keys_increasing(es),
    ensures
        keys_sorted::<Vec<u8>, Seq<u8>>(es),
{
    assert forall|i: int, j: int| 0 <= i < j < es.len() implies <Vec<u8> as TypeSkipListKey>::key_lt(
        #[trigger] es[i].0,
        #[trigger] es[j].0,
    ) by {
        lemma_increasing_from(es, i, j);
    }
}

proof fn lemma_increasing_from(es: Seq<(Seq<u8>, Seq<u8>)>, i: int, j: int)
    requires
        keys_increasing(es),
        0 <= i < j < es.len(),
    ensures
        lex_lt(es[i].0, es[j].0),
    decreases j - i,
{
    assert(lex_lt(es[j - 1].0, es[j - 1 + 1].0));
    if i < j - 1 {
        lemma_increasing_from(es, i, j - 1);
        lemma_bytes_order(es[i].0, es[j - 1].0, es[j].0);
    }
}

/// Reads a table from its bytes.
pub struct SstableReader<'a> {
    bytes: &'a [u8],
}

impl<'a> SstableReader<'a> {
    /// The bytes of the table.
    pub closed spec fn bytes_view(&self) -> Seq<u8> {
        self.bytes@
    }

    pub fn new(bytes: &'a [u8]) -> (r: Self)
        ensures
            r.bytes_view() == bytes@,
    {
        Self { bytes }
    }

    /// The footer: the index's offset and length.
    pub fn read_footer(&self) -> (r: Result<Footer, SsTableReaderError>)
        ensures
            match footer_of(self.bytes_view()) {
                Ok((a, b)) => r matches Ok(f) && f.index_offset == a && f.index_len == b,
                Err(fault) => r matches Err(e) && fault_matches(fault, e),
            },
    {
        let n = self.bytes.len();
        if n < 8 {
            return Err(SsTableReaderError::IoError(unexpected_eof()));
        }
        let flen = get_le8(self.bytes, n - 8);
        let room = (n - 8) as u64;
        if flen > room {
            return Err(SsTableReaderError::IoError(unexpected_eof()));
        }
        let flen = flen as usize;
        let fb = vstd::slice::slice_subrange(self.bytes, n - 8 - flen, n - 8);
        match Footer::decode(fb) {
            Ok(f) => Ok(f),
            Err(e) => Err(SsTableReaderError::BitcodeError(e)),
        }
    }

    /// The index: one row per block, with last keys that never go down.
    pub fn read_index_block(&self) -> (r: Result<IndexBlock, SsTableReaderError>)
        ensures
            match index_of(self.bytes_view()) {
                Ok(rows) => r matches Ok(ib) && ib.rows() == rows,
                Err(fault) => r matches Err(e) && fault_matches(fault, e),
            },
    {
        let footer = match self.read_footer() {
            Ok(f) => f,
            Err(e) => {
                return Err(e);
            },
        };
        let n = self.bytes.len();
        let io = footer.index_offset;
        if io > n as u64 || (n as u64) - io < 8 {
            return Err(SsTableReaderError::IoError(unexpected_eof()));
        }
        let io = io as usize;
        let ilen = get_le8(self.bytes, io);
        let room = (n - io - 8) as u64;
        if ilen > room {
            return Err(SsTableReaderError::IoError(unexpected_eof()));
        }
        let ilen = ilen as usize;
        let ib = vstd::slice::slice_subrange(self.bytes, io + 8, io + 8 + ilen);
        let rows = match decode_rows(ib) {
            Ok(rows) => rows,
            Err(e) => {
                return Err(SsTableReaderError::BitcodeError(e));
            },
        };
        let ghost rv = rows_view(rows@);
        assert(index_of(self.bytes_view()) == if rows_nondecreasing(rv) {
            Ok::<_, ReadFault>(rv)
        } else {
            Err(ReadFault::Unsorted)
        });
        let mut i: usize = 0;
        while i < rows.len() && rows.len() - i > 1
            invariant
                rv == rows_view(rows@),
                index_of(self.bytes_view()) == if rows_nondecreasing(rv) {
                    Ok::<_, ReadFault>(rv)
                } else {
                    Err(ReadFault::Unsorted)
                },
                i < rows@.len() || rows@.len() == 0,
                forall|j: int| 0 <= j < i && j + 1 < rv.len() ==> !lex_lt(#[trigger] rv[j + 1].2, rv[j].2),
            decreases rows@.len() - i,
        {
            if rows[i + 1].2.compare_key(&rows[i].2) == KeyOrder::Less {
                assert(lex_lt(rv[i as int + 1].2, rv[i as int].2));
                return Err(SsTableReaderError::Unsorted);
            }
            i = i + 1;
        }
        assert(rows_nondecreasing(rv));
        Ok(IndexBlock::from_rows(rows))
    }

    /// The first block whose last key is not below `key`, if there is one.
    pub fn binary_search_index(&self, key: &Vec<u8>) -> (r: Result<Option<usize>, SsTableReaderError>)
        ensures
            match index_of(self.bytes_view()) {
                Ok(rows) => r matches Ok(o) && o == if first_not_below(rows, key@) < rows.len() {
                    Some(first_not_below(rows, key@) as usize)
                } else {
                    None
                },
                Err(fault) => r matches Err(e) && fault_matches(fault, e),
            },
    {
        let index = match self.read_index_block() {
            Ok(ib) => ib,
            Err(e) => {
                return Err(e);
            },
        };
        let ghost rows = index.rows();
        let blocks = &index.blocks;
        let mut lo: usize = 0;
        let mut hi: usize = blocks.len();
        while lo < hi
            invariant
                rows == index.rows(),
                blocks@ == index.blocks@,
                rows_nondecreasing(rows),
                blocks@.len() == rows.len(),
                0 <= lo <= hi <= rows.len(),
                forall|j: int| 0 <= j < lo ==> lex_lt((#[trigger] rows[j]).2, key@),
                forall|j: int| hi <= j < rows.len() ==> !lex_lt((#[trigger] rows[j]).2, key@),
            decreases hi - lo,
        {
            let mid = lo + (hi - lo) / 2;
            assert(blocks@[mid as int].row() == rows[mid as int]);
            if blocks[mid].last_key.compare_key(key) == KeyOrder::Less {
                proof {
                    assert forall|j: int| 0 <= j <= mid implies lex_lt((#[trigger] rows[j]).2, key@) by {
                        lemma_rows_pairwise(rows, j, mid as int);
                        lemma_bytes_order(rows[j].2, rows[mid as int].2, key@);
                        lemma_bytes_order(rows[mid as int].2, rows[j].2, key@);
                    }
                }
                lo = mid + 1;
            } else {
                proof {
                    assert forall|j: int| mid <= j < rows.len() implies !lex_lt((#[trigger] rows[j]).2, key@) by {
                        lemma_rows_pairwise(rows, mid as int, j);
                        lemma_bytes_order(rows[mid as int].2, rows[j].2, key@);
                        lemma_bytes_order(rows[j].2, rows[mid as int].2, key@);
                    }
                }
                hi = mid;
            }
        }
        proof {
            lemma_first_not_below_at(rows, key@, lo as int);
        }
        if lo < blocks.len() {
            Ok(Some(lo))
        } else {
            Ok(None)
        }
    }

    /// The entries read at `start` while fewer than `len` bytes were consumed.
    fn parse_block(&self, start: u64, len: u64) -> (r: Result<Vec<SkipListKV<Vec<u8>, Vec<u8>>>, SsTableReaderError>)
        ensures
            match parse_entries(self.bytes_view(), start as int, len as int) {
                Ok(es) => r matches Ok(v) && kv_view(v@) == es,
                Err(fault) => r matches Err(e) && fault_matches(fault, e),
            },
    {
        let ghost bytes = self.bytes@;
        let n = self.bytes.len();
        let mut out: Vec<SkipListKV<Vec<u8>, Vec<u8>>> = Vec::new();
        let mut pos: u64 = start;
        let mut consumed: u64 = 0;
        assert(kv_view(out@) =~= Seq::<(Seq<u8>, Seq<u8>)>::empty());
        assert(parse_entries(bytes, start as int, len as int) == after(
            kv_view(out@),
            parse_entries(bytes, pos as int, len - consumed),
        )) by {
            match parse_entries(bytes, start as int, len as int) {
                Ok(es) => {
                    assert(kv_view(out@) + es =~= es);
                },
                Err(_) => {},
            }
        }
        while consumed < len
            invariant
                bytes == self.bytes@,
                n == bytes.len(),
                pos == start + consumed,
                consumed > 0 ==> pos <= n,
                parse_entries(bytes, start as int, len as int) == after(
                    kv_view(out@),
                    parse_entries(bytes, pos as int, len - consumed),
                ),
            decreases n - pos,
        {
            let ghost rem = len - consumed;
            let nn = n as u64;
            if pos > nn || nn - pos < 8 {
                return Err(SsTableReaderError::IoError(unexpected_eof()));
            }
            let p = pos as usize;
            let kl = get_le8(self.bytes, p);
            if n - p < 16 || kl > (n - p - 16) as u64 {
                return Err(SsTableReaderError::IoError(unexpected_eof()));
            }
            let kl = kl as usize;
            let k = copy_bytes(vstd::slice::slice_subrange(self.bytes, p + 8, p + 8 + kl));
            let vl = get_le8(self.bytes, p + 8 + kl);
            if vl > (n - p - 16 - kl) as u64 {
                return Err(SsTableReaderError::IoError(unexpected_eof()));
            }
            let vl = vl as usize;
            let v = copy_bytes(vstd::slice::slice_subrange(self.bytes, p + 16 + kl, p + 16 + kl + vl));
            let step = 16 + kl + vl;
            let ghost prev = kv_view(out@);
            out.push(SkipListKV::new(k, v));
            proof {
                assert(kv_view(out@) =~= prev + seq![(k@, v@)]);
                let r2 = parse_entries(bytes, pos + step, rem - step);
                if rem - step <= 0 {
                    assert(r2 == Ok::<_, ReadFault>(Seq::<(Seq<u8>, Seq<u8>)>::empty()));
                    assert(prev + seq![(k@, v@)] + Seq::<(Seq<u8>, Seq<u8>)>::empty() =~= prev + seq![(k@, v@)]);
                } else {
                    match r2 {
                        Ok(rest) => {
                            assert(prev + (seq![(k@, v@)] + rest) =~= prev + seq![(k@, v@)] + rest);
                        },
                        Err(_) => {},
                    }
                }
            }
            pos = pos + step as u64;
            consumed = consumed + step as u64;
        }
        assert(kv_view(out@) + Seq::<(Seq<u8>, Seq<u8>)>::empty() =~= kv_view(out@));
        Ok(out)
    }

    /// The entries of the block that can hold `key`, if there is one.
    pub fn read_data_block(&self, key: &Vec<u8>) -> (r: Result<Option<Vec<SkipListKV<Vec<u8>, Vec<u8>>>>, SsTableReaderError>)
        ensures
            match block_for(self.bytes_view(), key@) {
                Ok(None) => r matches Ok(None),
                Ok(Some(es)) => r matches Ok(Some(v)) && kv_view(v@) == es,
                Err(fault) => r matches Err(e) && fault_matches(fault, e),
            },
    {
        proof {
            if let Ok(rows) = index_of(self.bytes_view()) {
                crate::sstable::roundtrip::lemma_first_not_below_range(rows, key@);
            }
        }
        let block_idx = match self.binary_search_index(key) {
            Err(e) => {
                return Err(e);
            },
            Ok(None) => {
                return Ok(None);
            },
            Ok(Some(i)) => i,
        };
        let index = match self.read_index_block() {
            Ok(ib) => ib,
            Err(e) => {
                return Err(e);
            },
        };
        assert(index.rows().len() == index.blocks@.len());
        assert(block_idx < index.blocks@.len());
        let meta = &index.blocks[block_idx];
        assert(index.blocks@[block_idx as int].row() == index.rows()[block_idx as int]);
        match self.parse_block(meta.offset, meta.len) {
            Ok(v) => Ok(Some(v)),
            Err(e) => Err(e),
        }
    }

    /// The value stored for `key`, if any.
    pub fn binary_search_data(&self, key: &Vec<u8>) -> (r: Result<Option<Vec<u8>>, SsTableReaderError>)
        ensures
            match sstable_read(self.bytes_view(), key@) {
                Ok(o) => r matches Ok(x) && match (x, o) {
                    (Some(v), Some(w)) => v@ == w,
                    (None, None) => true,
                    _ => false,
                },
                Err(fault) => r matches Err(e) && fault_matches(fault, e),
            },
    {
        let block = match self.read_data_block(key) {
            Err(e) => {
                return Err(e);
            },
            Ok(None) => {
                return Ok(None);
            },
            Ok(Some(b)) => b,
        };
        let ghost es = kv_view(block@);
        assert(sstable_read(self.bytes_view(), key@) == if keys_increasing(es) {
            Ok::<_, ReadFault>(lookup(es, key@))
        } else {
            Err(ReadFault::Unsorted)
        });
        let mut i: usize = 0;
        while i < block.len() && block.len() - i > 1
            invariant
                es == kv_view(block@),
                sstable_read(self.bytes_view(), key@) == if keys_increasing(es) {
                    Ok::<_, ReadFault>(lookup(es, key@))
                } else {
                    Err(ReadFault::Unsorted)
                },
                i < block@.len() || block@.len() == 0,
                forall|j: int| 0 <= j < i && j + 1 < es.len() ==> lex_lt(#[trigger] es[j].0, es[j + 1].0),
            decreases block@.len() - i,
        {
            if block[i].key.compare_key(&block[i + 1].key) != KeyOrder::Less {
                assert(!lex_lt(es[i as int].0, es[i as int + 1].0));
                return Err(SsTableReaderError::Unsorted);
            }
            i = i + 1;
        }
        assert(keys_increasing(es));
        proof {
            lemma_increasing_sorted(es);
        }
        let mut lo: usize = 0;
        let mut hi: usize = block.len();
        while lo < hi
            invariant
                es == kv_view(block@),
                sstable_read(self.bytes_view(), key@) == Ok::<_, ReadFault>(lookup(es, key@)),
                keys_sorted::<Vec<u8>, Seq<u8>>(es),
                0 <= lo <= hi <= es.len(),
                forall|j: int| 0 <= j < lo ==> lex_lt((#[trigger] es[j]).0, key@),
                forall|j: int| hi <= j < es.len() ==> lex_lt(key@, (#[trigger] es[j]).0),
            decreases hi - lo,
        {
            let mid = lo + (hi - lo) / 2;
            let c = block[mid].key.compare_key(key);
            if c == KeyOrder::Equal {
                proof {
                    lemma_lookup_at::<Vec<u8>, Seq<u8>>(es, mid as int);
                }
                return Ok(Some(copy_bytes(&block[mid].value)));
            } else if c == KeyOrder::Less {
                proof {
                    assert forall|j: int| 0 <= j <= mid implies lex_lt((#[trigger] es[j]).0, key@) by {
                        if j < mid {
                            assert(<Vec<u8> as TypeSkipListKey>::key_lt(es[j].0, es[mid as int].0));
                            lemma_bytes_order(es[j].0, es[mid as int].0, key@);
                        }
                    }
                }
                lo = mid + 1;
            } else {
                proof {
                    assert forall|j: int| mid <= j < es.len() implies lex_lt(key@, (#[trigger] es[j]).0) by {
                        if j > mid {
                            assert(<Vec<u8> as TypeSkipListKey>::key_lt(es[mid as int].0, es[j].0));
                            lemma_bytes_order(key@, es[mid as int].0, es[j].0);
                        }
                    }
                }
                hi = mid;
            }
        }
        proof {
            assert forall|j: int| 0 <= j < es.len() implies (#[trigger] es[j]).0 != key@ by {
                lemma_bytes_order(key@, key@, key@);
            }
            lemma_lookup_absent(es, key@);
        }
        Ok(None)
    }
}

} // verus!
