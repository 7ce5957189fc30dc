//! The layout of a sorted string table, and what reading one gives.
//!
//! A table is its data blocks, then the index, then the footer:
//! - a data block is a run of entries, each the 8-byte little-endian key length,
//!   the key, the 8-byte value length and the value; entries go into the current
//!   block while it stays under `BLOCK_LIMIT` bytes;
//! - the index is the 8-byte length of the `bitcode` encoding of one row per block
//!   (its length, its offset and the last key written before its end), then that
//!   encoding;
//! - the footer is the `bitcode` encoding of the index offset and the index length,
//!   then its own 8-byte length.
use crate::bytes_util::{le8, read_le8};
use crate::codec::{bitcode_of_rows, bitcode_of_u64_pair, bitcode_rows_from, bitcode_u64_pair_from};
use crate::ordered::lookup;
use crate::traits::lex_lt;
use vstd::prelude::*;

verus! {

/// A block is closed before an entry that would bring it to this many bytes.
pub const BLOCK_LIMIT: usize = 4000;

/// The bytes of one entry.
pub open spec fn kv_entry(k: Seq<u8>, v: Seq<u8>) -> Seq<u8> {
    le8(k.len() as u64) + k + le8(v.len() as u64) + v
}

/// The number of bytes one entry takes.
pub open spec fn entry_size(e: (Seq<u8>, Seq<u8>)) -> int {
    16 + e.0.len() as int + e.1.len() as int
}

/// The bytes of a run of entries.
pub open spec fn block_bytes(es: Seq<(Seq<u8>, Seq<u8>)>) -> Seq<u8>
    decreases es.len(),
{
    if es.len() == 0 {
        seq![]
    } else {
        kv_entry(es[0].0, es[0].1) + block_bytes(es.drop_first())
    }
}

/// The entries of the block that spans `cut` (start and end index).
pub open spec fn block_of(entries: Seq<(Seq<u8>, Seq<u8>)>, cut: (int, int)) -> Seq<(Seq<u8>, Seq<u8>)> {
    entries.subrange(cut.0, cut.1)
}

/// How the writer cuts `entries` into blocks, from index `i` on, with the current
/// block starting at `start` and the blocks `done` already closed: an entry joins
/// an empty current block, and joins a nonempty one while the block stays under
/// `BLOCK_LIMIT` bytes; otherwise the current block is closed and the entry starts
/// the next one. The current block is closed at the end when it holds entries, so
/// every block holds at least one entry.
pub open spec fn split_rec(entries: Seq<(Seq<u8>, Seq<u8>)>, i: int, start: int, done: Seq<(int, int)>) -> Seq<
    (int, int),
>
    decreases entries.len() - i,
{
    if i >= entries.len() || i < 0 {
        if start < i {
            done.push((start, i))
        } else {
            done
        }
    } else if start >= i || block_bytes(entries.subrange(start, i)).len() + entry_size(entries[i])
        < BLOCK_LIMIT as int {
        split_rec(entries, i + 1, start, done)
    } else {
        split_rec(entries, i + 1, i, done.push((start, i)))
    }
}

/// The blocks of a table holding `entries`, as start and end indexes.
pub open spec fn split_blocks(entries: Seq<(Seq<u8>, Seq<u8>)>) -> Seq<(int, int)> {
    split_rec(entries, 0, 0, seq![])
}

/// The key of the last entry before index `end`, or the empty key.
pub open spec fn last_key_before(entries: Seq<(Seq<u8>, Seq<u8>)>, end: int) -> Seq<u8> {
    if end > 0 {
        entries[end - 1].0
    } else {
        seq![]
    }
}

/// The bytes of the blocks `cuts`, one after another.
pub open spec fn data_bytes(entries: Seq<(Seq<u8>, Seq<u8>)>, cuts: Seq<(int, int)>) -> Seq<u8>
    decreases cuts.len(),
{
    if cuts.len() == 0 {
        seq![]
    } else {
        data_bytes(entries, cuts.drop_last()) + block_bytes(block_of(entries, cuts.last()))
    }
}

/// One index row per block: its length, its offset, its last key.
pub open spec fn index_rows(entries: Seq<(Seq<u8>, Seq<u8>)>, cuts: Seq<(int, int)>) -> Seq<(u64, u64, Seq<u8>)> {
    Seq::new(
        cuts.len(),
        |j: int|
            (
                block_bytes(block_of(entries, cuts[j])).len() as u64,
                data_bytes(entries, cuts.take(j)).len() as u64,
                last_key_before(entries, cuts[j].1),
            ),
    )
}

/// The bytes of the index section for `rows`.
pub open spec fn index_section(rows: Seq<(u64, u64, Seq<u8>)>) -> Seq<u8> {
    le8(bitcode_of_rows(rows).len() as u64) + bitcode_of_rows(rows)
}

/// The bytes of the footer for an index at `index_offset` taking `index_len` bytes.
pub open spec fn footer_section(index_offset: u64, index_len: u64) -> Seq<u8> {
    bitcode_of_u64_pair(index_offset, index_len) + le8(
        bitcode_of_u64_pair(index_offset, index_len).len() as u64,
    )
}

/// The bytes of a table holding `entries` (given in ascending key order).
pub open spec fn sstable_layout(entries: Seq<(Seq<u8>, Seq<u8>)>) -> Seq<u8> {
    let cuts = split_blocks(entries);
    let data = data_bytes(entries, cuts);
    let index = index_section(index_rows(entries, cuts));
    data + index + footer_section(data.len() as u64, index.len() as u64)
}

/// Why reading a table failed.
pub enum ReadFault {
    /// A position or length points past the end of the bytes.
    Eof,
    /// The footer or the index does not decode.
    Decode,
    /// The index's last keys go down, or a block's keys do not go up.
    Unsorted,
}

/// The index offset and length that the footer of `bytes` holds.
pub open spec fn footer_of(bytes: Seq<u8>) -> Result<(u64, u64), ReadFault> {
    if bytes.len() < 8 {
        Err(ReadFault::Eof)
    } else {
        let flen = read_le8(bytes, bytes.len() - 8) as int;
        if flen > bytes.len() - 8 {
            Err(ReadFault::Eof)
        } else {
            match bitcode_u64_pair_from(bytes.subrange(bytes.len() - 8 - flen, bytes.len() - 8)) {
                Some(p) => Ok(p),
                None => Err(ReadFault::Decode),
            }
        }
    }
}

/// Each row's last key is at most the next row's.
pub open spec fn rows_nondecreasing(rows: Seq<(u64, u64, Seq<u8>)>) -> bool {
    forall|i: int| 0 <= i && i + 1 < rows.len() ==> !lex_lt(#[trigger] rows[i + 1].2, rows[i].2)
}

/// The index rows of `bytes`.
pub open spec fn index_of(bytes: Seq<u8>) -> Result<Seq<(u64, u64, Seq<u8>)>, ReadFault> {
    match footer_of(bytes) {
        Err(e) => Err(e),
        Ok((io, _)) => {
            let io = io as int;
            if io + 8 > bytes.len() {
                Err(ReadFault::Eof)
            } else {
                let ilen = read_le8(bytes, io) as int;
                if ilen > bytes.len() - io - 8 {
                    Err(ReadFault::Eof)
                } else {
                    match bitcode_rows_from(bytes.subrange(io + 8, io + 8 + ilen)) {
                        None => Err(ReadFault::Decode),
                        Some(rows) => if rows_nondecreasing(rows) {
                            Ok(rows)
                        } else {
                            Err(ReadFault::Unsorted)
                        },
                    }
                }
            }
        },
    }
}

/// The number of leading rows whose last key is below `key`: the first block that
/// can hold `key`.
pub open spec fn first_not_below(rows: Seq<(u64, u64, Seq<u8>)>, key: Seq<u8>) -> int
    decreases rows.len(),
{
    if rows.len() == 0 {
        0
    } else if lex_lt(rows[0].2, key) {
        1 + first_not_below(rows.drop_first(), key)
    } else {
        0
    }
}

/// The entries read from `bytes` at `pos` while fewer than `remaining` bytes of the
/// block were consumed.
pub open spec fn parse_entries(bytes: Seq<u8>, pos: int, remaining: int) -> Result<
    Seq<(Seq<u8>, Seq<u8>)>,
    ReadFault,
>
    decreases remaining,
{
    if remaining <= 0 {
        Ok(seq![])
    } else if pos < 0 || pos + 8 > bytes.len() {
        Err(ReadFault::Eof)
    } else {
        let kl = read_le8(bytes, pos) as int;
        if kl > bytes.len() - pos - 16 {
            Err(ReadFault::Eof)
        } else {
            let k = bytes.subrange(pos + 8, pos + 8 + kl);
            let vl = read_le8(bytes, pos + 8 + kl) as int;
            if vl > bytes.len() - pos - 16 - kl {
                Err(ReadFault::Eof)
            } else {
                let v = bytes.subrange(pos + 16 + kl, pos + 16 + kl + vl);
                let step = 16 + kl + vl;
                if remaining <= step {
                    Ok(seq![(k, v)])
                } else {
                    match parse_entries(bytes, pos + step, remaining - step) {
                        Ok(rest) => Ok(seq![(k, v)] + rest),
                        Err(e) => Err(e),
                    }
                }
            }
        }
    }
}

/// Each key is below the next one.
pub open spec fn keys_increasing(es: Seq<(Seq<u8>, Seq<u8>)>) -> bool {
    forall|i: int| 0 <= i && i + 1 < es.len() ==> lex_lt(#[trigger] es[i].0, es[i + 1].0)
}

/// The entries of the block of `bytes` that can hold `key`, if there is one.
pub open spec fn block_for(bytes: Seq<u8>, key: Seq<u8>) -> Result<Option<Seq<(Seq<u8>, Seq<u8>)>>, ReadFault> {
    match index_of(bytes) {
        Err(e) => Err(e),
        Ok(rows) => {
            let p = first_not_below(rows, key);
            if p >= rows.len() {
                Ok(None)
            } else {
                match parse_entries(bytes, rows[p].1 as int, rows[p].0 as int) {
                    Ok(es) => Ok(Some(es)),
                    Err(e) => Err(e),
                }
            }
        },
    }
}

/// What the table `bytes` holds for `key`.
pub open spec fn sstable_read(bytes: Seq<u8>, key: Seq<u8>) -> Result<Option<Seq<u8>>, ReadFault> {
    match block_for(bytes, key) {
        Err(e) => Err(e),
        Ok(None) => Ok(None),
        Ok(Some(es)) => if keys_increasing(es) {
            Ok(lookup(es, key))
        } else {
            Err(ReadFault::Unsorted)
        },
    }
}

} // verus!
