//! The write-ahead log's format: each entry is the 8-byte little-endian length of
//! the `bitcode` encoding of a key and its stored value bytes, then that encoding.
//! Replaying a log binds each entry's key in turn.
use crate::bytes_util::{append_bytes, append_le8, get_le8, le8, lemma_le8, read_le8};
use crate::codec::{bitcode_of_pair, bitcode_pair_from, decode_pair, encode_pair};
use crate::memtable::{Value, value_encoding};
use crate::ordered::{lemma_upsert_len, upsert};
use crate::skiplist::SkipList;
use crate::skiplist_error::{unexpected_eof, SkipListError};
use vstd::prelude::*;

verus! {

/// The bytes of one log entry for `key` and the stored value bytes `stored`.
pub open spec fn wal_entry(key: Seq<u8>, stored: Seq<u8>) -> Seq<u8> {
    let body = bitcode_of_pair(key, stored);
    le8(body.len() as u64) + body
}

/// Why replaying a log stopped early.
pub enum WalFault {
    /// An entry's length promises more bytes than the log has.
    Truncated,
    /// An entry's bytes do not decode to a key and a value.
    Undecodable,
}

/// Replays `log` onto the pairs `entries`: each complete entry binds its key; the
/// replay ends cleanly where fewer than 8 bytes are left, and with a fault at an
/// entry that is cut short or does not decode (the entries before it stay bound).
pub open spec fn wal_replay(log: Seq<u8>, entries: Seq<(Seq<u8>, Seq<u8>)>) -> (
    Seq<(Seq<u8>, Seq<u8>)>,
    Option<WalFault>,
)
    decreases log.len(),
{
    if log.len() < 8 {
        (entries, None)
    } else {
        let len = read_le8(log, 0) as int;
        if log.len() - 8 < len {
            (entries, Some(WalFault::Truncated))
        } else {
            match bitcode_pair_from(log.subrange(8, 8 + len)) {
                None => (entries, Some(WalFault::Undecodable)),
                Some((k, v)) => wal_replay(log.skip(8 + len), upsert::<Vec<u8>, Seq<u8>>(entries, k, v)),
            }
        }
    }
}

/// The log entry that records binding `key` to the stored bytes `stored`.
pub fn encode_raw_entry(key: &Vec<u8>, stored: &Vec<u8>) -> (r: Vec<u8>)
    ensures
        r@ == wal_entry(key@, stored@),
        bitcode_pair_from(bitcode_of_pair(key@, stored@)) == Some((key@, stored@)),
        bitcode_of_pair(key@, stored@).len() <= u64::MAX,
{
    let body = encode_pair(key, stored);
    let mut out: Vec<u8> = Vec::new();
    append_le8(&mut out, body.len() as u64);
    append_bytes(&mut out, &body);
    assert(out@ =~= wal_entry(key@, stored@));
    out
}

/// The log entry that records binding `key` to `value`.
pub fn encode_entry(key: &Vec<u8>, value: &Value) -> (r: Vec<u8>)
    ensures
        r@ == wal_entry(key@, value_encoding(value@)),
        bitcode_pair_from(bitcode_of_pair(key@, value_encoding(value@))) == Some(
            (key@, value_encoding(value@)),
        ),
        bitcode_of_pair(key@, value_encoding(value@)).len() <= u64::MAX,
{
    let stored = value.to_bytes();
    encode_raw_entry(key, &stored)
}

/// Replaying a log that starts with the entry for `key` and `stored` binds `key`
/// to `stored` and then replays the rest.
pub proof fn lemma_replay_entry(
    key: Seq<u8>,
    stored: Seq<u8>,
    rest: Seq<u8>,
    entries: Seq<(Seq<u8>, Seq<u8>)>,
)
    requires
        bitcode_pair_from(bitcode_of_pair(key, stored)) == Some((key, stored)),
        bitcode_of_pair(key, stored).len() <= u64::MAX,
    ensures
        wal_replay(wal_entry(key, stored) + rest, entries) == wal_replay(
            rest,
            upsert::<Vec<u8>, Seq<u8>>(entries, key, stored),
        ),
{
    let body = bitcode_of_pair(key, stored);
    let len = body.len() as u64;
    let log = wal_entry(key, stored) + rest;
    lemma_le8(len);
    assert(log.subrange(0, 8) =~= le8(len));
    assert(read_le8(log, 0) == len);
    assert(log.subrange(8, 8 + len) =~= body);
    assert(log.skip(8 + len) =~= rest);
}

/// The log that records binding each key of `ops` to its stored bytes, in order.
pub open spec fn wal_log(ops: Seq<(Seq<u8>, Seq<u8>)>) -> Seq<u8>
    decreases ops.len(),
{
    if ops.len() == 0 {
        seq![]
    } else {
        wal_entry(ops[0].0, ops[0].1) + wal_log(ops.drop_first())
    }
}

/// Binding each key of `ops` to its stored bytes in `entries`, in order.
pub open spec fn apply_all(entries: Seq<(Seq<u8>, Seq<u8>)>, ops: Seq<(Seq<u8>, Seq<u8>)>) -> Seq<
    (Seq<u8>, Seq<u8>),
>
    decreases ops.len(),
{
    if ops.len() == 0 {
        entries
    } else {
        apply_all(upsert::<Vec<u8>, Seq<u8>>(entries, ops[0].0, ops[0].1), ops.drop_first())
    }
}

/// Replaying a log of entries rebuilds what binding them in order builds, with no
/// fault.
pub proof fn lemma_replay_log(ops: Seq<(Seq<u8>, Seq<u8>)>, entries: Seq<(Seq<u8>, Seq<u8>)>)
    requires
        forall|i: int|
            0 <= i < ops.len() ==> bitcode_pair_from(bitcode_of_pair(#[trigger] ops[i].0, ops[i].1))
                == Some(ops[i]) && bitcode_of_pair(ops[i].0, ops[i].1).len() <= u64::MAX,
    ensures
        wal_replay(wal_log(ops), entries) == (apply_all(entries, ops), None::<WalFault>),
    decreases ops.len(),
{
    if ops.len() == 0 {
        assert(wal_log(ops).len() == 0);
    } else {
        let rest = ops.drop_first();
        assert forall|i: int| 0 <= i < rest.len() implies bitcode_pair_from(
            bitcode_of_pair(#[trigger] rest[i].0, rest[i].1),
        ) == Some(rest[i]) && bitcode_of_pair(rest[i].0, rest[i].1).len() <= u64::MAX by {
            assert(rest[i] == ops[i + 1]);
        }
        lemma_replay_log(rest, upsert::<Vec<u8>, Seq<u8>>(entries, ops[0].0, ops[0].1));
        assert(bitcode_pair_from(bitcode_of_pair(ops[0].0, ops[0].1)) == Some(ops[0]));
        lemma_replay_entry(ops[0].0, ops[0].1, wal_log(rest), entries);
    }
}

/// Replays the log `log` onto `skiplist`; entries before a fault stay inserted.
pub fn recover(log: &[u8], skiplist: &mut SkipList<Vec<u8>, Vec<u8>>) -> (r: Result<(), SkipListError>)
    requires
        old(skiplist).wf(),
        old(skiplist).level_cap() >= 1,
        old(skiplist)@.len() + log@.len() + 2 < usize::MAX,
    ensures
        final(skiplist).wf(),
        final(skiplist).level_cap() == old(skiplist).level_cap(),
        final(skiplist).head_node().data == old(skiplist).head_node().data,
        final(skiplist)@ == wal_replay(log@, old(skiplist)@).0,
        match wal_replay(log@, old(skiplist)@).1 {
            None => r is Ok,
            Some(WalFault::Truncated) => r matches Err(SkipListError::IoError(_)),
            Some(WalFault::Undecodable) => r matches Err(SkipListError::BitcodeError(_)),
        },
{
    let mut offset: usize = 0;
    let ghost total = wal_replay(log@, old(skiplist)@);
    assert(log@.skip(0) =~= log@);
    while log.len() - offset >= 8
        invariant
            offset <= log@.len(),
            skiplist.wf(),
            skiplist.level_cap() == old(skiplist).level_cap(),
            skiplist.head_node().data == old(skiplist).head_node().data,
            skiplist.level_cap() >= 1,
            skiplist@.len() <= old(skiplist)@.len() + offset,
            old(skiplist)@.len() + log@.len() + 2 < usize::MAX,
            wal_replay(log@.skip(offset as int), skiplist@) == total,
            total == wal_replay(log@, old(skiplist)@),
        decreases log@.len() - offset,
    {
        let ghost rest = log@.skip(offset as int);
        let len = get_le8(log, offset);
        proof {
            assert(rest.subrange(0, 8) =~= log@.subrange(offset as int, offset + 8));
        }
        let avail = (log.len() - offset - 8) as u64;
        if avail < len {
            assert(read_le8(rest, 0) == len);
            assert(wal_replay(rest, skiplist@) == (skiplist@, Some(WalFault::Truncated)));
            return Err(SkipListError::IoError(unexpected_eof()));
        }
        let len = len as usize;
        let body = vstd::slice::slice_subrange(log, offset + 8, offset + 8 + len);
        proof {
            assert(rest.subrange(8, 8 + len) =~= body@);
        }
        match decode_pair(body) {
            Err(e) => {
                return Err(SkipListError::BitcodeError(e));
            },
            Ok((k, v)) => {
                proof {
                    lemma_upsert_len::<Vec<u8>, Seq<u8>>(skiplist@, k@, v@);
                    assert(rest.skip(8 + len) =~= log@.skip(offset + 8 + len));
                }
                skiplist.insert(k, v);
                offset = offset + 8 + len;
            },
        }
    }
    Ok(())
}

} // verus!
