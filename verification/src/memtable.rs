//! The in-memory table of recent writes: a skip list from keys to encoded values,
//! where a deleted key holds a tombstone.
use crate::codec::{
    bitcode_of_value_repr, bitcode_value_repr_from, decode_value_repr, encode_value_repr,
};
use crate::ordered::{lemma_lookup_upsert, lookup, upsert};
use crate::skiplist::SkipList;
use crate::skiplist_error::SkipListError;
use crate::traits::TypeSkipListKey;
use vstd::prelude::*;

verus! {

/// What a key holds: data, a tombstone left by a delete, or nothing.
#[derive(Debug, Clone, PartialEq)]
pub enum Value {
    Data(Vec<u8>),
    Tombstone,
    Missing,
}

/// The view of a [`Value`].
pub enum ValueView {
    Data(Seq<u8>),
    Tombstone,
    Missing,
}

impl View for Value {
    type V = ValueView;

    open spec fn view(&self) -> ValueView {
        match self {
            Value::Data(d) => ValueView::Data(d@),
            Value::Tombstone => ValueView::Tombstone,
            Value::Missing => ValueView::Missing,
        }
    }
}

/// A value is encoded as `Some(Some(data))`, `Some(None)` for a tombstone, and
/// `None` for nothing.
pub open spec fn value_repr(v: ValueView) -> Option<Option<Seq<u8>>> {
    match v {
        ValueView::Data(d) => Some(Some(d)),
        ValueView::Tombstone => Some(None),
        ValueView::Missing => None,
    }
}

pub open spec fn value_from_repr(r: Option<Option<Seq<u8>>>) -> ValueView {
    match r {
        Some(Some(d)) => ValueView::Data(d),
        Some(None) => ValueView::Tombstone,
        None => ValueView::Missing,
    }
}

/// The bytes a value is stored as.
pub open spec fn value_encoding(v: ValueView) -> Seq<u8> {
    bitcode_of_value_repr(value_repr(v))
}

/// The value some bytes decode to, if they decode.
pub open spec fn value_decoding(bytes: Seq<u8>) -> Option<ValueView> {
    match bitcode_value_repr_from(bytes) {
        Some(r) => Some(value_from_repr(r)),
        None => None,
    }
}

impl Value {
    /// The bytes this value is stored as; they decode back to it.
    pub fn to_bytes(&self) -> (r: Vec<u8>)
        ensures
            r@ == value_encoding(self@),
            value_decoding(r@) == Some(self@),
    {
        let repr: Option<Option<Vec<u8>>> = match self {
            Value::Data(d) => Some(Some(d.clone())),
            Value::Tombstone => Some(None),
            Value::Missing => None,
        };
        proof {
            if let Value::Data(d) = self {
                assert(repr.unwrap().unwrap()@ == d@);
            }
        }
        let r = encode_value_repr(&repr);
        assert(value_from_repr(value_repr(self@)) == self@);
        r
    }

    /// The value that `bytes` encode, or the decoding error.
    pub fn from_bytes(bytes: &[u8]) -> (r: Result<Self, bitcode::Error>)
        ensures
            match r {
                Ok(v) => value_decoding(bytes@) == Some(v@),
                Err(_) => value_decoding(bytes@) is None,
            },
    {
        match decode_value_repr(bytes) {
            Ok(Some(Some(d))) => Ok(Value::Data(d)),
            Ok(Some(None)) => Ok(Value::Tombstone),
            Ok(None) => Ok(Value::Missing),
            Err(e) => Err(e),
        }
    }
}

/// What a memtable answers for a key whose stored bytes are `stored`: the decoded
/// value, `None` for an absent key, and `Err(())` when the bytes do not decode.
pub open spec fn memtable_answer(stored: Option<Seq<u8>>) -> Result<ValueView, ()> {
    match stored {
        None => Ok(ValueView::Missing),
        Some(b) => match value_decoding(b) {
            Some(v) => Ok(v),
            None => Err(()),
        },
    }
}

/// The memtable: recent writes kept in a skip list, and the bytes of keys and
/// values written to it.
pub struct Memtable {
    pub skiplist: SkipList<Vec<u8>, Vec<u8>>,
    pub size: usize,
}

impl Memtable {
    pub open spec fn wf(&self) -> bool {
        &&& self.skiplist.wf()
        &&& self.skiplist.level_cap() == 5
    }

    /// The stored pairs: keys and encoded values in ascending key order.
    pub open spec fn entries(&self) -> Seq<(Seq<u8>, Seq<u8>)> {
        self.skiplist@
    }

    /// An empty memtable.
    pub fn new() -> (r: Self)
        ensures
            r.wf(),
            r.entries() == Seq::<(Seq<u8>, Seq<u8>)>::empty(),
            r.size == 0,
    {
        Self { skiplist: SkipList::new(5, vec![48u8], vec![48u8]), size: 0 }
    }

    /// Stores `value` as the data of `key` and counts their bytes in `size`.
    pub fn insert(&mut self, key: &Vec<u8>, value: Vec<u8>) -> (r: Result<(), SkipListError>)
        requires
            old(self).wf(),
            old(self).size + key@.len() + value@.len() <= usize::MAX,
            old(self).entries().len() + 2 < usize::MAX,
        ensures
            r is Ok,
            final(self).wf(),
            final(self).size == old(self).size + key@.len() + value@.len(),
            final(self).entries() == upsert::<Vec<u8>, Seq<u8>>(
                old(self).entries(),
                key@,
                value_encoding(ValueView::Data(value@)),
            ),
            value_decoding(value_encoding(ValueView::Data(value@))) == Some(ValueView::Data(value@)),
    {
        let value_len = value.len();
        let ghost data = ValueView::Data(value@);
        let val = Value::Data(value).to_bytes();
        self.size = self.size + key.len() + value_len;
        self.skiplist.insert(key.clone_key(), val);
        Ok(())
    }

    /// What `key` holds: its data, a tombstone, or `Value::Missing` when absent; an
    /// error when its stored bytes do not decode.
    pub fn extract(&self, key: &Vec<u8>) -> (r: Result<Value, SkipListError>)
        requires
            self.wf(),
        ensures
            match memtable_answer(lookup(self.entries(), key@)) {
                Ok(v) => r matches Ok(x) && x@ == v,
                Err(_) => r matches Err(SkipListError::BitcodeError(_)),
            },
    {
        let bytes = self.skiplist.search(key.clone_key());
        match bytes {
            Some(bytes) => {
                match Value::from_bytes(&bytes) {
                    Ok(v) => Ok(v),
                    Err(e) => Err(SkipListError::BitcodeError(e)),
                }
            },
            None => Ok(Value::Missing),
        }
    }

    /// Marks `key` as deleted: it holds a tombstone from now on.
    pub fn delete(&mut self, key: &Vec<u8>)
        requires
            old(self).wf(),
            old(self).entries().len() + 2 < usize::MAX,
        ensures
            final(self).wf(),
            final(self).size == old(self).size,
            final(self).entries() == upsert::<Vec<u8>, Seq<u8>>(
                old(self).entries(),
                key@,
                value_encoding(ValueView::Tombstone),
            ),
            value_decoding(value_encoding(ValueView::Tombstone)) == Some(ValueView::Tombstone),
    {
        let val = Value::Tombstone.to_bytes();
        self.skiplist.insert(key.clone_key(), val);
    }
}

/// Reading a key right after writing it gives what was written; other keys read
/// what they read before.
pub proof fn lemma_memtable_read_after_write(
    entries: Seq<(Seq<u8>, Seq<u8>)>,
    key: Seq<u8>,
    written: ValueView,
    other: Seq<u8>,
)
    requires
        value_decoding(value_encoding(written)) == Some(written),
    ensures
        memtable_answer(
            lookup(upsert::<Vec<u8>, Seq<u8>>(entries, key, value_encoding(written)), key),
        ) == Ok::<ValueView, ()>(written),
        other != key ==> memtable_answer(
            lookup(upsert::<Vec<u8>, Seq<u8>>(entries, key, value_encoding(written)), other),
        ) == memtable_answer(lookup(entries, other)),
{
    lemma_lookup_upsert::<Vec<u8>, Seq<u8>>(entries, key, value_encoding(written), key);
    lemma_lookup_upsert::<Vec<u8>, Seq<u8>>(entries, key, value_encoding(written), other);
}

} // verus!