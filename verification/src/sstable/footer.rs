//! The footer: where the index starts and how long it is.
use crate::bytes_util::{append_bytes, append_le8, le8};
use crate::codec::{bitcode_of_u64, bitcode_of_u64_pair, decode_u64_pair, encode_u64, encode_u64_pair};
use crate::sstable::format::footer_section;
use vstd::prelude::*;

verus! {

#[derive(Debug)]
pub struct Footer {
    pub index_offset: u64,
    pub index_len: u64,
}

/// An array holding the bytes of `v`, which has 8 of them.
pub fn to_array8(v: &Vec<u8>) -> (r: [u8; 8])
    requires
        v@.len() == 8,
    ensures
        r@ == v@,
{
    let r = [v[0], v[1], v[2], v[3], v[4], v[5], v[6], v[7]];
    assert(r@ =~= v@);
    r
}

impl Footer {
    pub fn new(index_offset: u64, index_len: u64) -> (r: Self)
        ensures
            r.index_offset == index_offset,
            r.index_len == index_len,
    {
        Self { index_offset, index_len }
    }

    /// The encoding of the index offset, and the 8 little-endian bytes of its
    /// length first.
    pub fn encode(&self) -> (r: ([u8; 8], Vec<u8>))
        ensures
            r.1@ == bitcode_of_u64(self.index_offset),
            r.0@ == le8(r.1@.len() as u64),
    {
        let bytes = encode_u64(self.index_offset);
        let len = vstd::bytes::u64_to_le_bytes(bytes.len() as u64);
        (to_array8(&len), bytes)
    }

    /// Appends the footer, its encoding then the encoding's length, to `out`.
    pub fn write_to(&self, out: &mut Vec<u8>)
        ensures
            final(out)@ == old(out)@ + footer_section(self.index_offset, self.index_len),
            crate::codec::bitcode_u64_pair_from(bitcode_of_u64_pair(self.index_offset, self.index_len))
                == Some((self.index_offset, self.index_len)),
    {
        let bytes = encode_u64_pair(self.index_offset, self.index_len);
        append_bytes(out, &bytes);
        append_le8(out, bytes.len() as u64);
        assert(final(out)@ =~= old(out)@ + footer_section(self.index_offset, self.index_len));
    }

    /// The footer that `bytes` encode.
    pub fn decode(bytes: &[u8]) -> (r: Result<Footer, bitcode::Error>)
        ensures
            match r {
                Ok(f) => crate::codec::bitcode_u64_pair_from(bytes@) == Some((f.index_offset, f.index_len)),
                Err(_) => crate::codec::bitcode_u64_pair_from(bytes@) is None,
            },
    {
        match decode_u64_pair(bytes) {
            Ok((a, b)) => Ok(Footer { index_offset: a, index_len: b }),
            Err(e) => Err(e),
        }
    }
}

} // verus!
