//! Little-endian length words and byte copying.
use vstd::bytes::{spec_u64_from_le_bytes, spec_u64_to_le_bytes, u64_from_le_bytes, u64_to_le_bytes};
use vstd::prelude::*;

verus! {

/// The 8 little-endian bytes of `x`.
pub open spec fn le8(x: u64) -> Seq<u8> {
    spec_u64_to_le_bytes(x)
}

/// The number whose little-endian bytes are the 8 bytes of `s` from `at` on.
pub open spec fn read_le8(s: Seq<u8>, at: int) -> u64 {
    spec_u64_from_le_bytes(s.subrange(at, at + 8))
}

/// `le8(x)` has 8 bytes, and reading them back gives `x`.
pub proof fn lemma_le8(x: u64)
    ensures
        le8(x).len() == 8,
        spec_u64_from_le_bytes(le8(x)) == x,
{
    vstd::bytes::lemma_auto_spec_u64_to_from_le_bytes();
}

/// Appends `src` to `out`.
pub fn append_bytes(out: &mut Vec<u8>, src: &[u8])
    ensures
        final(out)@ == old(out)@ + src@,
{
    let mut i: usize = 0;
    while i < src.len()
        invariant
            i <= src@.len(),
            out@ == old(out)@ + src@.subrange(0, i as int),
        decreases src@.len() - i,
    {
        out.push(src[i]);
        i = i + 1;
        assert(out@ =~= old(out)@ + src@.subrange(0, i as int));
    }
    assert(src@.subrange(0, src@.len() as int) =~= src@);
}

/// Appends the 8 little-endian bytes of `x` to `out`.
pub fn append_le8(out: &mut Vec<u8>, x: u64)
    ensures
        final(out)@ == old(out)@ + le8(x),
{
    let b = u64_to_le_bytes(x);
    append_bytes(out, &b);
}

/// Reads the little-endian number in the 8 bytes of `s` from `at` on.
pub fn get_le8(s: &[u8], at: usize) -> (x: u64)
    requires
        at + 8 <= s@.len(),
    ensures
        x == read_le8(s@, at as int),
{
    let _n = s.len();
    let b = vstd::slice::slice_subrange(s, at, at + 8);
    u64_from_le_bytes(b)
}

} // verus!
