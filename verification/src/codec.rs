//! The calls into `bitcode`, the binary encoder that the storage formats use for
//! values, log entries, the block index and the footer.
//!
//! Each encoding is named by an uninterpreted function of the encoded value, and
//! each decoding by an uninterpreted function of the bytes. The one fact stated
//! beside the names is the one that `bitcode`'s documentation shows for every
//! supported type: decoding what `encode` produced gives the value back.
use vstd::prelude::*;

verus! {

#[verifier::external_type_specification]
#[verifier::external_body]
pub struct ExBitcodeError(bitcode::Error);

/// The bytes of `bitcode::encode` on an `Option<Option<Vec<u8>>>`.
pub uninterp spec fn bitcode_of_value_repr(v: Option<Option<Seq<u8>>>) -> Seq<u8>;

/// What `bitcode::decode::<Option<Option<Vec<u8>>>>` gives for some bytes (`None`
/// when it fails).
pub uninterp spec fn bitcode_value_repr_from(bytes: Seq<u8>) -> Option<Option<Option<Seq<u8>>>>;

/// The view of an `Option<Option<Vec<u8>>>`.
pub open spec fn opt_opt_view(v: Option<Option<Vec<u8>>>) -> Option<Option<Seq<u8>>> {
    match v {
        Some(Some(d)) => Some(Some(d@)),
        Some(None) => Some(None),
        None => None,
    }
}

/// Calls `bitcode::encode` on an `Option<Option<Vec<u8>>>`; decoding the result
/// gives the value back.
#[verifier::external_body]
pub(crate) fn encode_value_repr(v: &Option<Option<Vec<u8>>>) -> (out: Vec<u8>)
    ensures
        out@ == bitcode_of_value_repr(opt_opt_view(*v)),
        bitcode_value_repr_from(out@) == Some(opt_opt_view(*v)),
{
    bitcode::encode(v)
}

/// Calls `bitcode::decode::<Option<Option<Vec<u8>>>>`.
#[verifier::external_body]
pub(crate) fn decode_value_repr(bytes: &[u8]) -> (r: Result<Option<Option<Vec<u8>>>, bitcode::Error>)
    ensures
        match r {
            Ok(v) => bitcode_value_repr_from(bytes@) == Some(opt_opt_view(v)),
            Err(_) => bitcode_value_repr_from(bytes@) is None,
        },
{
    bitcode::decode(bytes)
}

/// The bytes of `bitcode::encode` on a pair of byte vectors.
pub uninterp spec fn bitcode_of_pair(a: Seq<u8>, b: Seq<u8>) -> Seq<u8>;

/// What `bitcode::decode::<(Vec<u8>, Vec<u8>)>` gives for some bytes.
pub uninterp spec fn bitcode_pair_from(bytes: Seq<u8>) -> Option<(Seq<u8>, Seq<u8>)>;

/// Calls `bitcode::encode` on `(a, b)`; decoding the result gives the pair back.
#[verifier::external_body]
pub(crate) fn encode_pair(a: &Vec<u8>, b: &Vec<u8>) -> (out: Vec<u8>)
    ensures
        out@ == bitcode_of_pair(a@, b@),
        bitcode_pair_from(out@) == Some((a@, b@)),
{
    bitcode::encode(&(a.clone(), b.clone()))
}

/// Calls `bitcode::decode::<(Vec<u8>, Vec<u8>)>`.
#[verifier::external_body]
pub(crate) fn decode_pair(bytes: &[u8]) -> (r: Result<(Vec<u8>, Vec<u8>), bitcode::Error>)
    ensures
        match r {
            Ok((a, b)) => bitcode_pair_from(bytes@) == Some((a@, b@)),
            Err(_) => bitcode_pair_from(bytes@) is None,
        },
{
    bitcode::decode(bytes)
}

/// The bytes of `bitcode::encode` on one `u64`.
pub uninterp spec fn bitcode_of_u64(a: u64) -> Seq<u8>;

/// Calls `bitcode::encode` on `a`.
#[verifier::external_body]
pub(crate) fn encode_u64(a: u64) -> (out: Vec<u8>)
    ensures
        out@ == bitcode_of_u64(a),
{
    bitcode::encode(&a)
}

/// The bytes of `bitcode::encode` on a pair of `u64`.
pub uninterp spec fn bitcode_of_u64_pair(a: u64, b: u64) -> Seq<u8>;

/// What `bitcode::decode::<(u64, u64)>` gives for some bytes.
pub uninterp spec fn bitcode_u64_pair_from(bytes: Seq<u8>) -> Option<(u64, u64)>;

/// Calls `bitcode::encode` on `(a, b)`; decoding the result gives the pair back.
#[verifier::external_body]
pub(crate) fn encode_u64_pair(a: u64, b: u64) -> (out: Vec<u8>)
    ensures
        out@ == bitcode_of_u64_pair(a, b),
        bitcode_u64_pair_from(out@) == Some((a, b)),
{
    bitcode::encode(&(a, b))
}

/// Calls `bitcode::decode::<(u64, u64)>`.
#[verifier::external_body]
pub(crate) fn decode_u64_pair(bytes: &[u8]) -> (r: Result<(u64, u64), bitcode::Error>)
    ensures
        match r {
            Ok((a, b)) => bitcode_u64_pair_from(bytes@) == Some((a, b)),
            Err(_) => bitcode_u64_pair_from(bytes@) is None,
        },
{
    bitcode::decode(bytes)
}

/// The view of one index row: block length, block offset, last key.
pub open spec fn row_view(r: (u64, u64, Vec<u8>)) -> (u64, u64, Seq<u8>) {
    (r.0, r.1, r.2@)
}

/// The views of index rows.
pub open spec fn rows_view(rows: Seq<(u64, u64, Vec<u8>)>) -> Seq<(u64, u64, Seq<u8>)> {
    rows.map_values(|r: (u64, u64, Vec<u8>)| row_view(r))
}

/// The bytes of `bitcode::encode` on one index row.
pub uninterp spec fn bitcode_of_row(row: (u64, u64, Seq<u8>)) -> Seq<u8>;

/// Calls `bitcode::encode` on one `(u64, u64, Vec<u8>)` row.
#[verifier::external_body]
pub(crate) fn encode_row(len: u64, offset: u64, key: &Vec<u8>) -> (out: Vec<u8>)
    ensures
        out@ == bitcode_of_row((len, offset, key@)),
{
    bitcode::encode(&(len, offset, key.clone()))
}

/// The bytes of `bitcode::encode` on a vector of index rows.
pub uninterp spec fn bitcode_of_rows(rows: Seq<(u64, u64, Seq<u8>)>) -> Seq<u8>;

/// What `bitcode::decode::<Vec<(u64, u64, Vec<u8>)>>` gives for some bytes.
pub uninterp spec fn bitcode_rows_from(bytes: Seq<u8>) -> Option<Seq<(u64, u64, Seq<u8>)>>;

/// Calls `bitcode::encode` on a vector of rows; decoding the result gives them back.
#[verifier::external_body]
pub(crate) fn encode_rows(rows: &Vec<(u64, u64, Vec<u8>)>) -> (out: Vec<u8>)
    ensures
        out@ == bitcode_of_rows(rows_view(rows@)),
        bitcode_rows_from(out@) == Some(rows_view(rows@)),
{
    bitcode::encode(rows)
}

/// Calls `bitcode::decode::<Vec<(u64, u64, Vec<u8>)>>`.
#[verifier::external_body]
pub(crate) fn decode_rows(bytes: &[u8]) -> (r: Result<Vec<(u64, u64, Vec<u8>)>, bitcode::Error>)
    ensures
        match r {
            Ok(rows) => bitcode_rows_from(bytes@) == Some(rows_view(rows@)),
            Err(_) => bitcode_rows_from(bytes@) is None,
        },
{
    bitcode::decode(bytes)
}

} // verus!
