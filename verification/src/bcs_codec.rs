//! Numbers in BCS.
//!
//! The functions here are the library's only calls into the `bcs` crate; their
//! contracts are taken on trust.

use vstd::prelude::*;

use crate::codec;

verus! {

/// `bcs::Error`, opaque: reading a number fails with it.
#[verifier::external_type_specification]
#[verifier::external_body]
pub struct ExBcsError(bcs::Error);

/// `bcs::to_bytes`, on a 64-bit number: its eight bytes, the lowest first. It never
/// fails there.
#[verifier::external_body]
pub(crate) fn write_u64(value: u64) -> (bytes: Vec<u8>)
    ensures
        bytes@ == codec::le_bytes_u64(value),
{
    bcs::to_bytes(&value).expect("a number serializes")
}

/// `bcs::to_bytes`, on a 32-bit number: its four bytes, the lowest first. It never
/// fails there.
#[verifier::external_body]
pub(crate) fn write_u32(value: u32) -> (bytes: Vec<u8>)
    ensures
        bytes@ == codec::le_bytes_u32(value),
{
    bcs::to_bytes(&value).expect("a number serializes")
}

/// `bcs::from_bytes`, to a 64-bit number: the number of which these are the bytes.
/// It fails exactly where there are not eight.
#[verifier::external_body]
pub(crate) fn read_u64(bytes: &[u8]) -> (value: Result<u64, bcs::Error>)
    ensures
        match value {
            Ok(value) => bytes@ == codec::le_bytes_u64(value),
            Err(_) => bytes@.len() != 8,
        },
{
    bcs::from_bytes(bytes)
}

/// `bcs::from_bytes`, to a 32-bit number: the number of which these are the bytes.
/// It fails exactly where there are not four.
#[verifier::external_body]
pub(crate) fn read_u32(bytes: &[u8]) -> (value: Result<u32, bcs::Error>)
    ensures
        match value {
            Ok(value) => bytes@ == codec::le_bytes_u32(value),
            Err(_) => bytes@.len() != 4,
        },
{
    bcs::from_bytes(bytes)
}

} // verus!
