//! A run-length codec for byte buffers.
//!
//! The encoded form is a flat sequence of two-byte records: the repeated
//! value followed by its count, with counts between 1 and 255. Runs longer
//! than 255 bytes are split across several records, so every byte buffer is
//! representable. Decoding rejects buffers of odd length, whose final record
//! is truncated, instead of silently dropping the dangling byte.

use vstd::prelude::*;

pub mod rle;

verus! {

/// Compresses a byte buffer with the run-length codec.
pub fn rle_compress(data: &[u8]) -> (encoded: Vec<u8>)
    ensures
        encoded@ == rle::encode_spec(data@),
{
    rle::encode(data)
}

/// Decompresses a byte buffer with the run-length codec.
pub fn rle_decompress(data: &[u8]) -> (r: Result<Vec<u8>, rle::RleError>)
    ensures
        match r {
            Ok(decoded) => data@.len() % 2 == 0 && decoded@ == rle::decode_spec(data@),
            Err(e) => data@.len() % 2 != 0 && e == rle::RleError::MalformedInput,
        },
{
    rle::decode(data)
}

} // verus!
