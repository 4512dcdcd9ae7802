//! Content digests: the per-payload hash that guards streamed data.

use vstd::prelude::*;
use crate::hex::{bytes_hex, bytes_to_hex};

verus! {

/// The 16-byte digest of a byte string; a function of the bytes alone.
pub uninterp spec fn md5_of(data: Seq<u8>) -> Seq<u8>;

/// Relies on md5::compute: the 16-byte digest of the data, determined by the
/// bytes alone.
#[verifier::external_body]
pub fn md5_digest(data: &[u8]) -> (r: Vec<u8>)
    ensures
        r@ == md5_of(data@),
        r@.len() == 16,
{
    md5::compute(data).0.to_vec()
}

/// The lowercase hex rendering of a byte string's digest.
pub open spec fn spec_checksum(data: Seq<u8>) -> Seq<char> {
    bytes_hex(md5_of(data))
}

/// Computes the hex checksum of `data`.
pub fn calculate_checksum(data: &[u8]) -> (r: String)
    ensures
        r@ == spec_checksum(data@),
{
    let digest = md5_digest(data);
    bytes_to_hex(digest.as_slice())
}

/// Whether `checksum` is exactly the hex digest of `data`.
pub fn checksum_matches(data: &[u8], checksum: &str) -> (r: bool)
    ensures
        r == (checksum@ == spec_checksum(data@)),
{
    let computed = calculate_checksum(data);
    crate::strutil::str_eq(computed.as_str(), checksum)
}

/// One transferable unit of content with its own identifier and checksum.
pub struct Chunk {
    pub chunk_id: String,
    pub data: Vec<u8>,
    pub checksum: String,
}

impl Chunk {
    /// Builds a chunk, stamping it with its content checksum.
    pub fn new(chunk_id: String, data: Vec<u8>) -> (c: Chunk)
        ensures
            c.chunk_id == chunk_id,
            c.data == data,
            c.checksum@ == spec_checksum(data@),
    {
        let checksum = calculate_checksum(data.as_slice());
        Chunk { chunk_id, data, checksum }
    }

    /// Whether the stored checksum still matches the stored bytes.
    pub fn verify_checksum(&self) -> (r: bool)
        ensures
            r == (self.checksum@ == spec_checksum(self.data@)),
    {
        checksum_matches(self.data.as_slice(), self.checksum.as_str())
    }
}

} // verus!
