//! SHA-256, as the `sha2` crate computes it.

use vstd::prelude::*;
use crate::canonical::{canonical, canonicalize, encodable, within_depth, EncodeError, MAX_DEPTH};
use crate::hex_codec::{encode, encoded};
use crate::value::Value;

verus! {

/// The SHA-256 digest of `data`: what `Sha256::digest` of `sha2` returns for
/// it.
pub uninterp spec fn sha256(data: Seq<u8>) -> Seq<u8>;

/// Calls `Sha256::digest` of `sha2`. The digest is a function of the data
/// alone, and has 32 bytes.
#[verifier::external_body]
fn sha256_digest(data: &[u8]) -> (digest: Vec<u8>)
    ensures
        digest@ == sha256(data@),
        digest@.len() == 32,
{
    <::sha2::Sha256 as ::sha2::Digest>::digest(data).to_vec()
}

/// The fingerprint of a byte string: its SHA-256 digest in lower-case hex.
pub open spec fn fingerprint_of(data: Seq<u8>) -> Seq<char> {
    encoded(sha256(data))
}

/// Computes the fingerprint of a byte string: 64 hex digits.
pub fn fingerprint(data: &[u8]) -> (text: String)
    ensures
        text@ == fingerprint_of(data@),
        text@.len() == 64,
{
    let digest = sha256_digest(data);
    encode(digest.as_slice())
}

/// Computes the fingerprint of evidence: that of its canonical form. Evidence
/// without a canonical form has none.
pub fn fingerprint_value(v: &Value) -> (r: Result<String, EncodeError>)
    ensures
        r is Ok <==> encodable(*v),
        r matches Ok(text) ==> text@ == fingerprint_of(canonical(*v)),
        r matches Err(e) ==> e == if within_depth(*v, MAX_DEPTH as nat) {
            EncodeError::InvalidNumber
        } else {
            EncodeError::TooDeep
        },
{
    match canonicalize(v) {
        Ok(bytes) => Ok(fingerprint(bytes.as_slice())),
        Err(e) => Err(e),
    }
}

} // verus!
