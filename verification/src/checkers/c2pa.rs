//! The signature-attestation checker.
//!
//! The evidence is an object with three members, each a string of hex digits:
//! `public_key` (32 bytes), `message` (any length) and `signature` (64
//! bytes). The check passes when the signature is a strictly valid Ed25519
//! signature of the message under the key.

use vstd::prelude::*;
use vstd::utf8::encode_utf8;
use crate::compliance::{ComplianceResult, ComplianceSpec};
use crate::hex_codec::{decode, decoded, is_hex};
use crate::signature::{
    ed25519_point_decodes, ed25519_strict_accepts, point_decodes, scalar_is_canonical,
    strict_accepts,
};
use crate::value::Value;

verus! {

/// A public key, a signature and the signed message, as raw bytes.
#[derive(Debug, Clone, PartialEq, Eq)]
pub struct SignatureTriple {
    pub public_key: [u8; 32],
    pub signature: [u8; 64],
    pub message: Vec<u8>,
}

/// The bytes that the member `name` of `data` spells in hex, where `data` is
/// an object, the member is a string, and the string is hex text.
pub open spec fn hex_member(data: Value, name: Seq<char>) -> Option<Seq<u8>> {
    match data.member(name) {
        Some(Value::String(text)) => if is_hex(encode_utf8(text@)) {
            Some(decoded(encode_utf8(text@)))
        } else {
            None
        },
        _ => None,
    }
}

/// The evidence holds a triple: all three members are there and
/// decode, the key to 32 bytes and the signature to 64.
pub open spec fn holds_triple(data: Value) -> bool {
    &&& hex_member(data, "public_key"@) matches Some(key)
    &&& hex_member(data, "message"@) is Some
    &&& hex_member(data, "signature"@) matches Some(signature)
    &&& key.len() == 32
    &&& signature.len() == 64
}

/// The evidence passes: it holds a triple whose key is a point of
/// the curve and whose signature strict verification accepts.
pub open spec fn passes(data: Value) -> bool {
    &&& holds_triple(data)
    &&& ed25519_point_decodes(hex_member(data, "public_key"@).unwrap())
    &&& ed25519_strict_accepts(
        hex_member(data, "public_key"@).unwrap(),
        hex_member(data, "message"@).unwrap(),
        hex_member(data, "signature"@).unwrap(),
    )
}

/// Copies a slice of `N` bytes into an array.
fn to_array<const N: usize>(bytes: &[u8]) -> (out: [u8; N])
    requires
        bytes.len() == N,
    ensures
        out@ == bytes@,
{
    let mut out: [u8; N] = [0u8; N];
    let mut i: usize = 0;
    while i < N
        invariant
            bytes.len() == N,
            i <= N,
            forall|j: int| 0 <= j < i ==> out@[j] == bytes@[j],
        decreases N - i,
    {
        out[i] = bytes[i];
        i += 1;
    }
    assert(out@ =~= bytes@);
    out
}

/// Reads one member of the evidence as hex text.
fn read_hex_member(data: &Value, name: &str) -> (r: Option<Vec<u8>>)
    ensures
        match r {
            Some(bytes) => hex_member(*data, name@) == Some(bytes@),
            None => hex_member(*data, name@) is None,
        },
{
    let text = match data.get(name) {
        Some(member) => match member.as_str() {
            Some(text) => text,
            None => { return None; },
        },
        None => { return None; },
    };
    match decode(text) {
        Ok(bytes) => Some(bytes),
        Err(_) => None,
    }
}

/// Reads the triple out of the evidence.
///
/// Gives the triple exactly when the evidence holds one; a missing
/// member, one that is no string, text that is no hex, a key that is not 32
/// bytes or a signature that is not 64 all give `None`.
pub fn decode_triple(system_data: &Value) -> (r: Option<SignatureTriple>)
    ensures
        r is Some <==> holds_triple(*system_data),
        r matches Some(triple) ==> {
            &&& hex_member(*system_data, "public_key"@) == Some(triple.public_key@)
            &&& hex_member(*system_data, "message"@) == Some(triple.message@)
            &&& hex_member(*system_data, "signature"@) == Some(triple.signature@)
        },
{
    let public_key = match read_hex_member(system_data, "public_key") {
        Some(bytes) => bytes,
        None => { return None; },
    };
    let message = match read_hex_member(system_data, "message") {
        Some(bytes) => bytes,
        None => { return None; },
    };
    let signature = match read_hex_member(system_data, "signature") {
        Some(bytes) => bytes,
        None => { return None; },
    };
    if public_key.len() != 32 {
        return None;
    }
    if signature.len() != 64 {
        return None;
    }
    Some(
        SignatureTriple {
            public_key: to_array::<32>(public_key.as_slice()),
            signature: to_array::<64>(signature.as_slice()),
            message,
        },
    )
}

/// Checks the signature that the evidence carries.
///
/// The result is `Pass` exactly when the evidence passes, and `Fail` for
/// everything else, with nothing said of the reason. The result depends on
/// the evidence alone: the spec is not read, and the same evidence gives the
/// same result every time. Evidence that holds no triple, whatever bytes it
/// holds, fails. A signature whose scalar half is not reduced never
/// passes.
pub fn check(spec: &ComplianceSpec, system_data: &Value) -> (r: ComplianceResult)
    ensures
        r == if passes(*system_data) { ComplianceResult::Pass } else { ComplianceResult::Fail },
        !holds_triple(*system_data) ==> r == ComplianceResult::Fail,
        r == ComplianceResult::Pass ==> scalar_is_canonical(
            hex_member(*system_data, "signature"@).unwrap(),
        ),
{
    let triple = match decode_triple(system_data) {
        Some(triple) => triple,
        None => {
            return ComplianceResult::Fail;
        },
    };
    if !point_decodes(&triple.public_key) {
        return ComplianceResult::Fail;
    }
    ComplianceResult::from_accepted(
        strict_accepts(&triple.public_key, triple.message.as_slice(), &triple.signature),
    )
}

} // verus!
