//! Signature material of a C2PA manifest, in the text form that the
//! signature-attestation checker reads.

use vstd::prelude::*;
use vstd::utf8::*;
use crate::checkers::c2pa::{hex_member, holds_triple, passes};
use crate::hex_codec::{encode, encoded, lemma_decode_encode};
use crate::signature::{
    ed25519_point_decodes, ed25519_public_key, ed25519_secret_key, ed25519_signature,
    ed25519_strict_accepts, key_pair_from_seed, seed_is_usable, sign,
};
use crate::text::append;
use crate::value::{lookup, Value};

verus! {

/// A public key, a signature and the signed message, each as hex text.
#[derive(Debug, Clone)]
pub struct C2paSignatureData {
    /// The Ed25519 public key: 32 bytes in hex.
    pub public_key: String,
    /// The Ed25519 signature: 64 bytes in hex.
    pub signature: String,
    /// The signed claim data in hex.
    pub message: String,
}

/// Why signature material could not be had.
#[derive(Debug, Clone, Copy, PartialEq, Eq, Structural)]
pub enum C2paError {
    /// Reading a manifest is not among the things this library does.
    ManifestParsingUnsupported,
}

impl C2paError {
    /// The error in words.
    pub fn message(&self) -> (text: String)
        ensures
            text@ == "C2PA manifest parsing not yet implemented. Use create_mock_c2pa_signature_data() for testing."@,
    {
        "C2PA manifest parsing not yet implemented. Use create_mock_c2pa_signature_data() for testing.".to_owned()
    }
}

/// The seed of the key pair that signs the mock data.
pub open spec fn mock_seed() -> Seq<u8> {
    encode_utf8("c2pa-test-seed-for-mock-data-123"@)
}

/// One line of the mock claim.
pub open spec fn mock_line() -> Seq<u8> {
    encode_utf8(
        "C2PA mock claim data: This is a test message for C2PA signature verification in zkVM. "@,
    )
}

/// `count` copies of `unit`, one after the other.
pub open spec fn repeated(unit: Seq<u8>, count: nat) -> Seq<u8>
    decreases count,
{
    if count == 0 {
        Seq::empty()
    } else {
        repeated(unit, (count - 1) as nat) + unit
    }
}

/// As many copies are as long as one, taken as many times.
pub proof fn lemma_repeated_len(unit: Seq<u8>, count: nat)
    ensures
        repeated(unit, count).len() == count * unit.len(),
    decreases count,
{
    let n = unit.len() as int;
    let c = count as int;
    if count == 0 {
        assert(0 * n == 0) by (nonlinear_arith);
    } else {
        lemma_repeated_len(unit, (count - 1) as nat);
        assert(c * n == (c - 1) * n + n) by (nonlinear_arith);
    }
}

/// The mock claim: thirty copies of the line, about two kilobytes, the size of
/// a real manifest's claim.
pub open spec fn mock_message() -> Seq<u8> {
    repeated(mock_line(), 30)
}

impl C2paSignatureData {
    /// Puts raw signature material into text form.
    pub fn from_raw(public_key: &[u8], signature: &[u8], message: &[u8]) -> (data: C2paSignatureData)
        ensures
            data.public_key@ == encoded(public_key@),
            data.signature@ == encoded(signature@),
            data.message@ == encoded(message@),
    {
        C2paSignatureData {
            public_key: encode(public_key),
            signature: encode(signature),
            message: encode(message),
        }
    }
}

/// Reads the signature material out of a manifest file.
///
/// Manifests are not read by this library: every path is answered with
/// `ManifestParsingUnsupported`.
pub fn parse_c2pa_manifest(_manifest_path: &str) -> (r: Result<C2paSignatureData, C2paError>)
    ensures
        r matches Err(e) && e == C2paError::ManifestParsingUnsupported,
{
    Err(C2paError::ManifestParsingUnsupported)
}

/// The seed as an array.
fn mock_seed_bytes() -> (seed: [u8; 32])
    ensures
        seed@ == mock_seed(),
        seed_is_usable(seed@),
{
    let text = "c2pa-test-seed-for-mock-data-123";
    let bytes = text.as_bytes();
    proof {
        reveal_strlit("c2pa-test-seed-for-mock-data-123");
        assert(is_ascii_chars(text@));
        is_ascii_chars_encode_utf8(text@);
        assert(text@[0] == 'c');
        assert(bytes@[0] == text@[0] as u8);
    }
    let mut seed: [u8; 32] = [0u8; 32];
    let mut i: usize = 0;
    while i < 32
        invariant
            bytes@.len() == 32,
            i <= 32,
            forall|j: int| 0 <= j < i ==> seed@[j] == bytes@[j],
        decreases 32 - i,
    {
        seed[i] = bytes[i];
        i += 1;
    }
    assert(seed@ =~= bytes@);
    assert(seed@[0] != 0);
    seed
}

/// Signature material for tests, in the form that a manifest would give it:
/// the public key of the key pair derived from the fixed seed, the mock
/// claim, and the signature of the claim under that pair's secret key. The
/// key is 64 hex digits, the signature 128, the claim 5160.
pub fn create_mock_c2pa_signature_data() -> (r: Result<C2paSignatureData, C2paError>)
    ensures
        r matches Ok(data) && {
            &&& data.public_key@ == encoded(ed25519_public_key(mock_seed()))
            &&& data.message@ == encoded(mock_message())
            &&& data.signature@ == encoded(
                ed25519_signature(ed25519_secret_key(mock_seed()), mock_message()),
            )
            &&& data.public_key@.len() == 64
            &&& data.signature@.len() == 128
            &&& data.message@.len() == 5160
        },
{
    let seed = mock_seed_bytes();
    let line = "C2PA mock claim data: This is a test message for C2PA signature verification in zkVM. ".as_bytes();
    let mut message: Vec<u8> = Vec::new();
    let mut count: usize = 0;
    while count < 30
        invariant
            count <= 30,
            line@ == mock_line(),
            message@ == repeated(mock_line(), count as nat),
        decreases 30 - count,
    {
        append(&mut message, line);
        count += 1;
    }
    proof {
        reveal_strlit(
            "C2PA mock claim data: This is a test message for C2PA signature verification in zkVM. ",
        );
        let text =
            "C2PA mock claim data: This is a test message for C2PA signature verification in zkVM. "@;
        assert(text.len() == 86);
        assert(is_ascii_chars(text));
        is_ascii_chars_encode_utf8(text);
        lemma_repeated_len(mock_line(), 30);
    }
    let (public_key, secret_key) = key_pair_from_seed(&seed);
    let signature = sign(&secret_key, message.as_slice());
    Ok(C2paSignatureData::from_raw(&public_key, &signature, message.as_slice()))
}

/// `json` is the evidence object of `data`: the members `public_key`,
/// `message` and `signature`, in that order, each the string that `data`
/// holds under that name.
pub open spec fn evidence_of(json: Value, data: C2paSignatureData) -> bool {
    json matches Value::Object(members) && {
        &&& members@.len() == 3
        &&& members@[0].0@ == "public_key"@
        &&& members@[0].1 == Value::String(data.public_key)
        &&& members@[1].0@ == "message"@
        &&& members@[1].1 == Value::String(data.message)
        &&& members@[2].0@ == "signature"@
        &&& members@[2].1 == Value::String(data.signature)
    }
}

/// The evidence object that the signature-attestation checker reads.
pub fn c2pa_data_to_json(data: &C2paSignatureData) -> (json: Value)
    ensures
        evidence_of(json, *data),
{
    let mut members: Vec<(String, Value)> = Vec::new();
    members.push(("public_key".to_owned(), Value::String(data.public_key.clone())));
    members.push(("message".to_owned(), Value::String(data.message.clone())));
    members.push(("signature".to_owned(), Value::String(data.signature.clone())));
    Value::Object(members)
}

/// Nothing is lost between the raw triple and the evidence: the checker
/// reads back from the evidence object the bytes that were put into text
/// form, and so the evidence passes exactly when the key has 32 bytes, the
/// signature 64, and strict verification accepts the raw triple.
pub proof fn lemma_evidence_round_trip(
    json: Value,
    data: C2paSignatureData,
    public_key: Seq<u8>,
    signature: Seq<u8>,
    message: Seq<u8>,
)
    requires
        evidence_of(json, data),
        data.public_key@ == encoded(public_key),
        data.signature@ == encoded(signature),
        data.message@ == encoded(message),
    ensures
        hex_member(json, "public_key"@) == Some(public_key),
        hex_member(json, "signature"@) == Some(signature),
        hex_member(json, "message"@) == Some(message),
        holds_triple(json) <==> public_key.len() == 32 && signature.len() == 64,
        passes(json) <==> {
            &&& public_key.len() == 32
            &&& signature.len() == 64
            &&& ed25519_point_decodes(public_key)
            &&& ed25519_strict_accepts(public_key, message, signature)
        },
{
    reveal_strlit("public_key");
    reveal_strlit("message");
    reveal_strlit("signature");
    assert("public_key"@.len() == 10);
    assert("message"@.len() == 7);
    assert("signature"@.len() == 9);
    let members = json->Object_0@;
    assert(members.last() == members[2]);
    assert(members.drop_last().last() == members[1]);
    assert(members.drop_last().drop_last().last() == members[0]);
    assert(lookup(members, "signature"@) == Some(members[2].1));
    assert(lookup(members.drop_last(), "message"@) == Some(members[1].1));
    assert(lookup(members, "message"@) == Some(members[1].1));
    assert(lookup(members.drop_last().drop_last(), "public_key"@) == Some(members[0].1));
    assert(lookup(members.drop_last(), "public_key"@) == Some(members[0].1));
    assert(lookup(members, "public_key"@) == Some(members[0].1));
    lemma_decode_encode(public_key);
    lemma_decode_encode(signature);
    lemma_decode_encode(message);
}

/// A signature made with the secret key of a seed passes under the public
/// key of that seed, given what this library cannot know of the two crates
/// that sign and verify: that the key and the signature made by the one have
/// 32 and 64 bytes, and that strict verification by the other accepts them.
pub proof fn lemma_signed_evidence_passes(
    json: Value,
    data: C2paSignatureData,
    seed: Seq<u8>,
    message: Seq<u8>,
)
    requires
        evidence_of(json, data),
        data.public_key@ == encoded(ed25519_public_key(seed)),
        data.message@ == encoded(message),
        data.signature@ == encoded(ed25519_signature(ed25519_secret_key(seed), message)),
        ed25519_public_key(seed).len() == 32,
        ed25519_signature(ed25519_secret_key(seed), message).len() == 64,
        ed25519_point_decodes(ed25519_public_key(seed)),
        ed25519_strict_accepts(
            ed25519_public_key(seed),
            message,
            ed25519_signature(ed25519_secret_key(seed), message),
        ),
    ensures
        passes(json),
{
    lemma_evidence_round_trip(
        json,
        data,
        ed25519_public_key(seed),
        ed25519_signature(ed25519_secret_key(seed), message),
        message,
    );
}

} // verus!
