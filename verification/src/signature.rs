//! Ed25519 signatures.
//!
//! Verification is done by `ed25519-dalek`, key derivation and signing by
//! `ed25519-compact`. What those crates compute is not spelled out here: each
//! result has a name, and the contracts of this library speak of the names.
//! Each call stands in a function of its own, so that each contract can be
//! held against one function of the crate it calls.

use vstd::prelude::*;

verus! {

/// Whether `VerifyingKey::from_bytes` of `ed25519-dalek` accepts the 32 bytes
/// `key`, that is, whether they decompress to a point of the curve.
pub uninterp spec fn ed25519_point_decodes(key: Seq<u8>) -> bool;

/// Whether `VerifyingKey::verify_strict` of `ed25519-dalek`, on the key that
/// the 32 bytes `key` decode to, accepts the 64 bytes `signature` for
/// `message`.
pub uninterp spec fn ed25519_strict_accepts(key: Seq<u8>, message: Seq<u8>, signature: Seq<u8>) -> bool;

/// The 32-byte public key that `KeyPair::from_seed` of `ed25519-compact`
/// derives from the 32 bytes `seed`.
pub uninterp spec fn ed25519_public_key(seed: Seq<u8>) -> Seq<u8>;

/// The 64-byte signature that `SecretKey::sign` of `ed25519-compact` gives for
/// `message`, without noise, under the 64 bytes `secret_key`.
pub uninterp spec fn ed25519_signature(secret_key: Seq<u8>, message: Seq<u8>) -> Seq<u8>;

/// The secret key that goes with a seed: the seed, and behind it the public
/// key derived from it.
pub open spec fn ed25519_secret_key(seed: Seq<u8>) -> Seq<u8> {
    seed + ed25519_public_key(seed)
}

/// The number that `bytes` spell, least significant byte first.
pub open spec fn little_endian(bytes: Seq<u8>) -> nat
    decreases bytes.len(),
{
    if bytes.len() == 0 {
        0
    } else {
        bytes[0] as nat + 256 * little_endian(bytes.drop_first())
    }
}

/// The order of the Ed25519 base point: 2^252 +
/// 27742317777372353535851937790883648493.
pub open spec fn group_order() -> nat {
    0x1000000000000000000000000000000014def9dea2f79cd65812631a5cf5d3ednat
}

/// The scalar half of a signature, its last 32 bytes, is reduced: as a
/// little-endian number it lies below the group order.
pub open spec fn scalar_is_canonical(signature: Seq<u8>) -> bool {
    little_endian(signature.subrange(32, 64)) < group_order()
}

/// Some byte of `seed` is not zero.
pub open spec fn seed_is_usable(seed: Seq<u8>) -> bool {
    exists|i: int| 0 <= i < seed.len() && seed[i] != 0
}

/// Calls `VerifyingKey::from_bytes` of `ed25519-dalek` and says whether it
/// gave a key.
#[verifier::external_body]
pub(crate) fn point_decodes(key: &[u8; 32]) -> (ok: bool)
    ensures
        ok == ed25519_point_decodes(key@),
{
    ::ed25519_dalek::VerifyingKey::from_bytes(key).is_ok()
}

/// Calls `VerifyingKey::verify_strict` of `ed25519-dalek` and says whether it
/// accepted. The key and the signature go in as that crate's own types, made
/// from the bytes by `VerifyingKey::from_bytes`, which `requires` asks to
/// succeed, and by `Signature::from_bytes`. As the crate's source shows,
/// strict verification accepts no signature whose scalar half is not
/// reduced.
#[verifier::external_body]
pub(crate) fn strict_accepts(key: &[u8; 32], message: &[u8], signature: &[u8; 64]) -> (ok: bool)
    requires
        ed25519_point_decodes(key@),
    ensures
        ok == ed25519_strict_accepts(key@, message@, signature@),
        ok ==> scalar_is_canonical(signature@),
{
    match ::ed25519_dalek::VerifyingKey::from_bytes(key) {
        Ok(point) => point.verify_strict(
            message,
            &::ed25519_dalek::Signature::from_bytes(signature),
        ).is_ok(),
        Err(_) => false,
    }
}

/// Calls `KeyPair::from_seed` of `ed25519-compact` and hands out the two
/// halves of the pair. The secret half is, as the crate's source shows, the
/// seed with the public half behind it. `from_seed` panics on a seed of
/// zeros, which `requires` leaves out.
#[verifier::external_body]
pub(crate) fn key_pair_from_seed(seed: &[u8; 32]) -> (pair: ([u8; 32], [u8; 64]))
    requires
        seed_is_usable(seed@),
    ensures
        pair.0@ == ed25519_public_key(seed@),
        pair.1@ == ed25519_secret_key(seed@),
{
    let pair = ::ed25519_compact::KeyPair::from_seed(::ed25519_compact::Seed::new(*seed));
    (*pair.pk, *pair.sk)
}

/// Calls `SecretKey::sign` of `ed25519-compact`, without noise, on the secret
/// key made of the bytes by `SecretKey::new`. Without noise the signature
/// depends on secret key and message alone.
#[verifier::external_body]
pub(crate) fn sign(secret_key: &[u8; 64], message: &[u8]) -> (signature: [u8; 64])
    ensures
        signature@ == ed25519_signature(secret_key@, message@),
{
    *::ed25519_compact::SecretKey::new(*secret_key).sign(message, None)
}

} // verus!
