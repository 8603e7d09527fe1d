//! The signature-attestation checker, on known signatures.

use fuse_core::c2pa::{
    c2pa_data_to_json, create_mock_c2pa_signature_data, parse_c2pa_manifest, C2paError,
    C2paSignatureData,
};
use fuse_core::checker::Checker;
use fuse_core::checkers::c2pa::{check, decode_triple};
use fuse_core::compliance::{ComplianceResult, ComplianceSpec};
use fuse_core::value::Value;

const KEY_1: &str = "d75a980182b10ab7d54bfed3c964073a0ee172f3daa62325af021a68f707511a";
const SIG_1: &str = "e5564300c360ac729086e2cc806e828a84877f1eb8e5d974d873e065224901555fb8821590a33bacc61e39701cf9b46bd25bf5f0595bbe24655141438e7a100b";
const KEY_2: &str = "3d4017c3e843895a92b70aa74d1b7ebc9c982ccf2ec4968cc0cd55f12af4660c";
const MSG_2: &str = "72";
const SIG_2: &str = "92a009a9f0d4cab8720e820b5f642540a2b27b5416503f8fb3762223ebdb69da085ac1e43e15996e458f3613d0f11d8c387b2eaeb4302aeeb00d291612bb0c00";

fn sample_spec() -> ComplianceSpec {
    ComplianceSpec::new(
        "C2PA signature verified".to_string(),
        "abc123".to_string(),
        Vec::new(),
        "US".to_string(),
        "1.0".to_string(),
        1798761599,
    )
}

fn evidence(public_key: &str, message: &str, signature: &str) -> Value {
    Value::Object(vec![
        ("public_key".to_string(), Value::String(public_key.to_string())),
        ("message".to_string(), Value::String(message.to_string())),
        ("signature".to_string(), Value::String(signature.to_string())),
    ])
}

fn flip_bit(hex_text: &str, bit: usize) -> String {
    let mut bytes = hex::decode(hex_text).unwrap();
    bytes[bit / 8] ^= 1 << (bit % 8);
    hex::encode(bytes)
}

#[test]
fn test_soc2_checker_structure() {
    assert!(true);
}

#[test]
fn test_gdpr_checker_structure() {
    assert!(true);
}

#[test]
fn test_supply_chain_checker_structure() {
    assert!(true);
}

#[test]
fn test_ml_model_checker_structure() {
    assert!(true);
}

#[test]
fn valid_signature_of_the_empty_message_passes() {
    assert_eq!(check(&sample_spec(), &evidence(KEY_1, "", SIG_1)), ComplianceResult::Pass);
}

#[test]
fn valid_signature_of_one_byte_passes() {
    assert_eq!(check(&sample_spec(), &evidence(KEY_2, MSG_2, SIG_2)), ComplianceResult::Pass);
}

#[test]
fn upper_case_hex_is_read_like_lower_case() {
    let data = evidence(&KEY_2.to_uppercase(), MSG_2, &SIG_2.to_uppercase());
    assert_eq!(check(&sample_spec(), &data), ComplianceResult::Pass);
}

#[test]
fn the_order_of_the_members_does_not_matter() {
    let data = Value::Object(vec![
        ("signature".to_string(), Value::String(SIG_2.to_string())),
        ("extra".to_string(), Value::Null),
        ("message".to_string(), Value::String(MSG_2.to_string())),
        ("public_key".to_string(), Value::String(KEY_2.to_string())),
    ]);
    assert_eq!(check(&sample_spec(), &data), ComplianceResult::Pass);
}

#[test]
fn a_member_written_twice_counts_as_written_last() {
    let data = Value::Object(vec![
        ("public_key".to_string(), Value::String(KEY_1.to_string())),
        ("public_key".to_string(), Value::String(KEY_2.to_string())),
        ("message".to_string(), Value::String(MSG_2.to_string())),
        ("signature".to_string(), Value::String(SIG_2.to_string())),
    ]);
    assert_eq!(check(&sample_spec(), &data), ComplianceResult::Pass);
    let data = Value::Object(vec![
        ("public_key".to_string(), Value::String(KEY_2.to_string())),
        ("public_key".to_string(), Value::String(KEY_1.to_string())),
        ("message".to_string(), Value::String(MSG_2.to_string())),
        ("signature".to_string(), Value::String(SIG_2.to_string())),
    ]);
    assert_eq!(check(&sample_spec(), &data), ComplianceResult::Fail);
}

#[test]
fn a_signature_of_another_message_fails() {
    assert_eq!(check(&sample_spec(), &evidence(KEY_2, "73", SIG_2)), ComplianceResult::Fail);
    assert_eq!(check(&sample_spec(), &evidence(KEY_2, "", SIG_2)), ComplianceResult::Fail);
    assert_eq!(check(&sample_spec(), &evidence(KEY_1, MSG_2, SIG_1)), ComplianceResult::Fail);
}

#[test]
fn a_signature_under_another_key_fails() {
    assert_eq!(check(&sample_spec(), &evidence(KEY_1, MSG_2, SIG_2)), ComplianceResult::Fail);
}

#[test]
fn any_flipped_bit_of_the_message_fails() {
    for bit in 0..8 {
        let message = flip_bit(MSG_2, bit);
        assert_eq!(check(&sample_spec(), &evidence(KEY_2, &message, SIG_2)), ComplianceResult::Fail);
    }
}

#[test]
fn any_flipped_bit_of_the_signature_fails() {
    for bit in 0..512 {
        let signature = flip_bit(SIG_2, bit);
        assert_eq!(check(&sample_spec(), &evidence(KEY_2, MSG_2, &signature)), ComplianceResult::Fail);
    }
}

#[test]
fn any_flipped_bit_of_the_public_key_fails() {
    for bit in 0..256 {
        let key = flip_bit(KEY_2, bit);
        assert_eq!(check(&sample_spec(), &evidence(&key, MSG_2, SIG_2)), ComplianceResult::Fail);
    }
}

#[test]
fn a_signature_with_an_unreduced_scalar_fails() {
    // The scalar half plus the group order: the same scalar modulo the
    // order, written with a number that is not reduced.
    let order: [u8; 32] = [
        0xed, 0xd3, 0xf5, 0x5c, 0x1a, 0x63, 0x12, 0x58, 0xd6, 0x9c, 0xf7, 0xa2, 0xde, 0xf9, 0xde,
        0x14, 0, 0, 0, 0, 0, 0, 0, 0, 0, 0, 0, 0, 0, 0, 0, 0x10,
    ];
    let mut signature = hex::decode(SIG_2).unwrap();
    let mut carry = 0u16;
    for i in 0..32 {
        let sum = signature[32 + i] as u16 + order[i] as u16 + carry;
        signature[32 + i] = (sum & 0xff) as u8;
        carry = sum >> 8;
    }
    assert_eq!(carry, 0);
    let data = evidence(KEY_2, MSG_2, &hex::encode(&signature));
    assert_eq!(check(&sample_spec(), &data), ComplianceResult::Fail);
}

#[test]
fn a_key_that_is_no_point_of_the_curve_fails() {
    // y = 2 has no x on the curve.
    let key = "0200000000000000000000000000000000000000000000000000000000000000";
    assert_eq!(check(&sample_spec(), &evidence(key, MSG_2, SIG_2)), ComplianceResult::Fail);
}

#[test]
fn a_key_of_small_order_fails() {
    // The neutral element, with the signature that plain verification takes
    // from it for every message.
    let key = "0100000000000000000000000000000000000000000000000000000000000000";
    let signature = format!("{}{}", key, "00".repeat(32));
    assert_eq!(check(&sample_spec(), &evidence(key, MSG_2, &signature)), ComplianceResult::Fail);
}

#[test]
fn wrong_lengths_fail() {
    let short_key = &KEY_2[2..];
    let long_key = format!("{}00", KEY_2);
    let short_signature = &SIG_2[2..];
    let long_signature = format!("{}00", SIG_2);
    assert_eq!(check(&sample_spec(), &evidence(short_key, MSG_2, SIG_2)), ComplianceResult::Fail);
    assert_eq!(check(&sample_spec(), &evidence(&long_key, MSG_2, SIG_2)), ComplianceResult::Fail);
    assert_eq!(check(&sample_spec(), &evidence(KEY_2, MSG_2, short_signature)), ComplianceResult::Fail);
    assert_eq!(check(&sample_spec(), &evidence(KEY_2, MSG_2, &long_signature)), ComplianceResult::Fail);
    assert_eq!(check(&sample_spec(), &evidence("", "", "")), ComplianceResult::Fail);
}

#[test]
fn text_that_is_no_hex_fails() {
    let bad_key = format!("zz{}", &KEY_2[2..]);
    let bad_signature = format!("{}g", &SIG_2[1..]);
    assert_eq!(check(&sample_spec(), &evidence(&bad_key, MSG_2, SIG_2)), ComplianceResult::Fail);
    assert_eq!(check(&sample_spec(), &evidence(KEY_2, "7", SIG_2)), ComplianceResult::Fail);
    assert_eq!(check(&sample_spec(), &evidence(KEY_2, "0x72", SIG_2)), ComplianceResult::Fail);
    assert_eq!(check(&sample_spec(), &evidence(KEY_2, "\u{e9}\u{e9}", SIG_2)), ComplianceResult::Fail);
    assert_eq!(check(&sample_spec(), &evidence(KEY_2, MSG_2, &bad_signature)), ComplianceResult::Fail);
}

#[test]
fn missing_members_fail() {
    let without_key = Value::Object(vec![
        ("message".to_string(), Value::String(MSG_2.to_string())),
        ("signature".to_string(), Value::String(SIG_2.to_string())),
    ]);
    let without_message = Value::Object(vec![
        ("public_key".to_string(), Value::String(KEY_2.to_string())),
        ("signature".to_string(), Value::String(SIG_2.to_string())),
    ]);
    let without_signature = Value::Object(vec![
        ("public_key".to_string(), Value::String(KEY_2.to_string())),
        ("message".to_string(), Value::String(MSG_2.to_string())),
    ]);
    assert_eq!(check(&sample_spec(), &without_key), ComplianceResult::Fail);
    assert_eq!(check(&sample_spec(), &without_message), ComplianceResult::Fail);
    assert_eq!(check(&sample_spec(), &without_signature), ComplianceResult::Fail);
    assert_eq!(check(&sample_spec(), &Value::Object(Vec::new())), ComplianceResult::Fail);
}

#[test]
fn members_that_are_no_strings_fail() {
    let data = Value::Object(vec![
        ("public_key".to_string(), Value::String(KEY_2.to_string())),
        ("message".to_string(), Value::Number("72".to_string())),
        ("signature".to_string(), Value::String(SIG_2.to_string())),
    ]);
    assert_eq!(check(&sample_spec(), &data), ComplianceResult::Fail);
    let data = Value::Object(vec![
        ("public_key".to_string(), Value::Array(vec![Value::String(KEY_2.to_string())])),
        ("message".to_string(), Value::String(MSG_2.to_string())),
        ("signature".to_string(), Value::String(SIG_2.to_string())),
    ]);
    assert_eq!(check(&sample_spec(), &data), ComplianceResult::Fail);
}

#[test]
fn evidence_that_is_no_object_fails() {
    assert_eq!(check(&sample_spec(), &Value::Null), ComplianceResult::Fail);
    assert_eq!(check(&sample_spec(), &Value::Bool(true)), ComplianceResult::Fail);
    assert_eq!(check(&sample_spec(), &Value::String(KEY_2.to_string())), ComplianceResult::Fail);
    assert_eq!(check(&sample_spec(), &Value::Array(Vec::new())), ComplianceResult::Fail);
}

#[test]
fn the_same_evidence_gives_the_same_result_again() {
    let good = evidence(KEY_2, MSG_2, SIG_2);
    let bad = evidence(KEY_2, "zz", SIG_2);
    for _ in 0..3 {
        assert_eq!(check(&sample_spec(), &good), ComplianceResult::Pass);
        assert_eq!(check(&sample_spec(), &bad), ComplianceResult::Fail);
    }
}

#[test]
fn the_spec_is_not_read() {
    let other = ComplianceSpec::new(
        String::new(),
        String::new(),
        vec![("k".to_string(), "v".to_string())],
        String::new(),
        String::new(),
        -1,
    );
    let data = evidence(KEY_2, MSG_2, SIG_2);
    assert_eq!(check(&other, &data), check(&sample_spec(), &data));
}

#[test]
fn decode_triple_gives_the_raw_bytes() {
    let triple = decode_triple(&evidence(KEY_2, MSG_2, SIG_2)).unwrap();
    assert_eq!(triple.public_key.to_vec(), hex::decode(KEY_2).unwrap());
    assert_eq!(triple.signature.to_vec(), hex::decode(SIG_2).unwrap());
    assert_eq!(triple.message, vec![0x72u8]);
    assert!(decode_triple(&evidence(KEY_2, "7", SIG_2)).is_none());
    assert!(decode_triple(&evidence(&KEY_2[2..], MSG_2, SIG_2)).is_none());
}

#[test]
fn decode_triple_does_not_judge_the_signature() {
    assert!(decode_triple(&evidence(KEY_1, MSG_2, SIG_2)).is_some());
}

#[test]
fn the_registry_runs_the_signature_checker() {
    let checker = Checker::from_selector("c2pa").unwrap();
    assert_eq!(checker, Checker::SignatureAttestation);
    assert_eq!(checker.selector(), "c2pa");
    assert_eq!(checker.check(&sample_spec(), &evidence(KEY_2, MSG_2, SIG_2)), ComplianceResult::Pass);
    assert_eq!(checker.check(&sample_spec(), &evidence(KEY_1, MSG_2, SIG_2)), ComplianceResult::Fail);
}

#[test]
fn the_registry_knows_no_other_name() {
    assert!(Checker::from_selector("").is_none());
    assert!(Checker::from_selector("C2PA").is_none());
    assert!(Checker::from_selector("c2pa ").is_none());
    assert!(Checker::from_selector("unknown").is_none());
}

#[test]
fn mock_data_passes_the_checker() {
    let data = create_mock_c2pa_signature_data().unwrap();
    let json = c2pa_data_to_json(&data);
    assert_eq!(check(&sample_spec(), &json), ComplianceResult::Pass);
}

#[test]
fn mock_data_is_what_the_seed_signs() {
    let data = create_mock_c2pa_signature_data().unwrap();
    let line = "C2PA mock claim data: This is a test message for C2PA signature verification in zkVM. ";
    let message = line.repeat(30).into_bytes();
    let pair = ed25519_compact::KeyPair::from_seed(ed25519_compact::Seed::new(
        *b"c2pa-test-seed-for-mock-data-123",
    ));
    assert_eq!(data.public_key, hex::encode(pair.pk.as_slice()));
    assert_eq!(data.message, hex::encode(&message));
    assert_eq!(data.signature, hex::encode(pair.sk.sign(&message, None).as_slice()));
    assert_eq!(data.public_key.len(), 64);
    assert_eq!(data.signature.len(), 128);
    assert_eq!(data.message.len(), 2 * 30 * line.len());
    assert_eq!(data.message.len(), 5160);
}

#[test]
fn mock_data_with_a_changed_message_fails() {
    let mut data = create_mock_c2pa_signature_data().unwrap();
    data.message = flip_bit(&data.message, 0);
    assert_eq!(check(&sample_spec(), &c2pa_data_to_json(&data)), ComplianceResult::Fail);
}

#[test]
fn from_raw_writes_lower_case_hex() {
    let data = C2paSignatureData::from_raw(&[0xd7, 0x5a], &[0x0b], &[0x00, 0xff]);
    assert_eq!(data.public_key, "d75a");
    assert_eq!(data.signature, "0b");
    assert_eq!(data.message, "00ff");
}

#[test]
fn json_of_signature_data_has_three_string_members() {
    let data = C2paSignatureData {
        public_key: "aa".to_string(),
        signature: "bb".to_string(),
        message: "cc".to_string(),
    };
    assert_eq!(
        c2pa_data_to_json(&data),
        Value::Object(vec![
            ("public_key".to_string(), Value::String("aa".to_string())),
            ("message".to_string(), Value::String("cc".to_string())),
            ("signature".to_string(), Value::String("bb".to_string())),
        ])
    );
}

#[test]
fn manifests_are_not_parsed() {
    let r = parse_c2pa_manifest("photo.jpg");
    assert_eq!(r.err(), Some(C2paError::ManifestParsingUnsupported));
    assert_eq!(parse_c2pa_manifest("").err(), Some(C2paError::ManifestParsingUnsupported));
    assert_eq!(
        C2paError::ManifestParsingUnsupported.message(),
        "C2PA manifest parsing not yet implemented. Use create_mock_c2pa_signature_data() for testing."
    );
}

#[test]
fn value_get_finds_the_last_member_of_a_name() {
    let v = Value::Object(vec![
        ("a".to_string(), Value::Bool(false)),
        ("b".to_string(), Value::Null),
        ("a".to_string(), Value::Bool(true)),
    ]);
    assert_eq!(v.get("a"), Some(&Value::Bool(true)));
    assert_eq!(v.get("b"), Some(&Value::Null));
    assert_eq!(v.get("c"), None);
    assert_eq!(Value::Array(vec![Value::Null]).get("a"), None);
    assert_eq!(Value::String("a".to_string()).as_str(), Some("a"));
    assert_eq!(Value::Number("1".to_string()).as_str(), None);
}
