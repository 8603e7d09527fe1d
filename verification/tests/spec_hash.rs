//! The identity of a spec: its canonical form and its hash.

use fuse_core::compliance::{ComplianceResult, ComplianceSpec};
use fuse_core::canonical::canonicalize;
use fuse_core::digest::fingerprint_value;
use fuse_core::reader::decode;
use fuse_core::value::Value;

fn pairs(list: &[(&str, &str)]) -> Vec<(String, String)> {
    list.iter().map(|(k, v)| (k.to_string(), v.to_string())).collect()
}

fn spec_with(constraints: &[(&str, &str)]) -> ComplianceSpec {
    ComplianceSpec::new(
        "Test claim".to_string(),
        "abc123".to_string(),
        pairs(constraints),
        "US".to_string(),
        "1.0".to_string(),
        1798761599,
    )
}

fn sha256_hex(data: &[u8]) -> String {
    hex::encode(<sha2::Sha256 as sha2::Digest>::digest(data))
}

#[test]
fn canonical_form_of_a_spec_without_constraints() {
    let form = spec_with(&[]).canonical_form();
    assert_eq!(
        String::from_utf8(form).unwrap(),
        "{\"claim\":\"Test claim\",\"constraints\":{},\"expiry\":1798761599,\"jurisdiction\":\"US\",\"system_hash\":\"abc123\",\"version\":\"1.0\"}"
    );
}

#[test]
fn canonical_form_of_a_spec_with_constraints() {
    let spec = ComplianceSpec::new(
        "SOC2 control \"X\" verified".to_string(),
        "test".to_string(),
        pairs(&[("sampling", "last 1000 events"), ("region", "eu\nwest")]),
        "US, SEC".to_string(),
        "1.0".to_string(),
        -5,
    );
    assert_eq!(
        String::from_utf8(spec.canonical_form()).unwrap(),
        "{\"claim\":\"SOC2 control \\\"X\\\" verified\",\"constraints\":{\"region\":\"eu\\nwest\",\"sampling\":\"last 1000 events\"},\"expiry\":-5,\"jurisdiction\":\"US, SEC\",\"system_hash\":\"test\",\"version\":\"1.0\"}"
    );
}

#[test]
fn the_canonical_form_of_a_spec_is_a_canonical_value() {
    let spec = spec_with(&[("b", "2"), ("a", "1")]);
    let read = decode(&spec.canonical_form()).unwrap();
    assert_eq!(read.get("claim"), Some(&Value::String("Test claim".to_string())));
    assert_eq!(read.get("expiry"), Some(&Value::Number("1798761599".to_string())));
    assert_eq!(
        read.get("constraints"),
        Some(&Value::Object(vec![
            ("a".to_string(), Value::String("1".to_string())),
            ("b".to_string(), Value::String("2".to_string())),
        ]))
    );
}

#[test]
fn the_hash_is_the_sha256_of_the_canonical_form() {
    let spec = spec_with(&[("sampling", "last 1000 events")]);
    assert_eq!(spec.hash(), sha256_hex(&spec.canonical_form()));
    assert_eq!(spec.hash().len(), 64);
    assert_eq!(
        spec_with(&[]).hash(),
        sha256_hex(b"{\"claim\":\"Test claim\",\"constraints\":{},\"expiry\":1798761599,\"jurisdiction\":\"US\",\"system_hash\":\"abc123\",\"version\":\"1.0\"}")
    );
}

#[test]
fn the_hash_is_the_same_each_time() {
    let spec = spec_with(&[("a", "1")]);
    assert_eq!(spec.hash(), spec.hash());
    assert_eq!(spec.hash(), spec.clone().hash());
}

#[test]
fn the_hash_ignores_the_order_of_the_constraints() {
    let a = spec_with(&[("a", "1"), ("b", "2"), ("c", "3")]);
    for order in [
        [("a", "1"), ("c", "3"), ("b", "2")],
        [("b", "2"), ("a", "1"), ("c", "3")],
        [("b", "2"), ("c", "3"), ("a", "1")],
        [("c", "3"), ("a", "1"), ("b", "2")],
        [("c", "3"), ("b", "2"), ("a", "1")],
    ] {
        let b = spec_with(&order);
        assert_eq!(a.canonical_form(), b.canonical_form());
        assert_eq!(a.hash(), b.hash());
    }
}

#[test]
fn of_a_constraint_given_twice_the_last_counts() {
    let twice = spec_with(&[("a", "1"), ("b", "2"), ("a", "3")]);
    assert_eq!(twice.hash(), spec_with(&[("a", "3"), ("b", "2")]).hash());
    assert_ne!(twice.hash(), spec_with(&[("a", "1"), ("b", "2")]).hash());
    assert_ne!(
        spec_with(&[("a", "1"), ("a", "2")]).hash(),
        spec_with(&[("a", "2"), ("a", "1")]).hash()
    );
}

#[test]
fn the_hash_changes_with_each_field_of_the_identity() {
    let base = spec_with(&[("a", "1")]);
    let mut changed = Vec::new();
    let mut s = base.clone();
    s.claim = "Test claim.".to_string();
    changed.push(s);
    let mut s = base.clone();
    s.system_hash = "abc124".to_string();
    changed.push(s);
    let mut s = base.clone();
    s.constraints = pairs(&[("a", "2")]);
    changed.push(s);
    let mut s = base.clone();
    s.constraints = pairs(&[("b", "1")]);
    changed.push(s);
    let mut s = base.clone();
    s.constraints = pairs(&[("a", "1"), ("b", "")]);
    changed.push(s);
    let mut s = base.clone();
    s.constraints = Vec::new();
    changed.push(s);
    let mut s = base.clone();
    s.jurisdiction = "EU".to_string();
    changed.push(s);
    let mut s = base.clone();
    s.version = "1.1".to_string();
    changed.push(s);
    let mut s = base.clone();
    s.expiry = base.expiry + 1;
    changed.push(s);
    let mut s = base.clone();
    s.expiry = -base.expiry;
    changed.push(s);
    let mut hashes = vec![base.hash()];
    for s in &changed {
        hashes.push(s.hash());
    }
    for i in 0..hashes.len() {
        for j in 0..i {
            assert_ne!(hashes[i], hashes[j], "{} and {}", i, j);
        }
    }
}

#[test]
fn fields_cannot_be_moved_into_one_another() {
    let a = ComplianceSpec::new("a\",\"x\":\"".to_string(), "b".to_string(), Vec::new(), "".to_string(), "".to_string(), 0);
    let b = ComplianceSpec::new("a".to_string(), "\",\"x\":\"b".to_string(), Vec::new(), "".to_string(), "".to_string(), 0);
    assert_ne!(a.canonical_form(), b.canonical_form());
    let a = spec_with(&[("a", "1\",\"b\":\"2")]);
    let b = spec_with(&[("a", "1"), ("b", "2")]);
    assert_ne!(a.hash(), b.hash());
    let a = ComplianceSpec::new("ab".to_string(), "c".to_string(), Vec::new(), "".to_string(), "".to_string(), 0);
    let b = ComplianceSpec::new("a".to_string(), "bc".to_string(), Vec::new(), "".to_string(), "".to_string(), 0);
    assert_ne!(a.hash(), b.hash());
}

#[test]
fn the_hash_ignores_metadata_and_disclosed_fields() {
    let base = spec_with(&[("a", "1")]);
    let noted = base.clone().with_metadata(pairs(&[("author", "me"), ("claim", "other")]));
    let disclosed = base.clone().with_disclosed_fields(vec!["claim".to_string()]);
    let none_disclosed = base.clone().with_disclosed_fields(Vec::new());
    assert_eq!(noted.metadata, pairs(&[("author", "me"), ("claim", "other")]));
    assert_eq!(disclosed.disclosed_fields, Some(vec!["claim".to_string()]));
    assert_eq!(base.hash(), noted.hash());
    assert_eq!(base.hash(), disclosed.hash());
    assert_eq!(base.hash(), none_disclosed.hash());
    assert_eq!(base.canonical_form(), noted.with_disclosed_fields(Vec::new()).canonical_form());
}

#[test]
fn a_new_spec_has_no_metadata_and_discloses_everything() {
    let spec = spec_with(&[("a", "1")]);
    assert_eq!(spec.claim, "Test claim");
    assert_eq!(spec.system_hash, "abc123");
    assert_eq!(spec.constraints, pairs(&[("a", "1")]));
    assert_eq!(spec.jurisdiction, "US");
    assert_eq!(spec.version, "1.0");
    assert_eq!(spec.expiry, 1798761599);
    assert!(spec.metadata.is_empty());
    assert_eq!(spec.disclosed_fields, None);
}

#[test]
fn a_spec_expires_after_its_last_second() {
    let spec = spec_with(&[]);
    assert!(!spec.is_expired_at(1798761598));
    assert!(!spec.is_expired_at(1798761599));
    assert!(spec.is_expired_at(1798761600));
    assert!(!spec.is_expired_at(i64::MIN));
    assert!(spec.is_expired_at(i64::MAX));
}

#[test]
fn results_from_booleans() {
    assert_eq!(ComplianceResult::from_accepted(true), ComplianceResult::Pass);
    assert_eq!(ComplianceResult::from_accepted(false), ComplianceResult::Fail);
    assert!(ComplianceResult::Pass.is_pass());
    assert!(!ComplianceResult::Fail.is_pass());
}

#[test]
fn the_tree_of_a_spec_has_its_members_in_the_order_of_their_names() {
    let spec = spec_with(&[("b", "2"), ("a", "1")]);
    assert_eq!(
        spec.to_value(),
        Value::Object(vec![
            ("claim".to_string(), Value::String("Test claim".to_string())),
            (
                "constraints".to_string(),
                Value::Object(vec![
                    ("b".to_string(), Value::String("2".to_string())),
                    ("a".to_string(), Value::String("1".to_string())),
                ])
            ),
            ("expiry".to_string(), Value::Number("1798761599".to_string())),
            ("jurisdiction".to_string(), Value::String("US".to_string())),
            ("system_hash".to_string(), Value::String("abc123".to_string())),
            ("version".to_string(), Value::String("1.0".to_string())),
        ])
    );
}

#[test]
fn the_hash_of_a_spec_is_the_fingerprint_of_its_tree() {
    for spec in [spec_with(&[]), spec_with(&[("b", "2"), ("a", "1"), ("b", "3")])] {
        assert_eq!(canonicalize(&spec.to_value()), Ok(spec.canonical_form()));
        assert_eq!(fingerprint_value(&spec.to_value()), Ok(spec.hash()));
    }
    let mut negative = spec_with(&[]);
    negative.expiry = i64::MIN;
    assert_eq!(fingerprint_value(&negative.to_value()), Ok(negative.hash()));
}

#[test]
fn the_identity_of_a_spec_has_sorted_constraints_and_nothing_else_new() {
    let spec = spec_with(&[("b", "2"), ("a", "1"), ("b", "3")])
        .with_metadata(pairs(&[("note", "x")]))
        .with_disclosed_fields(vec!["claim".to_string()]);
    let identity = spec.identity();
    assert_eq!(identity, spec_with(&[("a", "1"), ("b", "3")]));
    assert_eq!(identity.hash(), spec.hash());
    assert_eq!(identity.identity(), identity);
}

#[test]
fn a_spec_is_read_back_from_its_canonical_form() {
    for spec in [
        spec_with(&[]),
        spec_with(&[("b", "2"), ("a", "1"), ("b", "3")]),
        ComplianceSpec::new("\u{e9}\"\n".to_string(), String::new(), pairs(&[("", "")]), "\\".to_string(), "\u{1}".to_string(), i64::MIN),
    ] {
        let read = ComplianceSpec::from_canonical(&spec.canonical_form()).unwrap();
        assert_eq!(read, spec.identity());
        assert_eq!(read.canonical_form(), spec.canonical_form());
        assert_eq!(read.hash(), spec.hash());
    }
}

#[test]
fn a_spec_is_read_from_its_tree_alone() {
    let spec = spec_with(&[("b", "2"), ("a", "1")]);
    assert_eq!(ComplianceSpec::from_value(&spec.to_value()), Some(spec.clone()));
    let members = match spec.to_value() {
        Value::Object(members) => members,
        other => panic!("{:?}", other),
    };
    // One member fewer, one more, two exchanged, one renamed.
    let mut fewer = members.clone();
    fewer.pop();
    assert_eq!(ComplianceSpec::from_value(&Value::Object(fewer)), None);
    let mut more = members.clone();
    more.push(("zone".to_string(), Value::Null));
    assert_eq!(ComplianceSpec::from_value(&Value::Object(more)), None);
    let mut exchanged = members.clone();
    exchanged.swap(0, 1);
    assert_eq!(ComplianceSpec::from_value(&Value::Object(exchanged)), None);
    let mut renamed = members.clone();
    renamed[5].0 = "Version".to_string();
    assert_eq!(ComplianceSpec::from_value(&Value::Object(renamed)), None);
    // A member of another kind.
    for (i, wrong) in [
        (0, Value::Null),
        (1, Value::Array(Vec::new())),
        (1, Value::Object(vec![("a".to_string(), Value::Number("1".to_string()))])),
        (2, Value::String("1798761599".to_string())),
        (2, Value::Number("1.5".to_string())),
        (2, Value::Number("1e3".to_string())),
        (2, Value::Number("-0".to_string())),
        (2, Value::Number("9223372036854775808".to_string())),
        (3, Value::Bool(true)),
        (4, Value::Number("1".to_string())),
        (5, Value::Object(Vec::new())),
    ] {
        let mut changed = members.clone();
        changed[i].1 = wrong;
        assert_eq!(ComplianceSpec::from_value(&Value::Object(changed)), None, "member {}", i);
    }
    assert_eq!(ComplianceSpec::from_value(&Value::Null), None);
    assert_eq!(ComplianceSpec::from_value(&Value::Array(members.into_iter().map(|m| m.1).collect())), None);
}

#[test]
fn bytes_that_are_no_spec_are_not_read() {
    let form = spec_with(&[("a", "1")]).canonical_form();
    assert!(ComplianceSpec::from_canonical(&form).is_some());
    let text = String::from_utf8(form).unwrap();
    for bad in [
        String::new(),
        "{}".to_string(),
        "null".to_string(),
        format!(" {}", text),
        format!("{} ", text),
        text.replace("\"expiry\":1798761599", "\"expiry\":\"2026-12-31T23:59:59Z\""),
        text.replace("\"expiry\":1798761599", "\"expiry\":01798761599"),
        text.replace("\"expiry\":1798761599", "\"expiry\":1798761599.0"),
        text.replace("\"constraints\":{\"a\":\"1\"}", "\"constraints\":{\"a\":1}"),
        text.replace(",\"version\":\"1.0\"", ""),
        text.replace(",\"version\":\"1.0\"", ",\"version\":\"1.0\",\"zone\":\"x\""),
        text.replace("\"claim\"", "\"Claim\""),
    ] {
        assert_eq!(ComplianceSpec::from_canonical(bad.as_bytes()), None, "{}", bad);
    }
}

#[test]
fn a_spec_discloses_every_field_unless_some_are_named() {
    let spec = spec_with(&[]);
    assert!(spec.is_disclosed("claim"));
    assert!(spec.is_disclosed("anything"));
    let spec = spec.with_disclosed_fields(vec!["claim".to_string(), "version".to_string()]);
    assert!(spec.is_disclosed("claim"));
    assert!(spec.is_disclosed("version"));
    assert!(!spec.is_disclosed("expiry"));
    assert!(!spec.is_disclosed("Claim"));
    assert!(!spec.is_disclosed(""));
    let spec = spec.with_disclosed_fields(Vec::new());
    assert!(!spec.is_disclosed("claim"));
}
