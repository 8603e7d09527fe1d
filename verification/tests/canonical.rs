//! The canonical encoding, written and read back.

use fuse_core::canonical::{canonicalize, EncodeError, MAX_DEPTH};
use fuse_core::digest::{fingerprint, fingerprint_value};
use fuse_core::number::is_number_text;
use fuse_core::reader::{decode, normalize, DecodeError};
use fuse_core::value::Value;

fn text(s: &str) -> Value {
    Value::String(s.to_string())
}

fn number(s: &str) -> Value {
    Value::Number(s.to_string())
}

fn object(members: Vec<(&str, Value)>) -> Value {
    Value::Object(members.into_iter().map(|(k, v)| (k.to_string(), v)).collect())
}

fn written(v: &Value) -> String {
    String::from_utf8(canonicalize(v).unwrap()).unwrap()
}

fn nested(levels: usize) -> Value {
    let mut v = Value::Null;
    for _ in 1..levels {
        v = Value::Array(vec![v]);
    }
    v
}

#[test]
fn scalars_are_written_as_json_writes_them() {
    assert_eq!(written(&Value::Null), "null");
    assert_eq!(written(&Value::Bool(true)), "true");
    assert_eq!(written(&Value::Bool(false)), "false");
    assert_eq!(written(&number("0")), "0");
    assert_eq!(written(&number("-12.5e+3")), "-12.5e+3");
    assert_eq!(written(&text("")), "\"\"");
    assert_eq!(written(&text("abc")), "\"abc\"");
}

#[test]
fn strings_are_escaped_in_the_shortest_way() {
    assert_eq!(written(&text("a\"b")), "\"a\\\"b\"");
    assert_eq!(written(&text("a\\b")), "\"a\\\\b\"");
    assert_eq!(written(&text("\u{8}\t\n\u{c}\r")), "\"\\b\\t\\n\\f\\r\"");
    assert_eq!(written(&text("\u{0}\u{1}\u{b}\u{1f}")), "\"\\u0000\\u0001\\u000b\\u001f\"");
    assert_eq!(written(&text("/ \u{7f}")), "\"/ \u{7f}\"");
    assert_eq!(written(&text("\u{e9}\u{20ac}\u{1f600}")), "\"\u{e9}\u{20ac}\u{1f600}\"");
}

#[test]
fn arrays_keep_their_order() {
    assert_eq!(written(&Value::Array(Vec::new())), "[]");
    assert_eq!(written(&Value::Array(vec![number("2"), number("1")])), "[2,1]");
    assert_eq!(
        written(&Value::Array(vec![Value::Null, Value::Array(vec![text("x")]), Value::Bool(true)])),
        "[null,[\"x\"],true]"
    );
}

#[test]
fn members_are_written_in_the_byte_order_of_their_names() {
    assert_eq!(written(&object(Vec::new())), "{}");
    let v = object(vec![("b", number("1")), ("a", text("x\n\"y")), ("B", Value::Null)]);
    assert_eq!(written(&v), "{\"B\":null,\"a\":\"x\\n\\\"y\",\"b\":1}");
    let v = object(vec![("ab", number("1")), ("a", number("2")), ("", number("3"))]);
    assert_eq!(written(&v), "{\"\":3,\"a\":2,\"ab\":1}");
    // By bytes, not by characters or by locale.
    let v = object(vec![("\u{e9}", number("1")), ("z", number("2")), ("\u{1f600}", number("3"))]);
    assert_eq!(written(&v), "{\"z\":2,\"\u{e9}\":1,\"\u{1f600}\":3}");
}

#[test]
fn the_order_of_writing_does_not_show() {
    let a = object(vec![("x", number("1")), ("y", object(vec![("p", Value::Null), ("q", text("r"))]))]);
    let b = object(vec![("y", object(vec![("q", text("r")), ("p", Value::Null)])), ("x", number("1"))]);
    assert_eq!(canonicalize(&a), canonicalize(&b));
    assert_eq!(written(&a), "{\"x\":1,\"y\":{\"p\":null,\"q\":\"r\"}}");
}

#[test]
fn of_a_name_written_twice_the_last_counts() {
    let v = object(vec![("a", number("1")), ("b", number("2")), ("a", number("3"))]);
    assert_eq!(written(&v), "{\"a\":3,\"b\":2}");
    let v = object(vec![("a", number("1")), ("a", number("2")), ("a", number("3"))]);
    assert_eq!(written(&v), "{\"a\":3}");
}

#[test]
fn numbers_keep_their_text() {
    assert_eq!(written(&number("1.0")), "1.0");
    assert_eq!(written(&number("1")), "1");
    assert_ne!(canonicalize(&number("1.0")), canonicalize(&number("1")));
    assert_eq!(written(&number("1E5")), "1E5");
    assert_eq!(written(&number("100000")), "100000");
}

#[test]
fn a_number_and_a_string_of_its_digits_differ() {
    assert_ne!(canonicalize(&number("1")), canonicalize(&text("1")));
    assert_ne!(canonicalize(&Value::Null), canonicalize(&text("null")));
}

#[test]
fn text_that_is_no_number_is_refused() {
    for bad in ["", "-", "+1", "01", "1.", ".5", "1e", "1e+", "1,2", "0x10", "NaN", "1 ", " 1", "--1", "1.2.3", "1e5e5"] {
        assert_eq!(canonicalize(&number(bad)), Err(EncodeError::InvalidNumber), "{:?}", bad);
        assert!(!is_number_text(bad.as_bytes()));
    }
    let v = object(vec![("a", Value::Array(vec![number("1"), number("1.")]))]);
    assert_eq!(canonicalize(&v), Err(EncodeError::InvalidNumber));
}

#[test]
fn numbers_as_json_writes_them_are_numbers() {
    for good in ["0", "-0", "7", "10", "-10", "0.5", "-0.25", "1e5", "1E5", "1e+5", "1e-5", "12.50e10", "0e0"] {
        assert!(is_number_text(good.as_bytes()), "{:?}", good);
        assert_eq!(written(&number(good)), good);
    }
}

#[test]
fn nesting_is_bounded() {
    assert_eq!(MAX_DEPTH, 128);
    let deepest = nested(MAX_DEPTH);
    assert!(canonicalize(&deepest).is_ok());
    assert_eq!(canonicalize(&deepest).unwrap().len(), 2 * (MAX_DEPTH - 1) + 4);
    assert_eq!(canonicalize(&nested(MAX_DEPTH + 1)), Err(EncodeError::TooDeep));
    assert_eq!(canonicalize(&nested(1000)), Err(EncodeError::TooDeep));
    let in_object = object(vec![("a", nested(MAX_DEPTH))]);
    assert_eq!(canonicalize(&in_object), Err(EncodeError::TooDeep));
    let in_object = object(vec![("a", nested(MAX_DEPTH - 1))]);
    assert!(canonicalize(&in_object).is_ok());
}

#[test]
fn too_deep_is_reported_before_a_bad_number() {
    let v = Value::Array(vec![number("x"), nested(MAX_DEPTH)]);
    assert_eq!(canonicalize(&v), Err(EncodeError::TooDeep));
}

#[test]
fn what_is_written_is_read_back() {
    let v = object(vec![
        ("b", Value::Array(vec![number("1.0"), Value::Null, Value::Bool(false)])),
        ("a", text("x\n\"y\u{1}\u{e9}")),
        ("c", object(vec![("z", object(Vec::new())), ("y", Value::Array(Vec::new()))])),
    ]);
    let bytes = canonicalize(&v).unwrap();
    let read = decode(&bytes).unwrap();
    assert_eq!(
        read,
        object(vec![
            ("a", text("x\n\"y\u{1}\u{e9}")),
            ("b", Value::Array(vec![number("1.0"), Value::Null, Value::Bool(false)])),
            ("c", object(vec![("y", Value::Array(Vec::new())), ("z", object(Vec::new()))])),
        ])
    );
    assert_eq!(canonicalize(&read).unwrap(), bytes);
}

#[test]
fn canonicalizing_twice_changes_nothing() {
    let values = vec![
        Value::Null,
        Value::Bool(true),
        number("-0.5e-7"),
        text("\u{0}\\\"\u{1f600}"),
        Value::Array(vec![text("a"), Value::Array(vec![]), object(vec![])]),
        object(vec![("k", number("1")), ("k", number("2")), ("a", Value::Null)]),
        nested(MAX_DEPTH),
    ];
    for v in values {
        let once = canonicalize(&v).unwrap();
        let reparsed = normalize(&v).unwrap();
        assert_eq!(canonicalize(&reparsed).unwrap(), once);
        assert_eq!(decode(&once).unwrap(), reparsed);
    }
}

#[test]
fn one_and_one_point_zero_stay_apart_through_a_round_trip() {
    let a = normalize(&Value::Array(vec![number("1"), number("1.0")])).unwrap();
    assert_eq!(a, Value::Array(vec![number("1"), number("1.0")]));
    assert_eq!(decode(b"1.0"), Ok(number("1.0")));
    assert_eq!(decode(b"1"), Ok(number("1")));
}

#[test]
fn normalize_sorts_and_drops_what_is_overridden() {
    let v = object(vec![("b", number("1")), ("a", number("2")), ("b", number("3"))]);
    assert_eq!(normalize(&v), Ok(object(vec![("a", number("2")), ("b", number("3"))])));
    assert_eq!(normalize(&number("01")), Err(EncodeError::InvalidNumber));
    assert_eq!(normalize(&nested(MAX_DEPTH + 1)), Err(EncodeError::TooDeep));
}

#[test]
fn decode_reads_each_kind_of_value() {
    assert_eq!(decode(b"null"), Ok(Value::Null));
    assert_eq!(decode(b"true"), Ok(Value::Bool(true)));
    assert_eq!(decode(b"false"), Ok(Value::Bool(false)));
    assert_eq!(decode(b"-12.5e+3"), Ok(number("-12.5e+3")));
    assert_eq!(decode(b"\"a\\n\\u0001\\\\\\\"\""), Ok(text("a\n\u{1}\\\"")));
    assert_eq!(decode(b"[]"), Ok(Value::Array(Vec::new())));
    assert_eq!(decode(b"{}"), Ok(object(Vec::new())));
    assert_eq!(decode(b"[1,[2,[]],{}]"), Ok(Value::Array(vec![
        number("1"),
        Value::Array(vec![number("2"), Value::Array(Vec::new())]),
        object(Vec::new()),
    ])));
    assert_eq!(
        decode("{\"a\":\"\u{e9}\",\"b\":{\"c\":null}}".as_bytes()),
        Ok(object(vec![("a", text("\u{e9}")), ("b", object(vec![("c", Value::Null)]))]))
    );
}

#[test]
fn decode_refuses_json_that_is_not_canonical() {
    let refused: Vec<&[u8]> = vec![
        b" null",
        b"null ",
        b"[1, 2]",
        b"{\"a\": 1}",
        b"{\"a\":1 }",
        b"{\"b\":1,\"a\":2}",
        b"{\"a\":1,\"a\":2}",
        b"\"\\u000a\"",
        b"\"\\u001F\"",
        b"\"\\u0041\"",
        b"\"\\/\"",
        b"\"\\u0022\"",
        b"01",
        b"1.",
        b"+1",
        b"-",
        b"1e",
        b"TRUE",
        b"nul",
        b"nulll",
        b"[1,]",
        b"[,1]",
        b"{\"a\":1,}",
        b"{\"a\"}",
        b"{a:1}",
        b"[1 2]",
    ];
    for bytes in refused {
        assert_eq!(decode(bytes), Err(DecodeError::NotCanonical), "{:?}", String::from_utf8_lossy(bytes));
    }
}

#[test]
fn decode_refuses_bytes_that_are_no_json() {
    let refused: Vec<&[u8]> = vec![
        b"",
        b"\"",
        b"\"abc",
        b"\"a\nb\"",
        b"\"\\",
        b"\"\\x\"",
        b"\"\\u00\"",
        b"[",
        b"]",
        b"{",
        b"}",
        b"[[]",
        b"{\"a\":",
        b"{\"a\":1",
        b",",
        b":",
        b"x",
        &[0xff],
        &[0x22, 0xff, 0x22],
        &[0x22, 0xc3, 0x22],
        &[0x7b, 0x22, 0xff, 0x22, 0x3a, 0x31, 0x7d],
        &[0x00],
    ];
    for bytes in refused {
        assert_eq!(decode(bytes), Err(DecodeError::NotCanonical), "{:?}", bytes);
    }
}

#[test]
fn decode_refuses_what_nests_too_deep() {
    let mut deep = vec![b'['; 127];
    deep.extend_from_slice(b"null");
    deep.extend(vec![b']'; 127]);
    assert_eq!(decode(&deep), Ok(nested(128)));
    let mut deeper = vec![b'['; 128];
    deeper.extend_from_slice(b"null");
    deeper.extend(vec![b']'; 128]);
    assert_eq!(decode(&deeper), Err(DecodeError::NotCanonical));
    let endless = vec![b'['; 100_000];
    assert_eq!(decode(&endless), Err(DecodeError::NotCanonical));
    let endless = vec![b'{'; 100_000];
    assert_eq!(decode(&endless), Err(DecodeError::NotCanonical));
}

#[test]
fn decode_gives_the_same_answer_again() {
    for bytes in [&b"{\"a\":[1,2]}"[..], &b"{\"a\":[1,2]"[..], &[0xff, 0x00][..]] {
        assert_eq!(decode(bytes), decode(bytes));
    }
}

#[test]
fn a_clone_is_written_like_the_value_it_was_made_from() {
    let v = object(vec![("b", Value::Array(vec![number("1"), text("x")])), ("a", Value::Null)]);
    let copy = v.clone();
    assert_eq!(copy, v);
    assert_eq!(canonicalize(&copy), canonicalize(&v));
}

#[test]
fn the_fingerprint_of_evidence_is_that_of_its_canonical_form() {
    let a = object(vec![("b", number("1")), ("a", text("x"))]);
    let b = object(vec![("a", text("x")), ("b", number("2")), ("b", number("1"))]);
    assert_eq!(fingerprint_value(&a), Ok(fingerprint(b"{\"a\":\"x\",\"b\":1}")));
    assert_eq!(fingerprint_value(&a), fingerprint_value(&b));
    assert_ne!(fingerprint_value(&a), fingerprint_value(&object(vec![("a", text("x"))])));
    assert_eq!(fingerprint_value(&number("1.")), Err(EncodeError::InvalidNumber));
    assert_eq!(fingerprint_value(&nested(MAX_DEPTH + 1)), Err(EncodeError::TooDeep));
}
