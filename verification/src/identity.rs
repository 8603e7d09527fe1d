//! The identity of a spec and its hash.
//!
//! Two specs have the same identity when they agree on claim, system hash,
//! jurisdiction, version and expiry, and their constraints give every name
//! the same value. The laws here say that the canonical form of a spec tells
//! its identity and nothing else, and what follows of that for the hash.

use vstd::prelude::*;
use vstd::utf8::*;
use crate::canonical::{
    joined, lemma_joined_from, member, members, normalized, object_bytes, quoted, Entry,
};
use crate::compliance::{raw_pairs, text_entries, ComplianceSpec};
use crate::decimal::decimal;
use crate::digest::sha256;
use crate::distinct::{
    lemma_cancel, lemma_decimal_delimited, lemma_quoted_delimited, lemma_text_object_delimited,
};
use crate::hex_codec::lemma_decode_encode;
use crate::normal::{
    contained, entry_value, lemma_normalized_value, lemma_order_irrelevant, lemma_present,
    lemma_sorted_is_normal, same_map, strictly_sorted,
};
use crate::text::{bytes_before, lemma_utf8_injective};

verus! {

/// The two specs make the same claim: they agree on every field of the
/// identity, the constraints taken as a map from names to values.
pub open spec fn same_identity(a: ComplianceSpec, b: ComplianceSpec) -> bool {
    &&& a.claim@ == b.claim@
    &&& a.system_hash@ == b.system_hash@
    &&& a.jurisdiction@ == b.jurisdiction@
    &&& a.version@ == b.version@
    &&& a.expiry == b.expiry
    &&& same_map(raw_pairs(a.constraints@), raw_pairs(b.constraints@))
}

/// No name occurs twice in the list.
pub open spec fn distinct_names(pairs: Seq<Entry>) -> bool {
    forall|i: int, j: int|
        0 <= i < j < pairs.len() ==> (#[trigger] pairs[i]).0 != (#[trigger] pairs[j]).0
}

/// `b` holds the pairs of `a` in another order: no name occurs twice in
/// either, and each holds every pair of the other.
pub open spec fn reordered(a: Seq<Entry>, b: Seq<Entry>) -> bool {
    &&& distinct_names(a)
    &&& distinct_names(b)
    &&& contained(a, b)
    &&& contained(b, a)
}

/// Where no name occurs twice, each pair gives its name its value.
pub proof fn lemma_distinct_value(pairs: Seq<Entry>, i: int)
    requires
        distinct_names(pairs),
        0 <= i < pairs.len(),
    ensures
        entry_value(pairs, pairs[i].0) == Some(pairs[i].1),
    decreases pairs.len(),
{
    if i < pairs.len() - 1 {
        assert(pairs[i].0 != pairs[pairs.len() - 1].0);
        assert(distinct_names(pairs.drop_last())) by {
            assert forall|a: int, b: int| 0 <= a < b < pairs.drop_last().len() implies (
            #[trigger] pairs.drop_last()[a]).0 != (#[trigger] pairs.drop_last()[b]).0 by {
                assert(pairs.drop_last()[a] == pairs[a]);
                assert(pairs.drop_last()[b] == pairs[b]);
            }
        }
        assert(pairs.drop_last()[i] == pairs[i]);
        lemma_distinct_value(pairs.drop_last(), i);
    }
}

/// A list and the same pairs in another order stand for one map.
pub proof fn lemma_reordered_same_map(a: Seq<Entry>, b: Seq<Entry>)
    requires
        reordered(a, b),
    ensures
        same_map(a, b),
{
    assert forall|key: Seq<u8>| entry_value(a, key) == entry_value(b, key) by {
        if entry_value(a, key) is Some {
            let i = lemma_present(a, key);
            lemma_distinct_value(a, i);
            let j = choose|j: int| 0 <= j < b.len() && b[j] == a[i];
            lemma_distinct_value(b, j);
        } else if entry_value(b, key) is Some {
            let j = lemma_present(b, key);
            lemma_distinct_value(b, j);
            let i = choose|i: int| 0 <= i < a.len() && a[i] == b[j];
            lemma_distinct_value(a, i);
        }
    }
}

/// The value that a name has in an object of strings is its value between
/// quotes.
pub proof fn lemma_text_value(pairs: Seq<Entry>, key: Seq<u8>)
    ensures
        entry_value(text_entries(pairs), key) == match entry_value(pairs, key) {
            Some(value) => Some(quoted(value)),
            None => None,
        },
    decreases pairs.len(),
{
    if pairs.len() > 0 {
        assert(text_entries(pairs).last() == (pairs.last().0, quoted(pairs.last().1)));
        assert(text_entries(pairs).drop_last() =~= text_entries(pairs.drop_last()));
        lemma_text_value(pairs.drop_last(), key);
    }
}

/// How the names of the six members begin.
proof fn lemma_names()
    ensures
        encode_utf8("claim"@).len() == 5,
        encode_utf8("claim"@)[0] == 0x63,
        encode_utf8("claim"@)[1] == 0x6c,
        encode_utf8("constraints"@).len() == 11,
        encode_utf8("constraints"@)[0] == 0x63,
        encode_utf8("constraints"@)[1] == 0x6f,
        encode_utf8("expiry"@).len() == 6,
        encode_utf8("expiry"@)[0] == 0x65,
        encode_utf8("jurisdiction"@).len() == 12,
        encode_utf8("jurisdiction"@)[0] == 0x6a,
        encode_utf8("system_hash"@).len() == 11,
        encode_utf8("system_hash"@)[0] == 0x73,
        encode_utf8("version"@).len() == 7,
        encode_utf8("version"@)[0] == 0x76,
{
    reveal_strlit("claim");
    reveal_strlit("constraints");
    reveal_strlit("expiry");
    reveal_strlit("jurisdiction");
    reveal_strlit("system_hash");
    reveal_strlit("version");
    assert(is_ascii_chars("claim"@));
    assert(is_ascii_chars("constraints"@));
    assert(is_ascii_chars("expiry"@));
    assert(is_ascii_chars("jurisdiction"@));
    assert(is_ascii_chars("system_hash"@));
    assert(is_ascii_chars("version"@));
    is_ascii_chars_encode_utf8("claim"@);
    is_ascii_chars_encode_utf8("constraints"@);
    is_ascii_chars_encode_utf8("expiry"@);
    is_ascii_chars_encode_utf8("jurisdiction"@);
    is_ascii_chars_encode_utf8("system_hash"@);
    is_ascii_chars_encode_utf8("version"@);
    assert("claim"@[0] == 'c' && "claim"@[1] == 'l');
    assert("constraints"@[0] == 'c' && "constraints"@[1] == 'o');
    assert("expiry"@[0] == 'e');
    assert("jurisdiction"@[0] == 'j');
    assert("system_hash"@[0] == 's');
    assert("version"@[0] == 'v');
}

/// The six members stand in the order of their names.
pub proof fn lemma_identity_sorted(s: ComplianceSpec)
    ensures
        strictly_sorted(s.identity_entries()),
        normalized(s.identity_entries()) == s.identity_entries(),
{
    lemma_names();
    let e = s.identity_entries();
    let k0 = encode_utf8("claim"@);
    let k1 = encode_utf8("constraints"@);
    assert(bytes_before(k0, k1)) by {
        assert(k0.drop_first()[0] == k0[1]);
        assert(k1.drop_first()[0] == k1[1]);
        assert(bytes_before(k0.drop_first(), k1.drop_first()));
    }
    assert forall|i: int, j: int| 0 <= i < j < e.len() implies bytes_before(
        (#[trigger] e[i]).0,
        (#[trigger] e[j]).0,
    ) by {
        if i == 0 && j == 1 {
        } else {
            assert(e[i].0[0] < e[j].0[0]);
        }
    }
    lemma_sorted_is_normal(e);
}

/// One member that others follow, with all that comes after it.
proof fn lemma_member_then(parts: Seq<Seq<u8>>, k: int, name: Seq<u8>, value: Seq<u8>)
    requires
        0 <= k < parts.len() - 1,
        parts[k] == member((name, value)),
    ensures
        joined(parts.skip(k)) + seq![0x7du8] == (quoted(name) + seq![0x3au8]) + (value + (seq![
            0x2cu8,
        ] + (joined(parts.skip(k + 1)) + seq![0x7du8]))),
{
    lemma_joined_from(parts, k);
    assert(joined(parts.skip(k)) + seq![0x7du8] =~= (quoted(name) + seq![0x3au8]) + (value + (seq![
        0x2cu8,
    ] + (joined(parts.skip(k + 1)) + seq![0x7du8]))));
}

/// The last member, with the closing brace.
proof fn lemma_member_last(parts: Seq<Seq<u8>>, k: int, name: Seq<u8>, value: Seq<u8>)
    requires
        0 <= k == parts.len() - 1,
        parts[k] == member((name, value)),
    ensures
        joined(parts.skip(k)) + seq![0x7du8] == (quoted(name) + seq![0x3au8]) + (value + seq![
            0x7du8,
        ]),
{
    lemma_joined_from(parts, k);
    assert(joined(parts.skip(k)) + seq![0x7du8] =~= (quoted(name) + seq![0x3au8]) + (value + seq![
        0x7du8,
    ]));
}

/// The canonical form from the member `version` on.
spec fn tail_version(s: ComplianceSpec) -> Seq<u8> {
    (quoted(encode_utf8("version"@)) + seq![0x3au8]) + (quoted(encode_utf8(s.version@)) + seq![
        0x7du8,
    ])
}

/// The canonical form from the member `system_hash` on.
spec fn tail_system_hash(s: ComplianceSpec) -> Seq<u8> {
    (quoted(encode_utf8("system_hash"@)) + seq![0x3au8]) + (quoted(encode_utf8(s.system_hash@)) + (
    seq![0x2cu8] + tail_version(s)))
}

/// The canonical form from the member `jurisdiction` on.
spec fn tail_jurisdiction(s: ComplianceSpec) -> Seq<u8> {
    (quoted(encode_utf8("jurisdiction"@)) + seq![0x3au8]) + (quoted(encode_utf8(s.jurisdiction@))
        + (seq![0x2cu8] + tail_system_hash(s)))
}

/// The canonical form from the member `expiry` on.
spec fn tail_expiry(s: ComplianceSpec) -> Seq<u8> {
    (quoted(encode_utf8("expiry"@)) + seq![0x3au8]) + (decimal(s.expiry as int) + (seq![0x2cu8]
        + tail_jurisdiction(s)))
}

/// The canonical form from the member `constraints` on.
spec fn tail_constraints(s: ComplianceSpec) -> Seq<u8> {
    (quoted(encode_utf8("constraints"@)) + seq![0x3au8]) + (object_bytes(s.constraint_entries()) + (
    seq![0x2cu8] + tail_expiry(s)))
}

/// The canonical form from the member `claim` on.
spec fn tail_claim(s: ComplianceSpec) -> Seq<u8> {
    (quoted(encode_utf8("claim"@)) + seq![0x3au8]) + (quoted(encode_utf8(s.claim@)) + (seq![0x2cu8]
        + tail_constraints(s)))
}

/// The canonical form of a spec is its six members in the order of their
/// names.
proof fn lemma_spelled(s: ComplianceSpec)
    ensures
        s.canonical_bytes() == seq![0x7bu8] + tail_claim(s),
{
    lemma_identity_sorted(s);
    let e = s.identity_entries();
    let parts = members(e);
    assert(parts.skip(0) =~= parts);
    lemma_member_last(parts, 5, e[5].0, e[5].1);
    lemma_member_then(parts, 4, e[4].0, e[4].1);
    lemma_member_then(parts, 3, e[3].0, e[3].1);
    lemma_member_then(parts, 2, e[2].0, e[2].1);
    lemma_member_then(parts, 1, e[1].0, e[1].1);
    lemma_member_then(parts, 0, e[0].0, e[0].1);
    assert(s.canonical_bytes() =~= seq![0x7bu8] + (joined(parts) + seq![0x7du8]));
}

/// The canonical form of a spec tells its identity: specs written the same
/// agree on every field of the identity.
pub proof fn lemma_canonical_form_tells_identity(a: ComplianceSpec, b: ComplianceSpec)
    requires
        a.canonical_bytes() == b.canonical_bytes(),
    ensures
        same_identity(a, b),
{
    lemma_spelled(a);
    lemma_spelled(b);
    let comma = seq![0x2cu8];
    // claim
    lemma_cancel(seq![0x7bu8], tail_claim(a), tail_claim(b));
    lemma_cancel(
        quoted(encode_utf8("claim"@)) + seq![0x3au8],
        quoted(encode_utf8(a.claim@)) + (comma + tail_constraints(a)),
        quoted(encode_utf8(b.claim@)) + (comma + tail_constraints(b)),
    );
    lemma_quoted_delimited(
        encode_utf8(a.claim@),
        encode_utf8(b.claim@),
        comma + tail_constraints(a),
        comma + tail_constraints(b),
    );
    lemma_cancel(comma, tail_constraints(a), tail_constraints(b));
    lemma_utf8_injective(a.claim@, b.claim@);
    // constraints
    lemma_cancel(
        quoted(encode_utf8("constraints"@)) + seq![0x3au8],
        object_bytes(a.constraint_entries()) + (comma + tail_expiry(a)),
        object_bytes(b.constraint_entries()) + (comma + tail_expiry(b)),
    );
    let pa = raw_pairs(a.constraints@);
    let pb = raw_pairs(b.constraints@);
    lemma_text_object_delimited(pa, pb, comma + tail_expiry(a), comma + tail_expiry(b));
    lemma_cancel(comma, tail_expiry(a), tail_expiry(b));
    assert forall|key: Seq<u8>| entry_value(pa, key) == entry_value(pb, key) by {
        lemma_normalized_value(pa, key);
        lemma_normalized_value(pb, key);
    }
    // expiry
    lemma_cancel(
        quoted(encode_utf8("expiry"@)) + seq![0x3au8],
        decimal(a.expiry as int) + (comma + tail_jurisdiction(a)),
        decimal(b.expiry as int) + (comma + tail_jurisdiction(b)),
    );
    assert(decimal(a.expiry as int) + comma + tail_jurisdiction(a) =~= decimal(a.expiry as int) + (
    comma + tail_jurisdiction(a)));
    assert(decimal(b.expiry as int) + comma + tail_jurisdiction(b) =~= decimal(b.expiry as int) + (
    comma + tail_jurisdiction(b)));
    lemma_decimal_delimited(
        a.expiry as int,
        b.expiry as int,
        tail_jurisdiction(a),
        tail_jurisdiction(b),
    );
    // jurisdiction
    lemma_cancel(
        quoted(encode_utf8("jurisdiction"@)) + seq![0x3au8],
        quoted(encode_utf8(a.jurisdiction@)) + (comma + tail_system_hash(a)),
        quoted(encode_utf8(b.jurisdiction@)) + (comma + tail_system_hash(b)),
    );
    lemma_quoted_delimited(
        encode_utf8(a.jurisdiction@),
        encode_utf8(b.jurisdiction@),
        comma + tail_system_hash(a),
        comma + tail_system_hash(b),
    );
    lemma_cancel(comma, tail_system_hash(a), tail_system_hash(b));
    lemma_utf8_injective(a.jurisdiction@, b.jurisdiction@);
    // system hash
    lemma_cancel(
        quoted(encode_utf8("system_hash"@)) + seq![0x3au8],
        quoted(encode_utf8(a.system_hash@)) + (comma + tail_version(a)),
        quoted(encode_utf8(b.system_hash@)) + (comma + tail_version(b)),
    );
    lemma_quoted_delimited(
        encode_utf8(a.system_hash@),
        encode_utf8(b.system_hash@),
        comma + tail_version(a),
        comma + tail_version(b),
    );
    lemma_cancel(comma, tail_version(a), tail_version(b));
    lemma_utf8_injective(a.system_hash@, b.system_hash@);
    // version
    lemma_cancel(
        quoted(encode_utf8("version"@)) + seq![0x3au8],
        quoted(encode_utf8(a.version@)) + seq![0x7du8],
        quoted(encode_utf8(b.version@)) + seq![0x7du8],
    );
    lemma_quoted_delimited(
        encode_utf8(a.version@),
        encode_utf8(b.version@),
        seq![0x7du8],
        seq![0x7du8],
    );
    lemma_utf8_injective(a.version@, b.version@);
}

/// Specs of one identity have one canonical form and one hash. Neither the
/// order in which the constraints were given, nor a constraint that a later
/// one overrides, nor the metadata, nor the disclosed fields change the hash.
pub proof fn lemma_hash_of_identity(a: ComplianceSpec, b: ComplianceSpec)
    requires
        same_identity(a, b),
    ensures
        a.canonical_bytes() == b.canonical_bytes(),
        a.spec_hash() == b.spec_hash(),
{
    let pa = raw_pairs(a.constraints@);
    let pb = raw_pairs(b.constraints@);
    assert forall|key: Seq<u8>|
        entry_value(text_entries(pa), key) == entry_value(text_entries(pb), key) by {
        lemma_text_value(pa, key);
        lemma_text_value(pb, key);
        assert(entry_value(pa, key) == entry_value(pb, key));
    }
    lemma_order_irrelevant(text_entries(pa), text_entries(pb));
    assert(a.identity_entries() =~= b.identity_entries());
}

/// The hash is stable under a permutation of the constraints: specs that
/// agree on the other fields of the identity, and whose constraints are the
/// same pairs in another order, have one hash.
pub proof fn lemma_hash_ignores_constraint_order(a: ComplianceSpec, b: ComplianceSpec)
    requires
        a.claim@ == b.claim@,
        a.system_hash@ == b.system_hash@,
        a.jurisdiction@ == b.jurisdiction@,
        a.version@ == b.version@,
        a.expiry == b.expiry,
        reordered(raw_pairs(a.constraints@), raw_pairs(b.constraints@)),
    ensures
        a.spec_hash() == b.spec_hash(),
{
    lemma_reordered_same_map(raw_pairs(a.constraints@), raw_pairs(b.constraints@));
    lemma_hash_of_identity(a, b);
}

/// The hash changes with the identity: specs that differ in a field of the
/// identity have different hashes, unless SHA-256 gives their two canonical
/// forms one digest.
pub proof fn lemma_hash_tells_identity(a: ComplianceSpec, b: ComplianceSpec)
    requires
        !same_identity(a, b),
        sha256(a.canonical_bytes()) == sha256(b.canonical_bytes()) ==> a.canonical_bytes()
            == b.canonical_bytes(),
    ensures
        a.spec_hash() != b.spec_hash(),
{
    if a.spec_hash() == b.spec_hash() {
        lemma_decode_encode(sha256(a.canonical_bytes()));
        lemma_decode_encode(sha256(b.canonical_bytes()));
        lemma_canonical_form_tells_identity(a, b);
    }
}

} // verus!
