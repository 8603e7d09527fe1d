//! The claim under test and the outcome of a check.

use vstd::prelude::*;
use vstd::utf8::encode_utf8;
use crate::canonical::{entries_of, object_bytes, quoted, write_object, write_quoted, Entry};
use crate::decimal::{decimal, write_decimal};
use crate::digest::{fingerprint, fingerprint_of};
use crate::text::{append, str_eq};

verus! {

/// The outcome of a check. There is nothing between the two: whatever a
/// checker cannot read or decide is a `Fail`.
#[derive(Debug, Clone, Copy, PartialEq, Eq, Structural)]
pub enum ComplianceResult {
    Pass,
    Fail,
}

impl ComplianceResult {
    /// `Pass` for `true`, `Fail` for `false`.
    pub fn from_accepted(accepted: bool) -> (r: ComplianceResult)
        ensures
            r == if accepted { ComplianceResult::Pass } else { ComplianceResult::Fail },
    {
        if accepted {
            ComplianceResult::Pass
        } else {
            ComplianceResult::Fail
        }
    }

    /// Whether the outcome is `Pass`.
    pub fn is_pass(&self) -> (r: bool)
        ensures
            r == (*self == ComplianceResult::Pass),
    {
        match self {
            ComplianceResult::Pass => true,
            ComplianceResult::Fail => false,
        }
    }
}

/// A claim about a system.
///
/// `claim`, `system_hash`, `constraints`, `jurisdiction`, `version` and
/// `expiry` make up the identity of the spec. `metadata` and
/// `disclosed_fields` inform and take no part in it.
#[derive(Debug, Clone, PartialEq, Eq)]
pub struct ComplianceSpec {
    /// What is asserted, in words.
    pub claim: String,
    /// Names the system or data set that the claim is about.
    pub system_hash: String,
    /// Constraint names with their values. Of two entries with one name the
    /// later one counts.
    pub constraints: Vec<(String, String)>,
    /// Where the claim applies.
    pub jurisdiction: String,
    /// The version of the claim.
    pub version: String,
    /// The last second, counted from the Unix epoch, at which the spec is
    /// valid.
    pub expiry: i64,
    /// Free-form notes.
    pub metadata: Vec<(String, String)>,
    /// The names of the fields that the holder reveals; `None` reveals all.
    pub disclosed_fields: Option<Vec<String>>,
}

/// Names and values of a list of constraints, as UTF-8 bytes.
pub open spec fn raw_pairs(constraints: Seq<(String, String)>) -> Seq<Entry> {
    Seq::new(
        constraints.len(),
        |i: int| (encode_utf8(constraints[i].0@), encode_utf8(constraints[i].1@)),
    )
}

/// The members of an object of strings: each value between quotes.
pub open spec fn text_entries(pairs: Seq<Entry>) -> Seq<Entry> {
    Seq::new(pairs.len(), |i: int| (pairs[i].0, quoted(pairs[i].1)))
}

/// The UTF-8 bytes of a text.
fn utf8_bytes(text: &str) -> (bytes: Vec<u8>)
    ensures
        bytes@ == encode_utf8(text@),
{
    let mut bytes: Vec<u8> = Vec::new();
    append(&mut bytes, text.as_bytes());
    assert(bytes@ =~= encode_utf8(text@));
    bytes
}

/// A text as a canonical string.
fn quoted_text(text: &str) -> (bytes: Vec<u8>)
    ensures
        bytes@ == quoted(encode_utf8(text@)),
{
    let mut bytes: Vec<u8> = Vec::new();
    write_quoted(&mut bytes, text.as_bytes());
    assert(bytes@ =~= quoted(encode_utf8(text@)));
    bytes
}

impl ComplianceSpec {
    /// A spec with the given identity, without metadata, with every field
    /// disclosed.
    pub fn new(
        claim: String,
        system_hash: String,
        constraints: Vec<(String, String)>,
        jurisdiction: String,
        version: String,
        expiry: i64,
    ) -> (spec: ComplianceSpec)
        ensures
            spec.claim == claim,
            spec.system_hash == system_hash,
            spec.constraints == constraints,
            spec.jurisdiction == jurisdiction,
            spec.version == version,
            spec.expiry == expiry,
            spec.metadata@.len() == 0,
            spec.disclosed_fields is None,
    {
        ComplianceSpec {
            claim,
            system_hash,
            constraints,
            jurisdiction,
            version,
            expiry,
            metadata: Vec::new(),
            disclosed_fields: None,
        }
    }

    /// The same spec with other metadata.
    pub fn with_metadata(self, metadata: Vec<(String, String)>) -> (spec: ComplianceSpec)
        ensures
            spec == (ComplianceSpec { metadata, ..self }),
    {
        ComplianceSpec { metadata, ..self }
    }

    /// The same spec with only the named fields disclosed.
    pub fn with_disclosed_fields(self, fields: Vec<String>) -> (spec: ComplianceSpec)
        ensures
            spec == (ComplianceSpec { disclosed_fields: Some(fields), ..self }),
    {
        ComplianceSpec { disclosed_fields: Some(fields), ..self }
    }

    /// The field `name` is among those that the spec discloses: every field
    /// where none are named, and the named ones otherwise.
    pub open spec fn discloses(self, name: Seq<char>) -> bool {
        match self.disclosed_fields {
            None => true,
            Some(fields) => exists|i: int| 0 <= i < fields@.len() && fields@[i]@ == name,
        }
    }

    /// Whether the spec discloses the field `name`.
    pub fn is_disclosed(&self, name: &str) -> (r: bool)
        ensures
            r == self.discloses(name@),
    {
        match &self.disclosed_fields {
            None => true,
            Some(fields) => {
                let mut i: usize = 0;
                while i < fields.len()
                    invariant
                        i <= fields.len(),
                        self.disclosed_fields is Some,
                        self.disclosed_fields->Some_0 == *fields,
                        forall|k: int| 0 <= k < i ==> fields@[k]@ != name@,
                    decreases fields.len() - i,
                {
                    if str_eq(fields[i].as_str(), name) {
                        assert(0 <= i < fields@.len() && fields@[i as int]@ == name@);
                        assert(exists|k: int| 0 <= k < fields@.len() && fields@[k]@ == name@);
                        assert(self.discloses(name@));
                        return true;
                    }
                    i += 1;
                }
                false
            },
        }
    }

    /// The constraints as the members of an object of strings.
    pub open spec fn constraint_entries(self) -> Seq<Entry> {
        text_entries(raw_pairs(self.constraints@))
    }

    /// The six members that make up the identity of the spec.
    pub open spec fn identity_entries(self) -> Seq<Entry> {
        seq![
            (encode_utf8("claim"@), quoted(encode_utf8(self.claim@))),
            (encode_utf8("constraints"@), object_bytes(self.constraint_entries())),
            (encode_utf8("expiry"@), decimal(self.expiry as int)),
            (encode_utf8("jurisdiction"@), quoted(encode_utf8(self.jurisdiction@))),
            (encode_utf8("system_hash"@), quoted(encode_utf8(self.system_hash@))),
            (encode_utf8("version"@), quoted(encode_utf8(self.version@))),
        ]
    }

    /// The canonical form of the spec: an object of the six members of its
    /// identity, the constraints an object of strings within it, the expiry a
    /// number.
    pub open spec fn canonical_bytes(self) -> Seq<u8> {
        object_bytes(self.identity_entries())
    }

    /// The hash of the spec: the fingerprint of its canonical form.
    pub open spec fn spec_hash(self) -> Seq<char> {
        fingerprint_of(self.canonical_bytes())
    }

    /// The spec is past its expiry at the time `now`.
    pub open spec fn expired_at(self, now: i64) -> bool {
        now > self.expiry
    }

    /// Writes the canonical form of the spec.
    pub fn canonical_form(&self) -> (bytes: Vec<u8>)
        ensures
            bytes@ == self.canonical_bytes(),
    {
        let ghost wanted = self.constraint_entries();
        let mut inner: Vec<(Vec<u8>, Vec<u8>)> = Vec::new();
        let mut i: usize = 0;
        while i < self.constraints.len()
            invariant
                i <= self.constraints.len(),
                wanted == self.constraint_entries(),
                inner@.len() == i,
                forall|k: int| 0 <= k < i ==> (inner@[k].0@, inner@[k].1@) == wanted[k],
            decreases self.constraints.len() - i,
        {
            let name = utf8_bytes(self.constraints[i].0.as_str());
            let value = quoted_text(self.constraints[i].1.as_str());
            inner.push((name, value));
            i += 1;
        }
        assert(entries_of(inner@) =~= wanted);
        let mut constraints: Vec<u8> = Vec::new();
        write_object(&mut constraints, &inner);
        assert(constraints@ =~= object_bytes(wanted));
        let mut expiry: Vec<u8> = Vec::new();
        write_decimal(&mut expiry, self.expiry);
        assert(expiry@ =~= decimal(self.expiry as int));
        let mut outer: Vec<(Vec<u8>, Vec<u8>)> = Vec::new();
        outer.push((utf8_bytes("claim"), quoted_text(self.claim.as_str())));
        outer.push((utf8_bytes("constraints"), constraints));
        outer.push((utf8_bytes("expiry"), expiry));
        outer.push((utf8_bytes("jurisdiction"), quoted_text(self.jurisdiction.as_str())));
        outer.push((utf8_bytes("system_hash"), quoted_text(self.system_hash.as_str())));
        outer.push((utf8_bytes("version"), quoted_text(self.version.as_str())));
        assert(entries_of(outer@) =~= self.identity_entries());
        let mut bytes: Vec<u8> = Vec::new();
        write_object(&mut bytes, &outer);
        assert(bytes@ =~= self.canonical_bytes());
        bytes
    }

    /// The hash of the spec. It is computed from the identity of the spec
    /// each time it is asked for, and reads neither the metadata nor the
    /// disclosed fields.
    pub fn hash(&self) -> (text: String)
        ensures
            text@ == self.spec_hash(),
    {
        let bytes = self.canonical_form();
        fingerprint(bytes.as_slice())
    }

    /// Whether the spec is past its expiry at the time `now`, in seconds
    /// since the Unix epoch.
    pub fn is_expired_at(&self, now: i64) -> (r: bool)
        ensures
            r == self.expired_at(now),
    {
        now > self.expiry
    }
}

} // verus!
