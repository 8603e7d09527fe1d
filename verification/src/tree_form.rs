//! A spec as a tree, and a tree as a spec.
//!
//! The tree of a spec is an object of the six members of its identity, in
//! the order of their names: `claim`, `constraints`, `expiry`,
//! `jurisdiction`, `system_hash`, `version`. The constraints are an object of
//! strings, the expiry is a number. The canonical form of the tree is the
//! canonical form of the spec.

use vstd::prelude::*;
use vstd::utf8::*;
use crate::canonical::{
    canonical, encodable, insert, member_entries, normalized, well_formed, within_depth, Entry,
};
use crate::compliance::{raw_pairs, ComplianceSpec};
use crate::decimal::{
    decimal, lemma_decimal_is_number, lemma_decimal_plain, read_decimal, write_decimal,
};
use crate::identity::{lemma_hash_of_identity, lemma_identity_sorted, same_identity};
use crate::normal::{
    entry_value, in_normal_form, lemma_normalized_sorted, lemma_normalized_value, strictly_sorted,
};
use crate::reader::{decode, is_canonical};
use crate::trees::lemma_canonical_tells_tree;
use crate::text::{bytes_eq, bytes_lt, lemma_ascii_is_utf8, str_eq, string_from_utf8};
use crate::value::{same_tree, Value};

verus! {

/// The members are the constraints, one for one: each has the name of its
/// constraint and is the string of its value.
pub open spec fn constraints_of(pairs: Seq<(String, Value)>, constraints: Seq<(String, String)>) -> bool {
    &&& pairs.len() == constraints.len()
    &&& forall|i: int|
        0 <= i < pairs.len() ==> (#[trigger] pairs[i]).0@ == constraints[i].0@ && (pairs[i].1 matches Value::String(
            text,
        ) && text@ == constraints[i].1@)
}

/// `tree` is the tree of `spec`.
pub open spec fn tree_of(tree: Value, spec: ComplianceSpec) -> bool {
    tree matches Value::Object(list) && {
        &&& list@.len() == 6
        &&& list@[0].0@ == "claim"@
        &&& list@[0].1 matches Value::String(text) && text@ == spec.claim@
        &&& list@[1].0@ == "constraints"@
        &&& list@[1].1 matches Value::Object(pairs) && constraints_of(pairs@, spec.constraints@)
        &&& list@[2].0@ == "expiry"@
        &&& list@[2].1 matches Value::Number(text) && encode_utf8(text@) == decimal(spec.expiry as int)
        &&& list@[3].0@ == "jurisdiction"@
        &&& list@[3].1 matches Value::String(text) && text@ == spec.jurisdiction@
        &&& list@[4].0@ == "system_hash"@
        &&& list@[4].1 matches Value::String(text) && text@ == spec.system_hash@
        &&& list@[5].0@ == "version"@
        &&& list@[5].1 matches Value::String(text) && text@ == spec.version@
    }
}

/// The tree of a spec has the canonical form of the spec, and it has one:
/// it nests three deep and its one number is a number.
pub proof fn lemma_tree_canonical(tree: Value, spec: ComplianceSpec)
    requires
        tree_of(tree, spec),
    ensures
        canonical(tree) == spec.canonical_bytes(),
        encodable(tree),
{
    let list = tree->Object_0@;
    let pairs = list[1].1->Object_0@;
    assert(member_entries(pairs) =~= spec.constraint_entries());
    assert(member_entries(list) =~= spec.identity_entries());
    lemma_decimal_is_number(spec.expiry as int);
    assert forall|k: int| 0 <= k < pairs.len() implies within_depth((#[trigger] pairs[k]).1, 126)
        && well_formed(pairs[k].1) by {}
    assert(within_depth(list[1].1, 127));
    assert(well_formed(list[1].1));
    assert forall|k: int| 0 <= k < list.len() implies within_depth((#[trigger] list[k]).1, 127)
        && well_formed(list[k].1) by {}
}

/// The tree of a spec whose constraints stand in the order of their names,
/// each name once, is in normal form.
pub proof fn lemma_tree_normal(tree: Value, spec: ComplianceSpec)
    requires
        tree_of(tree, spec),
        strictly_sorted(raw_pairs(spec.constraints@)),
    ensures
        in_normal_form(tree),
{
    let list = tree->Object_0@;
    let pairs = list[1].1->Object_0@;
    let raw = raw_pairs(spec.constraints@);
    assert(member_entries(pairs) =~= spec.constraint_entries());
    assert(member_entries(list) =~= spec.identity_entries());
    lemma_identity_sorted(spec);
    assert(strictly_sorted(member_entries(pairs))) by {
        let e = member_entries(pairs);
        assert forall|i: int, j: int| 0 <= i < j < e.len() implies crate::text::bytes_before(
            (#[trigger] e[i]).0,
            (#[trigger] e[j]).0,
        ) by {
            assert(e[i].0 == raw[i].0);
            assert(e[j].0 == raw[j].0);
        }
    }
    assert forall|k: int| 0 <= k < pairs.len() implies in_normal_form((#[trigger] pairs[k]).1) by {}
    assert(in_normal_form(list[1].1));
    assert forall|k: int| 0 <= k < list.len() implies in_normal_form((#[trigger] list[k]).1) by {}
}

/// The spec of a tree in normal form has its constraints in the order of
/// their names, each name once.
pub proof fn lemma_tree_sorted(tree: Value, spec: ComplianceSpec)
    requires
        tree_of(tree, spec),
        in_normal_form(tree),
    ensures
        strictly_sorted(raw_pairs(spec.constraints@)),
{
    let list = tree->Object_0@;
    let pairs = list[1].1->Object_0@;
    let raw = raw_pairs(spec.constraints@);
    let e = member_entries(pairs);
    assert(in_normal_form(list[1].1));
    assert forall|i: int, j: int| 0 <= i < j < raw.len() implies crate::text::bytes_before(
        (#[trigger] raw[i]).0,
        (#[trigger] raw[j]).0,
    ) by {
        assert(e[i].0 == raw[i].0);
        assert(e[j].0 == raw[j].0);
    }
}

/// What is the tree of a spec stays so when it is copied.
pub proof fn lemma_tree_of_same(a: Value, b: Value, spec: ComplianceSpec)
    requires
        same_tree(a, b),
        tree_of(a, spec),
    ensures
        tree_of(b, spec),
{
    let x = a->Object_0@;
    let y = b->Object_0@;
    assert(same_tree(x[0].1, y[0].1));
    assert(same_tree(x[1].1, y[1].1));
    assert(same_tree(x[2].1, y[2].1));
    assert(same_tree(x[3].1, y[3].1));
    assert(same_tree(x[4].1, y[4].1));
    assert(same_tree(x[5].1, y[5].1));
    let p = x[1].1->Object_0@;
    let q = y[1].1->Object_0@;
    assert forall|i: int| 0 <= i < q.len() implies (#[trigger] q[i]).0@ == spec.constraints@[i].0@ && (
    q[i].1 matches Value::String(text) && text@ == spec.constraints@[i].1@) by {
        assert(p[i].0@ == q[i].0@ && same_tree(p[i].1, q[i].1));
    }
}

/// A whole number as decimal text.
fn decimal_text(n: i64) -> (text: String)
    ensures
        encode_utf8(text@) == decimal(n as int),
{
    let mut bytes: Vec<u8> = Vec::new();
    write_decimal(&mut bytes, n);
    proof {
        assert(bytes@ =~= decimal(n as int));
        lemma_decimal_plain(n as int);
        lemma_ascii_is_utf8(bytes@);
    }
    match string_from_utf8(bytes) {
        Some(text) => text,
        None => vstd::pervasive::unreached(),
    }
}

/// Puts a constraint in its place by name, replacing one of the same name.
fn insert_pair(sorted: &mut Vec<(String, String)>, name: String, value: String)
    ensures
        raw_pairs(final(sorted)@) == insert(
            raw_pairs(old(sorted)@),
            (encode_utf8(name@), encode_utf8(value@)),
        ),
{
    let ghost before = raw_pairs(sorted@);
    let ghost entry: Entry = (encode_utf8(name@), encode_utf8(value@));
    let mut j: usize = sorted.len();
    assert(before.take(j as int) =~= before);
    assert(before.skip(j as int) =~= Seq::<Entry>::empty());
    while j > 0
        invariant
            j <= sorted.len(),
            sorted@ == old(sorted)@,
            before == raw_pairs(sorted@),
            entry == (encode_utf8(name@), encode_utf8(value@)),
            insert(before, entry) == insert(before.take(j as int), entry) + before.skip(j as int),
        decreases j,
    {
        let ghost prefix = before.take(j as int);
        assert(prefix.last() == before[j - 1]);
        assert(prefix.drop_last() =~= before.take(j - 1));
        assert(before[j - 1].0 == encode_utf8(sorted@[j - 1].0@));
        if bytes_eq(sorted[j - 1].0.as_str().as_bytes(), name.as_str().as_bytes()) {
            sorted.set(j - 1, (name, value));
            assert(raw_pairs(sorted@) =~= before.take(j - 1).push(entry) + before.skip(j as int));
            return;
        }
        if bytes_lt(sorted[j - 1].0.as_str().as_bytes(), name.as_str().as_bytes()) {
            sorted.insert(j, (name, value));
            assert(raw_pairs(sorted@) =~= prefix.push(entry) + before.skip(j as int));
            return;
        }
        assert(insert(before.take(j - 1), entry).push(before[j - 1]) + before.skip(j as int)
            =~= insert(before.take(j - 1), entry) + before.skip(j - 1));
        j -= 1;
    }
    sorted.insert(0, (name, value));
    assert(raw_pairs(sorted@) =~= seq![entry] + before.skip(0));
}

impl ComplianceSpec {
    /// The identity of the spec as a spec of its own: the same claim, system
    /// hash, jurisdiction, version and expiry, the constraints in the order of
    /// their names, each name once with the value that was given last, no
    /// metadata, every field disclosed. Its hash is that of the spec it was
    /// made from.
    pub fn identity(&self) -> (spec: ComplianceSpec)
        ensures
            spec.claim == self.claim,
            spec.system_hash == self.system_hash,
            spec.jurisdiction == self.jurisdiction,
            spec.version == self.version,
            spec.expiry == self.expiry,
            raw_pairs(spec.constraints@) == normalized(raw_pairs(self.constraints@)),
            strictly_sorted(raw_pairs(spec.constraints@)),
            spec.metadata@.len() == 0,
            spec.disclosed_fields is None,
            same_identity(*self, spec),
            spec.canonical_bytes() == self.canonical_bytes(),
            spec.spec_hash() == self.spec_hash(),
    {
        let ghost all = raw_pairs(self.constraints@);
        let mut sorted: Vec<(String, String)> = Vec::new();
        let mut i: usize = 0;
        assert(all.take(0) =~= Seq::<Entry>::empty());
        assert(raw_pairs(sorted@) =~= normalized(all.take(0)));
        while i < self.constraints.len()
            invariant
                i <= self.constraints.len(),
                all == raw_pairs(self.constraints@),
                raw_pairs(sorted@) == normalized(all.take(i as int)),
            decreases self.constraints.len() - i,
        {
            proof {
                assert(all.take(i + 1).drop_last() =~= all.take(i as int));
                assert(all.take(i + 1).last() == all[i as int]);
            }
            insert_pair(&mut sorted, self.constraints[i].0.clone(), self.constraints[i].1.clone());
            i += 1;
        }
        assert(all.take(self.constraints.len() as int) =~= all);
        let spec = ComplianceSpec::new(
            self.claim.clone(),
            self.system_hash.clone(),
            sorted,
            self.jurisdiction.clone(),
            self.version.clone(),
            self.expiry,
        );
        proof {
            lemma_normalized_sorted(all);
            assert forall|key: Seq<u8>| entry_value(all, key) == entry_value(
                raw_pairs(spec.constraints@),
                key,
            ) by {
                lemma_normalized_value(all, key);
            }
            lemma_hash_of_identity(*self, spec);
        }
        spec
    }

    /// The tree of the spec.
    pub fn to_value(&self) -> (tree: Value)
        ensures
            tree_of(tree, *self),
            canonical(tree) == self.canonical_bytes(),
            encodable(tree),
    {
        let mut inner: Vec<(String, Value)> = Vec::new();
        let mut i: usize = 0;
        while i < self.constraints.len()
            invariant
                i <= self.constraints.len(),
                inner@.len() == i,
                forall|k: int|
                    0 <= k < i ==> (#[trigger] inner@[k]).0@ == self.constraints@[k].0@ && (
                    inner@[k].1 matches Value::String(text) && text@ == self.constraints@[k].1@),
            decreases self.constraints.len() - i,
        {
            let name = self.constraints[i].0.clone();
            let value = Value::String(self.constraints[i].1.clone());
            inner.push((name, value));
            i += 1;
        }
        let mut outer: Vec<(String, Value)> = Vec::new();
        outer.push(("claim".to_owned(), Value::String(self.claim.clone())));
        outer.push(("constraints".to_owned(), Value::Object(inner)));
        outer.push(("expiry".to_owned(), Value::Number(decimal_text(self.expiry))));
        outer.push(("jurisdiction".to_owned(), Value::String(self.jurisdiction.clone())));
        outer.push(("system_hash".to_owned(), Value::String(self.system_hash.clone())));
        outer.push(("version".to_owned(), Value::String(self.version.clone())));
        let tree = Value::Object(outer);
        proof {
            lemma_tree_canonical(tree, *self);
        }
        tree
    }

    /// Reads a spec from its tree.
    ///
    /// A spec is read exactly from the tree of a spec: an object of the six
    /// members, in the order of their names, each of its kind, with an
    /// expiry that is a whole number of seconds in decimal. The spec read
    /// has no metadata and discloses every field.
    pub fn from_value(tree: &Value) -> (r: Option<ComplianceSpec>)
        ensures
            match r {
                Some(spec) => tree_of(*tree, spec) && spec.metadata@.len() == 0
                    && spec.disclosed_fields is None,
                None => forall|spec: ComplianceSpec| !tree_of(*tree, spec),
            },
    {
        let list = match tree {
            Value::Object(list) => list,
            _ => {
                return None;
            },
        };
        assert(*tree is Object && tree->Object_0 == *list);
        if list.len() != 6 {
            return None;
        }
        if !str_eq(list[0].0.as_str(), "claim") || !str_eq(list[1].0.as_str(), "constraints")
            || !str_eq(list[2].0.as_str(), "expiry") || !str_eq(list[3].0.as_str(), "jurisdiction")
            || !str_eq(list[4].0.as_str(), "system_hash") || !str_eq(list[5].0.as_str(), "version") {
            return None;
        }
        let claim = match &list[0].1 {
            Value::String(text) => text.clone(),
            _ => {
                return None;
            },
        };
        let pairs = match &list[1].1 {
            Value::Object(pairs) => pairs,
            _ => {
                return None;
            },
        };
        let expiry = match &list[2].1 {
            Value::Number(text) => match read_decimal(text.as_str().as_bytes()) {
                Some(n) => n,
                None => {
                    return None;
                },
            },
            _ => {
                return None;
            },
        };
        let jurisdiction = match &list[3].1 {
            Value::String(text) => text.clone(),
            _ => {
                return None;
            },
        };
        let system_hash = match &list[4].1 {
            Value::String(text) => text.clone(),
            _ => {
                return None;
            },
        };
        let version = match &list[5].1 {
            Value::String(text) => text.clone(),
            _ => {
                return None;
            },
        };
        let mut constraints: Vec<(String, String)> = Vec::new();
        let mut i: usize = 0;
        while i < pairs.len()
            invariant
                i <= pairs.len(),
                *tree is Object,
                tree->Object_0 == *list,
                list@.len() == 6,
                list@[1].1 is Object,
                list@[1].1->Object_0 == *pairs,
                constraints@.len() == i,
                forall|k: int|
                    0 <= k < i ==> (#[trigger] pairs@[k]).0@ == constraints@[k].0@ && (
                    pairs@[k].1 matches Value::String(text) && text@ == constraints@[k].1@),
            decreases pairs.len() - i,
        {
            match &pairs[i].1 {
                Value::String(text) => {
                    constraints.push((pairs[i].0.clone(), text.clone()));
                },
                _ => {
                    assert forall|spec: ComplianceSpec| !tree_of(*tree, spec) by {
                        if tree_of(*tree, spec) {
                            assert(pairs@[i as int].1 is String);
                        }
                    }
                    return None;
                },
            }
            i += 1;
        }
        Some(ComplianceSpec::new(claim, system_hash, constraints, jurisdiction, version, expiry))
    }

    /// Reads a spec from its canonical form.
    ///
    /// A spec is read exactly from bytes that are readable as a spec, and the
    /// spec read has those bytes as its canonical form. Its constraints stand
    /// in the order of their names, it has no metadata, and it discloses
    /// every field.
    pub fn from_canonical(bytes: &[u8]) -> (r: Option<ComplianceSpec>)
        ensures
            r is Some <==> readable_spec(bytes@),
            r matches Some(spec) ==> {
                &&& spec.canonical_bytes() == bytes@
                &&& strictly_sorted(raw_pairs(spec.constraints@))
                &&& spec.metadata@.len() == 0
                &&& spec.disclosed_fields is None
            },
    {
        match decode(bytes) {
            Err(_) => {
                proof {
                    if readable_spec(bytes@) {
                        let (t, s) = choose|t: Value, s: ComplianceSpec|
                            in_normal_form(t) && canonical(t) == bytes@ && #[trigger] tree_of(t, s);
                        lemma_tree_canonical(t, s);
                        assert(is_canonical(bytes@));
                    }
                }
                None
            },
            Ok(tree) => match ComplianceSpec::from_value(&tree) {
                Some(spec) => {
                    proof {
                        lemma_tree_canonical(tree, spec);
                        lemma_tree_sorted(tree, spec);
                    }
                    Some(spec)
                },
                None => {
                    proof {
                        if readable_spec(bytes@) {
                            let (t, s) = choose|t: Value, s: ComplianceSpec|
                                in_normal_form(t) && canonical(t) == bytes@ && #[trigger] tree_of(
                                    t,
                                    s,
                                );
                            lemma_tree_canonical(t, s);
                            lemma_canonical_tells_tree(t, tree);
                            lemma_tree_of_same(t, tree, s);
                        }
                    }
                    None
                },
            },
        }
    }
}

/// The bytes are readable as a spec: they are the canonical form of the tree
/// of some spec, a tree in normal form.
pub open spec fn readable_spec(bytes: Seq<u8>) -> bool {
    exists|tree: Value, spec: ComplianceSpec|
        in_normal_form(tree) && canonical(tree) == bytes && #[trigger] tree_of(tree, spec)
}

} // verus!
