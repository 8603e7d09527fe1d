//! What a checker finds depends on the canonical forms alone.
//!
//! The executor never sees the spec and the evidence that the host holds: it
//! sees their canonical forms and reads them back. The laws here say that
//! nothing a checker looks at is lost on the way, so that the executor finds
//! what a direct run finds.

use vstd::prelude::*;
use vstd::utf8::*;
use crate::canonical::{
    canonical, joined, lemma_joined_from, member, member_entries, members, normalized, quoted,
    well_formed, within_depth, Entry,
};
use crate::checker::Checker;
use crate::checkers::c2pa::{hex_member, holds_triple, passes};
use crate::compliance::ComplianceSpec;
use crate::distinct::{lemma_cancel, lemma_quoted_delimited};
use crate::normal::{
    contained, entry_value, lemma_normalized_contained, lemma_normalized_value,
};
use crate::reader::{closed, lemma_first_byte, lemma_value_end};
use crate::text::lemma_utf8_injective;
use crate::trees::lemma_member_from;
use crate::value::{lookup, Value};

verus! {

/// The canonical form of a value marks its own end: where two values, each
/// followed by something closed, give the same bytes, their canonical forms
/// are the same, and so is what follows.
pub proof fn lemma_form_delimited(a: Value, b: Value, r1: Seq<u8>, r2: Seq<u8>, budget: nat)
    requires
        well_formed(a),
        well_formed(b),
        within_depth(a, budget),
        within_depth(b, budget),
        canonical(a) + r1 == canonical(b) + r2,
        closed(r1),
        closed(r2),
    ensures
        canonical(a) == canonical(b),
        r1 == r2,
{
    let bytes = canonical(a) + r1;
    assert(bytes.skip(0) =~= bytes);
    lemma_value_end(bytes, 0, a, r1, budget);
    lemma_value_end(bytes, 0, b, r2, budget);
    let n = canonical(a).len() as int;
    assert(canonical(a) =~= bytes.take(n));
    assert(canonical(b) =~= bytes.take(n));
    assert(r1 =~= bytes.skip(n));
    assert(r2 =~= bytes.skip(n));
}

/// Entries of two objects, from the `k`-th on: written the same before a
/// closing brace, they are the same entries, as many on one side as on the
/// other.
proof fn lemma_entries_delimited(
    na: Seq<Entry>,
    nb: Seq<Entry>,
    x: Seq<(String, Value)>,
    y: Seq<(String, Value)>,
    k: int,
    r1: Seq<u8>,
    r2: Seq<u8>,
    budget: nat,
)
    requires
        0 <= k < na.len(),
        k < nb.len(),
        contained(na, member_entries(x)),
        contained(nb, member_entries(y)),
        forall|i: int| 0 <= i < x.len() ==> well_formed((#[trigger] x[i]).1),
        forall|i: int| 0 <= i < y.len() ==> well_formed((#[trigger] y[i]).1),
        forall|i: int| 0 <= i < x.len() ==> within_depth((#[trigger] x[i]).1, budget),
        forall|i: int| 0 <= i < y.len() ==> within_depth((#[trigger] y[i]).1, budget),
        joined(members(na).skip(k)) + seq![0x7du8] + r1 == joined(members(nb).skip(k)) + seq![
            0x7du8,
        ] + r2,
    ensures
        na.len() == nb.len(),
        forall|i: int| k <= i < na.len() ==> #[trigger] na[i] == nb[i],
        r1 == r2,
    decreases na.len() - k,
{
    let pa = members(na);
    let pb = members(nb);
    let ea = member_entries(x);
    let eb = member_entries(y);
    let ja = choose|j: int| 0 <= j < ea.len() && ea[j] == na[k];
    let jb = choose|j: int| 0 <= j < eb.len() && eb[j] == nb[k];
    assert(ea[ja].1 == canonical(x[ja].1));
    assert(eb[jb].1 == canonical(y[jb].1));
    assert(pa[k] == member(na[k]));
    assert(pb[k] == member(nb[k]));
    let more_a = joined(pa.skip(k + 1)) + seq![0x7du8] + r1;
    let more_b = joined(pb.skip(k + 1)) + seq![0x7du8] + r2;
    let after_a: Seq<u8> = if k == na.len() - 1 {
        seq![0x7du8] + r1
    } else {
        seq![0x2cu8] + more_a
    };
    let after_b: Seq<u8> = if k == nb.len() - 1 {
        seq![0x7du8] + r2
    } else {
        seq![0x2cu8] + more_b
    };
    lemma_member_from(pa, k, na[k].0, na[k].1, r1);
    lemma_member_from(pb, k, nb[k].0, nb[k].1, r2);
    let value_a = na[k].1 + after_a;
    let value_b = nb[k].1 + after_b;
    lemma_quoted_delimited(na[k].0, nb[k].0, seq![0x3au8] + value_a, seq![0x3au8] + value_b);
    lemma_cancel(seq![0x3au8], value_a, value_b);
    lemma_form_delimited(x[ja].1, y[jb].1, after_a, after_b, budget);
    assert(after_a[0] == after_b[0]);
    if k == na.len() - 1 {
        lemma_cancel(seq![0x7du8], r1, r2);
    } else {
        lemma_cancel(seq![0x2cu8], more_a, more_b);
        lemma_entries_delimited(na, nb, x, y, k + 1, r1, r2, budget);
    }
    assert forall|i: int| k <= i < na.len() implies #[trigger] na[i] == nb[i] by {}
}

/// Two objects with one canonical form have one normal form of their
/// entries.
proof fn lemma_object_entries(x: Seq<(String, Value)>, y: Seq<(String, Value)>, budget: nat)
    requires
        forall|i: int| 0 <= i < x.len() ==> well_formed((#[trigger] x[i]).1),
        forall|i: int| 0 <= i < y.len() ==> well_formed((#[trigger] y[i]).1),
        forall|i: int| 0 <= i < x.len() ==> within_depth((#[trigger] x[i]).1, budget),
        forall|i: int| 0 <= i < y.len() ==> within_depth((#[trigger] y[i]).1, budget),
        joined(members(normalized(member_entries(x)))) == joined(
            members(normalized(member_entries(y))),
        ),
    ensures
        normalized(member_entries(x)) == normalized(member_entries(y)),
{
    let na = normalized(member_entries(x));
    let nb = normalized(member_entries(y));
    let pa = members(na);
    let pb = members(nb);
    lemma_normalized_contained(member_entries(x));
    lemma_normalized_contained(member_entries(y));
    if na.len() == 0 || nb.len() == 0 {
        if na.len() > 0 {
            assert(pa.skip(0) =~= pa);
            lemma_joined_from(pa, 0);
            assert(pa[0] == member(na[0]));
            assert(joined(pa).len() > 0);
            assert(pb =~= Seq::<Seq<u8>>::empty());
        }
        if nb.len() > 0 {
            assert(pb.skip(0) =~= pb);
            lemma_joined_from(pb, 0);
            assert(pb[0] == member(nb[0]));
            assert(joined(pb).len() > 0);
            assert(pa =~= Seq::<Seq<u8>>::empty());
        }
        assert(na =~= nb);
    } else {
        assert(pa.skip(0) =~= pa);
        assert(pb.skip(0) =~= pb);
        lemma_entries_delimited(na, nb, x, y, 0, Seq::<u8>::empty(), Seq::<u8>::empty(), budget);
        assert(na =~= nb);
    }
}

/// What the entries of an object give to the bytes of a name is the
/// canonical form of the member of that name.
proof fn lemma_lookup_entry(list: Seq<(String, Value)>, name: Seq<char>)
    ensures
        entry_value(member_entries(list), encode_utf8(name)) == match lookup(list, name) {
            Some(v) => Some(canonical(v)),
            None => None,
        },
    decreases list.len(),
{
    if list.len() > 0 {
        let entries = member_entries(list);
        assert(entries.last() == (encode_utf8(list.last().0@), canonical(list.last().1)));
        assert(entries.drop_last() =~= member_entries(list.drop_last()));
        if encode_utf8(list.last().0@) == encode_utf8(name) {
            lemma_utf8_injective(list.last().0@, name);
        }
        lemma_lookup_entry(list.drop_last(), name);
    }
}

/// The member of a name that an object holds is among its members.
proof fn lemma_lookup_index(list: Seq<(String, Value)>, name: Seq<char>) -> (i: int)
    requires
        lookup(list, name) is Some,
    ensures
        0 <= i < list.len(),
        lookup(list, name) == Some(list[i].1),
    decreases list.len(),
{
    if list.last().0@ == name {
        list.len() - 1
    } else {
        lemma_lookup_index(list.drop_last(), name)
    }
}

/// Evidence with one canonical form holds the same bytes under every name.
pub proof fn lemma_hex_member(a: Value, b: Value, name: Seq<char>)
    requires
        well_formed(a),
        well_formed(b),
        exists|budget: nat| within_depth(a, budget) && within_depth(b, budget),
        canonical(a) == canonical(b),
    ensures
        hex_member(a, name) == hex_member(b, name),
{
    lemma_first_byte(a);
    lemma_first_byte(b);
    if a is Object {
        let budget = choose|budget: nat| within_depth(a, budget) && within_depth(b, budget);
        let x = a->Object_0@;
        let y = b->Object_0@;
        let na = normalized(member_entries(x));
        let nb = normalized(member_entries(y));
        assert(b is Object);
        assert(canonical(a) =~= seq![0x7bu8] + (joined(members(na)) + seq![0x7du8]));
        assert(canonical(b) =~= seq![0x7bu8] + (joined(members(nb)) + seq![0x7du8]));
        lemma_cancel(
            seq![0x7bu8],
            joined(members(na)) + seq![0x7du8],
            joined(members(nb)) + seq![0x7du8],
        );
        assert(joined(members(na)) =~= (joined(members(na)) + seq![0x7du8]).drop_last());
        assert(joined(members(nb)) =~= (joined(members(nb)) + seq![0x7du8]).drop_last());
        lemma_object_entries(x, y, (budget - 1) as nat);
        lemma_normalized_value(member_entries(x), encode_utf8(name));
        lemma_normalized_value(member_entries(y), encode_utf8(name));
        lemma_lookup_entry(x, name);
        lemma_lookup_entry(y, name);
        if lookup(x, name) is Some {
            let i = lemma_lookup_index(x, name);
            let j = lemma_lookup_index(y, name);
            let va = x[i].1;
            let vb = y[j].1;
            lemma_first_byte(va);
            lemma_first_byte(vb);
            if va is String {
                let ta = encode_utf8(va->String_0@);
                let tb = encode_utf8(vb->String_0@);
                assert(quoted(ta) + Seq::<u8>::empty() =~= quoted(ta));
                assert(quoted(tb) + Seq::<u8>::empty() =~= quoted(tb));
                lemma_quoted_delimited(ta, tb, Seq::<u8>::empty(), Seq::<u8>::empty());
            }
        }
    }
}

/// What a checker finds depends on the canonical forms alone: for evidence
/// with one canonical form it finds the same, whatever the spec.
pub proof fn lemma_outcome_of_form(
    checker: Checker,
    spec_a: ComplianceSpec,
    a: Value,
    spec_b: ComplianceSpec,
    b: Value,
)
    requires
        well_formed(a),
        well_formed(b),
        exists|budget: nat| within_depth(a, budget) && within_depth(b, budget),
        canonical(a) == canonical(b),
    ensures
        checker.outcome(spec_a, a) == checker.outcome(spec_b, b),
        holds_triple(a) == holds_triple(b),
        passes(a) == passes(b),
{
    lemma_hex_member(a, b, "public_key"@);
    lemma_hex_member(a, b, "message"@);
    lemma_hex_member(a, b, "signature"@);
}

} // verus!
