//! One canonical form, one tree.
//!
//! The canonical form of a value forgets the order in which the members of
//! its objects were written and the members that a later one overrides, and
//! nothing else: two values in normal form that are written the same are the
//! same tree.

use vstd::prelude::*;
use vstd::utf8::*;
use crate::canonical::{
    canonical, item_forms, joined, lemma_joined_from, lemma_same_tree, member, member_entries,
    members, quoted, well_formed,
};
use crate::distinct::{lemma_cancel, lemma_quoted_delimited};
use crate::normal::{in_normal_form, lemma_sorted_is_normal};
use crate::number::{is_number_byte, lemma_number_form};
use crate::reader::{closed, lemma_first_byte};
use crate::text::lemma_utf8_injective;
use crate::value::{same_tree, Value};

verus! {

/// A run of number bytes ends where something closed begins.
proof fn lemma_number_delimited(x: Seq<u8>, y: Seq<u8>, r1: Seq<u8>, r2: Seq<u8>)
    requires
        forall|i: int| 0 <= i < x.len() ==> is_number_byte(#[trigger] x[i]),
        forall|i: int| 0 <= i < y.len() ==> is_number_byte(#[trigger] y[i]),
        x + r1 == y + r2,
        closed(r1),
        closed(r2),
    ensures
        x == y,
        r1 == r2,
{
    let lhs = x + r1;
    let rhs = y + r2;
    assert(lhs.len() == x.len() + r1.len());
    assert(rhs.len() == y.len() + r2.len());
    if x.len() < y.len() {
        assert(lhs[x.len() as int] == r1[0]);
        assert(rhs[x.len() as int] == y[x.len() as int]);
        assert(false);
    }
    if y.len() < x.len() {
        assert(rhs[y.len() as int] == r2[0]);
        assert(lhs[y.len() as int] == x[y.len() as int]);
        assert(false);
    }
    assert(x =~= lhs.take(x.len() as int));
    assert(y =~= rhs.take(y.len() as int));
    assert(r1 =~= lhs.skip(x.len() as int));
    assert(r2 =~= rhs.skip(y.len() as int));
}

/// The canonical form of a value marks its own end, and tells the tree:
/// where two values in normal form, each followed by something closed, give
/// the same bytes, they are the same tree, and what follows is the same.
pub proof fn lemma_tree_delimited(a: Value, b: Value, r1: Seq<u8>, r2: Seq<u8>)
    requires
        well_formed(a),
        well_formed(b),
        in_normal_form(a),
        in_normal_form(b),
        canonical(a) + r1 == canonical(b) + r2,
        closed(r1),
        closed(r2),
    ensures
        same_tree(a, b),
        r1 == r2,
    decreases a, 0nat,
{
    let lhs = canonical(a) + r1;
    let rhs = canonical(b) + r2;
    lemma_first_byte(a);
    lemma_first_byte(b);
    assert(lhs[0] == canonical(a)[0]);
    assert(rhs[0] == canonical(b)[0]);
    match a {
        Value::Null => {
            assert(canonical(a) == canonical(b));
            lemma_cancel(canonical(a), r1, r2);
        },
        Value::Bool(_) => {
            assert(canonical(a) == canonical(b));
            lemma_cancel(canonical(a), r1, r2);
        },
        Value::Number(x) => {
            let y = b->Number_0;
            lemma_number_form(encode_utf8(x@));
            lemma_number_form(encode_utf8(y@));
            lemma_number_delimited(encode_utf8(x@), encode_utf8(y@), r1, r2);
            lemma_utf8_injective(x@, y@);
        },
        Value::String(x) => {
            let y = b->String_0;
            lemma_quoted_delimited(encode_utf8(x@), encode_utf8(y@), r1, r2);
            lemma_utf8_injective(x@, y@);
        },
        Value::Array(x) => {
            let y = b->Array_0;
            let fa = item_forms(x@);
            let fb = item_forms(y@);
            let ta = joined(fa) + seq![0x5du8] + r1;
            let tb = joined(fb) + seq![0x5du8] + r2;
            assert(lhs =~= seq![0x5bu8] + ta);
            assert(rhs =~= seq![0x5bu8] + tb);
            lemma_cancel(seq![0x5bu8], ta, tb);
            if x@.len() == 0 || y@.len() == 0 {
                if x@.len() > 0 {
                    lemma_opens(fa, x@[0]);
                    assert(joined(fb) =~= Seq::<u8>::empty());
                    assert(ta[0] == joined(fa)[0]);
                    assert(tb[0] == 0x5d);
                    assert(false);
                }
                if y@.len() > 0 {
                    lemma_opens(fb, y@[0]);
                    assert(joined(fa) =~= Seq::<u8>::empty());
                    assert(tb[0] == joined(fb)[0]);
                    assert(ta[0] == 0x5d);
                    assert(false);
                }
                assert(joined(fa) =~= Seq::<u8>::empty());
                assert(joined(fb) =~= Seq::<u8>::empty());
                lemma_cancel(seq![0x5du8], r1, r2);
                assert(ta =~= seq![0x5du8] + r1);
                assert(tb =~= seq![0x5du8] + r2);
            } else {
                assert(fa.skip(0) =~= fa);
                assert(fb.skip(0) =~= fb);
                lemma_items_delimited(x@, y@, 0, r1, r2);
            }
        },
        Value::Object(x) => {
            let y = b->Object_0;
            let ea = member_entries(x@);
            let eb = member_entries(y@);
            lemma_sorted_is_normal(ea);
            lemma_sorted_is_normal(eb);
            let pa = members(ea);
            let pb = members(eb);
            let ta = joined(pa) + seq![0x7du8] + r1;
            let tb = joined(pb) + seq![0x7du8] + r2;
            assert(lhs =~= seq![0x7bu8] + ta);
            assert(rhs =~= seq![0x7bu8] + tb);
            lemma_cancel(seq![0x7bu8], ta, tb);
            if x@.len() == 0 || y@.len() == 0 {
                if x@.len() > 0 {
                    assert(pa.skip(0) =~= pa);
                    lemma_joined_from(pa, 0);
                    assert(pa[0] == member(ea[0]));
                    assert(joined(pa)[0] == 0x22);
                    assert(joined(pb) =~= Seq::<u8>::empty());
                    assert(ta[0] == joined(pa)[0]);
                    assert(tb[0] == 0x7d);
                    assert(false);
                }
                if y@.len() > 0 {
                    assert(pb.skip(0) =~= pb);
                    lemma_joined_from(pb, 0);
                    assert(pb[0] == member(eb[0]));
                    assert(joined(pb)[0] == 0x22);
                    assert(joined(pa) =~= Seq::<u8>::empty());
                    assert(tb[0] == joined(pb)[0]);
                    assert(ta[0] == 0x7d);
                    assert(false);
                }
                assert(joined(pa) =~= Seq::<u8>::empty());
                assert(joined(pb) =~= Seq::<u8>::empty());
                assert(ta =~= seq![0x7du8] + r1);
                assert(tb =~= seq![0x7du8] + r2);
                lemma_cancel(seq![0x7du8], r1, r2);
            } else {
                assert(pa.skip(0) =~= pa);
                assert(pb.skip(0) =~= pb);
                lemma_members_delimited(x@, y@, 0, r1, r2);
            }
        },
    }
}

/// How the items of an array that is not empty begin: like the first of
/// them, and so not with the closing bracket.
proof fn lemma_opens(forms: Seq<Seq<u8>>, first: Value)
    requires
        forms.len() > 0,
        forms[0] == canonical(first),
        well_formed(first),
    ensures
        joined(forms).len() > 0,
        joined(forms)[0] == canonical(first)[0],
        joined(forms)[0] != 0x5d,
{
    lemma_first_byte(first);
    assert(forms.skip(0) =~= forms);
    lemma_joined_from(forms, 0);
}

/// The items of two arrays in normal form, from the `k`-th on: written the
/// same before a closing bracket, they are the same trees, as many on one
/// side as on the other.
proof fn lemma_items_delimited(x: Seq<Value>, y: Seq<Value>, k: int, r1: Seq<u8>, r2: Seq<u8>)
    requires
        0 <= k < x.len(),
        k < y.len(),
        forall|i: int| 0 <= i < x.len() ==> well_formed(#[trigger] x[i]),
        forall|i: int| 0 <= i < y.len() ==> well_formed(#[trigger] y[i]),
        forall|i: int| 0 <= i < x.len() ==> in_normal_form(#[trigger] x[i]),
        forall|i: int| 0 <= i < y.len() ==> in_normal_form(#[trigger] y[i]),
        joined(item_forms(x).skip(k)) + seq![0x5du8] + r1 == joined(item_forms(y).skip(k)) + seq![
            0x5du8,
        ] + r2,
    ensures
        x.len() == y.len(),
        forall|i: int| k <= i < x.len() ==> same_tree(#[trigger] x[i], y[i]),
        r1 == r2,
    decreases x, x.len() - k,
{
    let fa = item_forms(x);
    let fb = item_forms(y);
    lemma_joined_from(fa, k);
    lemma_joined_from(fb, k);
    let more_a = joined(fa.skip(k + 1)) + seq![0x5du8] + r1;
    let more_b = joined(fb.skip(k + 1)) + seq![0x5du8] + r2;
    let after_a: Seq<u8> = if k == x.len() - 1 {
        seq![0x5du8] + r1
    } else {
        seq![0x2cu8] + more_a
    };
    let after_b: Seq<u8> = if k == y.len() - 1 {
        seq![0x5du8] + r2
    } else {
        seq![0x2cu8] + more_b
    };
    assert(joined(fa.skip(k)) + seq![0x5du8] + r1 =~= canonical(x[k]) + after_a);
    assert(joined(fb.skip(k)) + seq![0x5du8] + r2 =~= canonical(y[k]) + after_b);
    lemma_tree_delimited(x[k], y[k], after_a, after_b);
    assert(after_a[0] == after_b[0]);
    if k == x.len() - 1 {
        lemma_cancel(seq![0x5du8], r1, r2);
    } else {
        lemma_cancel(seq![0x2cu8], more_a, more_b);
        lemma_items_delimited(x, y, k + 1, r1, r2);
    }
    assert forall|i: int| k <= i < x.len() implies same_tree(#[trigger] x[i], y[i]) by {}
}

/// The members of an object from the `k`-th on, before the closing brace: the
/// quoted name, a colon, the value, and what follows.
pub proof fn lemma_member_from(parts: Seq<Seq<u8>>, k: int, name: Seq<u8>, form: Seq<u8>, rest: Seq<u8>)
    requires
        0 <= k < parts.len(),
        parts[k] == member((name, form)),
    ensures
        joined(parts.skip(k)) + seq![0x7du8] + rest == quoted(name) + (seq![0x3au8] + (form + (
        if k == parts.len() - 1 {
            seq![0x7du8] + rest
        } else {
            seq![0x2cu8] + (joined(parts.skip(k + 1)) + seq![0x7du8] + rest)
        }))),
{
    lemma_joined_from(parts, k);
    assert(joined(parts.skip(k)) + seq![0x7du8] + rest =~= quoted(name) + (seq![0x3au8] + (form + (
    if k == parts.len() - 1 {
        seq![0x7du8] + rest
    } else {
        seq![0x2cu8] + (joined(parts.skip(k + 1)) + seq![0x7du8] + rest)
    }))));
}

/// The members of two objects in normal form, from the `k`-th on: written
/// the same before a closing brace, they have the same names and are the
/// same trees, as many on one side as on the other.
proof fn lemma_members_delimited(
    x: Seq<(String, Value)>,
    y: Seq<(String, Value)>,
    k: int,
    r1: Seq<u8>,
    r2: Seq<u8>,
)
    requires
        0 <= k < x.len(),
        k < y.len(),
        forall|i: int| 0 <= i < x.len() ==> well_formed((#[trigger] x[i]).1),
        forall|i: int| 0 <= i < y.len() ==> well_formed((#[trigger] y[i]).1),
        forall|i: int| 0 <= i < x.len() ==> in_normal_form((#[trigger] x[i]).1),
        forall|i: int| 0 <= i < y.len() ==> in_normal_form((#[trigger] y[i]).1),
        joined(members(member_entries(x)).skip(k)) + seq![0x7du8] + r1 == joined(
            members(member_entries(y)).skip(k),
        ) + seq![0x7du8] + r2,
    ensures
        x.len() == y.len(),
        forall|i: int|
            k <= i < x.len() ==> (#[trigger] x[i]).0@ == y[i].0@ && same_tree(x[i].1, y[i].1),
        r1 == r2,
    decreases x, x.len() - k,
{
    let pa = members(member_entries(x));
    let pb = members(member_entries(y));
    let name_a = encode_utf8(x[k].0@);
    let name_b = encode_utf8(y[k].0@);
    assert(pa[k] == member((name_a, canonical(x[k].1))));
    assert(pb[k] == member((name_b, canonical(y[k].1))));
    let more_a = joined(pa.skip(k + 1)) + seq![0x7du8] + r1;
    let more_b = joined(pb.skip(k + 1)) + seq![0x7du8] + r2;
    let after_a: Seq<u8> = if k == x.len() - 1 {
        seq![0x7du8] + r1
    } else {
        seq![0x2cu8] + more_a
    };
    let after_b: Seq<u8> = if k == y.len() - 1 {
        seq![0x7du8] + r2
    } else {
        seq![0x2cu8] + more_b
    };
    let value_a = canonical(x[k].1) + after_a;
    let value_b = canonical(y[k].1) + after_b;
    lemma_member_from(pa, k, name_a, canonical(x[k].1), r1);
    lemma_member_from(pb, k, name_b, canonical(y[k].1), r2);
    lemma_quoted_delimited(name_a, name_b, seq![0x3au8] + value_a, seq![0x3au8] + value_b);
    lemma_utf8_injective(x[k].0@, y[k].0@);
    lemma_cancel(seq![0x3au8], value_a, value_b);
    lemma_tree_delimited(x[k].1, y[k].1, after_a, after_b);
    assert(after_a[0] == after_b[0]);
    if k == x.len() - 1 {
        lemma_cancel(seq![0x7du8], r1, r2);
    } else {
        lemma_cancel(seq![0x2cu8], more_a, more_b);
        lemma_members_delimited(x, y, k + 1, r1, r2);
    }
    assert forall|i: int| k <= i < x.len() implies (#[trigger] x[i]).0@ == y[i].0@ && same_tree(
        x[i].1,
        y[i].1,
    ) by {}
}

/// Two values in normal form have the same canonical form exactly when they
/// are the same tree.
pub proof fn lemma_canonical_tells_tree(a: Value, b: Value)
    requires
        well_formed(a),
        well_formed(b),
        in_normal_form(a),
        in_normal_form(b),
    ensures
        canonical(a) == canonical(b) <==> same_tree(a, b),
{
    if same_tree(a, b) {
        lemma_same_tree(a, b);
    }
    if canonical(a) == canonical(b) {
        lemma_tree_delimited(a, b, Seq::<u8>::empty(), Seq::<u8>::empty());
    }
}

} // verus!
