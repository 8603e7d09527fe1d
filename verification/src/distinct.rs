//! Reading the canonical form back: what was written can be told from the
//! bytes, wherever the writing stops.
//!
//! Each lemma says of one kind of text that it marks its own end: if two
//! such texts, each followed by anything, give the same bytes, then the texts
//! were the same and so was what followed.

use vstd::prelude::*;
use crate::canonical::{
    escape, escaped, hex_digit, insert, joined, member, members, normalized, object_bytes, quoted,
    Entry,
};
use crate::compliance::text_entries;
use crate::decimal::{decimal, lemma_decimal_injective, lemma_decimal_plain};

verus! {

/// What follows a common beginning is the same.
pub proof fn lemma_cancel(start: Seq<u8>, x: Seq<u8>, y: Seq<u8>)
    requires
        start + x == start + y,
    ensures
        x == y,
{
    assert(x =~= (start + x).skip(start.len() as int));
    assert(y =~= (start + y).skip(start.len() as int));
}

/// The escapes of two bytes never begin alike: from the bytes written one
/// can tell which byte was escaped and where its escape ends.
pub proof fn lemma_escape_delimited(a: u8, b: u8, s: Seq<u8>, t: Seq<u8>)
    requires
        escape(a) + s == escape(b) + t,
    ensures
        a == b,
        s == t,
{
    let x = escape(a) + s;
    let y = escape(b) + t;
    assert(x[0] == escape(a)[0]);
    assert(y[0] == escape(b)[0]);
    if escape(a).len() >= 2 {
        assert(x[1] == escape(a)[1]);
    }
    if escape(b).len() >= 2 {
        assert(y[1] == escape(b)[1]);
    }
    if escape(a).len() == 6 {
        assert(x[4] == escape(a)[4]);
        assert(x[5] == escape(a)[5]);
    }
    if escape(b).len() == 6 {
        assert(y[4] == escape(b)[4]);
        assert(y[5] == escape(b)[5]);
    }
    if escape(a).len() == 6 && escape(b).len() == 6 {
        assert(hex_digit(a as int / 16) == hex_digit(b as int / 16));
        assert(hex_digit(a as int % 16) == hex_digit(b as int % 16));
        assert(a as int / 16 == b as int / 16);
        assert(a as int % 16 == b as int % 16);
    }
    assert(a == b);
    assert(s =~= x.skip(escape(a).len() as int));
    assert(t =~= y.skip(escape(b).len() as int));
}

/// Escaped text ends at the first quote that stands unescaped.
pub proof fn lemma_escaped_delimited(x: Seq<u8>, y: Seq<u8>, r1: Seq<u8>, r2: Seq<u8>)
    requires
        escaped(x) + seq![0x22u8] + r1 == escaped(y) + seq![0x22u8] + r2,
    ensures
        x == y,
        r1 == r2,
    decreases x.len(),
{
    let lhs = escaped(x) + seq![0x22u8] + r1;
    let rhs = escaped(y) + seq![0x22u8] + r2;
    if x.len() == 0 && y.len() == 0 {
        assert(x =~= y);
        assert(escaped(x) =~= Seq::<u8>::empty());
        assert(r1 =~= lhs.skip(1));
        assert(r2 =~= rhs.skip(1));
    } else if x.len() == 0 {
        assert(escaped(x) =~= Seq::<u8>::empty());
        assert(lhs[0] == 0x22);
        assert(rhs[0] == escape(y[0])[0]);
        assert(false);
    } else if y.len() == 0 {
        assert(escaped(y) =~= Seq::<u8>::empty());
        assert(rhs[0] == 0x22);
        assert(lhs[0] == escape(x[0])[0]);
        assert(false);
    } else {
        let tx = escaped(x.drop_first()) + seq![0x22u8] + r1;
        let ty = escaped(y.drop_first()) + seq![0x22u8] + r2;
        assert(lhs =~= escape(x[0]) + tx);
        assert(rhs =~= escape(y[0]) + ty);
        lemma_escape_delimited(x[0], y[0], tx, ty);
        lemma_escaped_delimited(x.drop_first(), y.drop_first(), r1, r2);
        assert(x =~= seq![x[0]] + x.drop_first());
        assert(y =~= seq![y[0]] + y.drop_first());
    }
}

/// A canonical string marks its own end.
pub proof fn lemma_quoted_delimited(x: Seq<u8>, y: Seq<u8>, r1: Seq<u8>, r2: Seq<u8>)
    requires
        quoted(x) + r1 == quoted(y) + r2,
    ensures
        x == y,
        r1 == r2,
{
    let tx = escaped(x) + seq![0x22u8] + r1;
    let ty = escaped(y) + seq![0x22u8] + r2;
    assert(quoted(x) + r1 =~= seq![0x22u8] + tx);
    assert(quoted(y) + r2 =~= seq![0x22u8] + ty);
    lemma_cancel(seq![0x22u8], tx, ty);
    lemma_escaped_delimited(x, y, r1, r2);
}

/// A text without the byte `mark` ends at the first `mark`.
pub proof fn lemma_marked(x: Seq<u8>, y: Seq<u8>, mark: u8, r1: Seq<u8>, r2: Seq<u8>)
    requires
        forall|i: int| 0 <= i < x.len() ==> x[i] != mark,
        forall|i: int| 0 <= i < y.len() ==> y[i] != mark,
        x + seq![mark] + r1 == y + seq![mark] + r2,
    ensures
        x == y,
        r1 == r2,
{
    let lhs = x + seq![mark] + r1;
    let rhs = y + seq![mark] + r2;
    if x.len() < y.len() {
        assert(lhs[x.len() as int] == mark);
        assert(rhs[x.len() as int] == y[x.len() as int]);
        assert(false);
    }
    if y.len() < x.len() {
        assert(rhs[y.len() as int] == mark);
        assert(lhs[y.len() as int] == x[y.len() as int]);
        assert(false);
    }
    assert(x =~= lhs.take(x.len() as int));
    assert(y =~= rhs.take(y.len() as int));
    assert(r1 =~= lhs.skip(x.len() as int + 1));
    assert(r2 =~= rhs.skip(y.len() as int + 1));
}

/// A number before a comma ends at the comma.
pub proof fn lemma_decimal_delimited(a: int, b: int, r1: Seq<u8>, r2: Seq<u8>)
    requires
        decimal(a) + seq![0x2cu8] + r1 == decimal(b) + seq![0x2cu8] + r2,
    ensures
        a == b,
        r1 == r2,
{
    lemma_decimal_plain(a);
    lemma_decimal_plain(b);
    lemma_marked(decimal(a), decimal(b), 0x2cu8, r1, r2);
    lemma_decimal_injective(a, b);
}

/// The members of an object of strings, as written, for pairs taken in the
/// order given.
pub open spec fn text_members(pairs: Seq<Entry>) -> Seq<u8> {
    joined(members(text_entries(pairs)))
}

/// How the members of an object of strings begin, when there is one.
pub proof fn lemma_text_members_unfold(pairs: Seq<Entry>)
    requires
        pairs.len() > 0,
    ensures
        text_members(pairs) == quoted(pairs[0].0) + (seq![0x3au8] + (quoted(pairs[0].1) + (if pairs.len()
            == 1 {
            Seq::<u8>::empty()
        } else {
            seq![0x2cu8] + text_members(pairs.drop_first())
        }))),
{
    let parts = members(text_entries(pairs));
    assert(parts[0] == member(text_entries(pairs)[0]));
    assert(parts.drop_first() =~= members(text_entries(pairs.drop_first())));
    if pairs.len() == 1 {
        assert(text_members(pairs) =~= quoted(pairs[0].0) + (seq![0x3au8] + (quoted(pairs[0].1)
            + Seq::<u8>::empty())));
    } else {
        assert(text_members(pairs) =~= quoted(pairs[0].0) + (seq![0x3au8] + (quoted(pairs[0].1) + (
        seq![0x2cu8] + text_members(pairs.drop_first())))));
    }
}

/// The members of an object of strings end at the closing brace.
pub proof fn lemma_text_members_delimited(x: Seq<Entry>, y: Seq<Entry>, r1: Seq<u8>, r2: Seq<u8>)
    requires
        text_members(x) + seq![0x7du8] + r1 == text_members(y) + seq![0x7du8] + r2,
    ensures
        x == y,
        r1 == r2,
    decreases x.len(),
{
    let lhs = text_members(x) + seq![0x7du8] + r1;
    let rhs = text_members(y) + seq![0x7du8] + r2;
    if x.len() == 0 && y.len() == 0 {
        assert(x =~= y);
        assert(text_members(x) =~= Seq::<u8>::empty());
        assert(r1 =~= lhs.skip(1));
        assert(r2 =~= rhs.skip(1));
    } else if x.len() == 0 {
        assert(text_members(x) =~= Seq::<u8>::empty());
        lemma_text_members_unfold(y);
        assert(lhs[0] == 0x7d);
        assert(rhs[0] == quoted(y[0].0)[0]);
        assert(false);
    } else if y.len() == 0 {
        assert(text_members(y) =~= Seq::<u8>::empty());
        lemma_text_members_unfold(x);
        assert(rhs[0] == 0x7d);
        assert(lhs[0] == quoted(x[0].0)[0]);
        assert(false);
    } else {
        lemma_text_members_unfold(x);
        lemma_text_members_unfold(y);
        let ex: Seq<u8> = if x.len() == 1 {
            seq![0x7du8] + r1
        } else {
            seq![0x2cu8] + (text_members(x.drop_first()) + seq![0x7du8] + r1)
        };
        let ey: Seq<u8> = if y.len() == 1 {
            seq![0x7du8] + r2
        } else {
            seq![0x2cu8] + (text_members(y.drop_first()) + seq![0x7du8] + r2)
        };
        let vx = quoted(x[0].1) + ex;
        let vy = quoted(y[0].1) + ey;
        assert(lhs =~= quoted(x[0].0) + (seq![0x3au8] + vx));
        assert(rhs =~= quoted(y[0].0) + (seq![0x3au8] + vy));
        lemma_quoted_delimited(x[0].0, y[0].0, seq![0x3au8] + vx, seq![0x3au8] + vy);
        lemma_cancel(seq![0x3au8], vx, vy);
        lemma_quoted_delimited(x[0].1, y[0].1, ex, ey);
        assert(ex[0] == ey[0]);
        if x.len() == 1 {
            assert(y.len() == 1);
            lemma_cancel(seq![0x7du8], r1, r2);
            assert(x =~= seq![x[0]]);
            assert(y =~= seq![y[0]]);
        } else {
            assert(y.len() > 1);
            lemma_cancel(
                seq![0x2cu8],
                text_members(x.drop_first()) + seq![0x7du8] + r1,
                text_members(y.drop_first()) + seq![0x7du8] + r2,
            );
            lemma_text_members_delimited(x.drop_first(), y.drop_first(), r1, r2);
            assert(x =~= seq![x[0]] + x.drop_first());
            assert(y =~= seq![y[0]] + y.drop_first());
        }
    }
}

/// Putting the values between quotes and inserting come to the same in
/// either order.
pub proof fn lemma_insert_text(sorted: Seq<Entry>, pair: Entry)
    ensures
        insert(text_entries(sorted), (pair.0, quoted(pair.1))) == text_entries(insert(sorted, pair)),
    decreases sorted.len(),
{
    let quoted_pair: Entry = (pair.0, quoted(pair.1));
    if sorted.len() == 0 {
        assert(insert(text_entries(sorted), quoted_pair) =~= text_entries(insert(sorted, pair)));
    } else {
        assert(text_entries(sorted).last() == (sorted.last().0, quoted(sorted.last().1)));
        assert(text_entries(sorted).drop_last() =~= text_entries(sorted.drop_last()));
        lemma_insert_text(sorted.drop_last(), pair);
        assert(insert(text_entries(sorted), quoted_pair) =~= text_entries(insert(sorted, pair)));
    }
}

/// Putting the values between quotes and normalizing come to the same in
/// either order.
pub proof fn lemma_normalized_text(pairs: Seq<Entry>)
    ensures
        normalized(text_entries(pairs)) == text_entries(normalized(pairs)),
    decreases pairs.len(),
{
    if pairs.len() == 0 {
        assert(normalized(text_entries(pairs)) =~= text_entries(normalized(pairs)));
    } else {
        assert(text_entries(pairs).last() == (pairs.last().0, quoted(pairs.last().1)));
        assert(text_entries(pairs).drop_last() =~= text_entries(pairs.drop_last()));
        lemma_normalized_text(pairs.drop_last());
        lemma_insert_text(normalized(pairs.drop_last()), pairs.last());
    }
}

/// An object of strings marks its own end, and its bytes tell its normal
/// form.
pub proof fn lemma_text_object_delimited(x: Seq<Entry>, y: Seq<Entry>, r1: Seq<u8>, r2: Seq<u8>)
    requires
        object_bytes(text_entries(x)) + r1 == object_bytes(text_entries(y)) + r2,
    ensures
        normalized(x) == normalized(y),
        r1 == r2,
{
    lemma_normalized_text(x);
    lemma_normalized_text(y);
    let tx = text_members(normalized(x)) + seq![0x7du8] + r1;
    let ty = text_members(normalized(y)) + seq![0x7du8] + r2;
    assert(object_bytes(text_entries(x)) + r1 =~= seq![0x7bu8] + tx);
    assert(object_bytes(text_entries(y)) + r2 =~= seq![0x7bu8] + ty);
    lemma_cancel(seq![0x7bu8], tx, ty);
    lemma_text_members_delimited(normalized(x), normalized(y), r1, r2);
}

} // verus!
