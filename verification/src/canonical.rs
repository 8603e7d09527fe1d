//! The canonical encoding: one byte string for each structured value,
//! whatever the order in which its objects were filled.
//!
//! The form is JSON without white space. A string is written between quotes,
//! with the quote, the backslash and the control bytes escaped. The members
//! of an object are written in the byte order of their names, each name once.
//! A number is written with the text it was given.

use vstd::prelude::*;
use vstd::utf8::*;
use crate::number::{is_number, is_number_text};
use crate::text::{append, bytes_before, bytes_eq, bytes_lt};
use crate::value::{same_tree, Value};

verus! {

/// A member of an object: the UTF-8 bytes of its name, and its value already
/// in canonical form.
pub type Entry = (Seq<u8>, Seq<u8>);

/// Objects and arrays may nest this deep and no deeper.
pub const MAX_DEPTH: usize = 128;

/// Why a value has no canonical encoding.
#[derive(Debug, Clone, Copy, PartialEq, Eq, Structural)]
pub enum EncodeError {
    /// The value nests deeper than `MAX_DEPTH`.
    TooDeep,
    /// The value holds a number whose text is no number.
    InvalidNumber,
}

/// The lower-case hex digit for a value below sixteen, as a byte.
pub open spec fn hex_digit(n: int) -> u8 {
    if n < 10 {
        (0x30 + n) as u8
    } else {
        (0x61 + n - 10) as u8
    }
}

/// How one byte of a string is written: the quote and the backslash behind a
/// backslash, backspace, tab, line feed, form feed and carriage return by
/// their letters, any other control byte as `\u00` and two hex digits, and
/// every other byte as it is.
pub open spec fn escape(b: u8) -> Seq<u8> {
    if b == 0x22 {
        seq![0x5cu8, 0x22u8]
    } else if b == 0x5c {
        seq![0x5cu8, 0x5cu8]
    } else if b == 0x08 {
        seq![0x5cu8, 0x62u8]
    } else if b == 0x09 {
        seq![0x5cu8, 0x74u8]
    } else if b == 0x0a {
        seq![0x5cu8, 0x6eu8]
    } else if b == 0x0c {
        seq![0x5cu8, 0x66u8]
    } else if b == 0x0d {
        seq![0x5cu8, 0x72u8]
    } else if b < 0x20 {
        seq![0x5cu8, 0x75u8, 0x30u8, 0x30u8, hex_digit(b as int / 16), hex_digit(b as int % 16)]
    } else {
        seq![b]
    }
}

/// The bytes of a string, each escaped.
pub open spec fn escaped(raw: Seq<u8>) -> Seq<u8>
    decreases raw.len(),
{
    if raw.len() == 0 {
        Seq::empty()
    } else {
        escape(raw[0]) + escaped(raw.drop_first())
    }
}

/// A string in canonical form: its escaped bytes between two quotes.
pub open spec fn quoted(raw: Seq<u8>) -> Seq<u8> {
    seq![0x22u8] + escaped(raw) + seq![0x22u8]
}

/// The parts one after the other, with a comma between each two.
pub open spec fn joined(parts: Seq<Seq<u8>>) -> Seq<u8>
    decreases parts.len(),
{
    if parts.len() == 0 {
        Seq::empty()
    } else if parts.len() == 1 {
        parts[0]
    } else {
        parts[0] + seq![0x2cu8] + joined(parts.drop_first())
    }
}

/// `sorted` with `entry` put in its place by name. An entry of the same name
/// is replaced.
pub open spec fn insert(sorted: Seq<Entry>, entry: Entry) -> Seq<Entry>
    decreases sorted.len(),
{
    if sorted.len() == 0 {
        seq![entry]
    } else if sorted.last().0 == entry.0 {
        sorted.drop_last().push(entry)
    } else if bytes_before(sorted.last().0, entry.0) {
        sorted.push(entry)
    } else {
        insert(sorted.drop_last(), entry).push(sorted.last())
    }
}

/// The entries in the byte order of their names, each name once, with the
/// value of its last entry.
pub open spec fn normalized(entries: Seq<Entry>) -> Seq<Entry>
    decreases entries.len(),
{
    if entries.len() == 0 {
        Seq::empty()
    } else {
        insert(normalized(entries.drop_last()), entries.last())
    }
}

/// One member as written: the quoted name, a colon, the value.
pub open spec fn member(entry: Entry) -> Seq<u8> {
    quoted(entry.0) + seq![0x3au8] + entry.1
}

/// The members as written, for entries taken in the order given.
pub open spec fn members(entries: Seq<Entry>) -> Seq<Seq<u8>> {
    Seq::new(entries.len(), |i: int| member(entries[i]))
}

/// An object in canonical form: its normalized members between braces.
pub open spec fn object_bytes(entries: Seq<Entry>) -> Seq<u8> {
    seq![0x7bu8] + joined(members(normalized(entries))) + seq![0x7du8]
}

/// An array in canonical form: its items, in their order, between brackets.
pub open spec fn array_bytes(items: Seq<Seq<u8>>) -> Seq<u8> {
    seq![0x5bu8] + joined(items) + seq![0x5du8]
}

/// The canonical form of each item of an array.
pub open spec fn item_forms(items: Seq<Value>) -> Seq<Seq<u8>>
    decreases items, 1nat,
{
    Seq::new(
        items.len(),
        |i: int| if 0 <= i < items.len() { canonical(items[i]) } else { Seq::empty() },
    )
}

/// The entries of an object: for each member the bytes of its name and the
/// canonical form of its value.
pub open spec fn member_entries(members: Seq<(String, Value)>) -> Seq<Entry>
    decreases members, 1nat,
{
    Seq::new(
        members.len(),
        |i: int| if 0 <= i < members.len() {
            (encode_utf8(members[i].0@), canonical(members[i].1))
        } else {
            (Seq::empty(), Seq::empty())
        },
    )
}

/// The canonical form of a value.
pub open spec fn canonical(v: Value) -> Seq<u8>
    decreases v, 0nat,
{
    match v {
        Value::Null => seq![0x6eu8, 0x75u8, 0x6cu8, 0x6cu8],
        Value::Bool(true) => seq![0x74u8, 0x72u8, 0x75u8, 0x65u8],
        Value::Bool(false) => seq![0x66u8, 0x61u8, 0x6cu8, 0x73u8, 0x65u8],
        Value::Number(text) => encode_utf8(text@),
        Value::String(text) => quoted(encode_utf8(text@)),
        Value::Array(items) => array_bytes(item_forms(items@)),
        Value::Object(members) => object_bytes(member_entries(members@)),
    }
}

/// The value nests no deeper than `budget`: a scalar counts one level, an
/// array or an object one level more than what it holds.
pub open spec fn within_depth(v: Value, budget: nat) -> bool
    decreases v,
{
    match v {
        Value::Array(items) => budget >= 1 && forall|i: int|
            0 <= i < items@.len() ==> within_depth(#[trigger] items@[i], (budget - 1) as nat),
        Value::Object(members) => budget >= 1 && forall|i: int|
            0 <= i < members@.len() ==> within_depth((#[trigger] members@[i]).1, (budget - 1) as nat),
        _ => budget >= 1,
    }
}

/// Every number in the value is written as a number.
pub open spec fn well_formed(v: Value) -> bool
    decreases v,
{
    match v {
        Value::Number(text) => is_number(encode_utf8(text@)),
        Value::Array(items) => forall|i: int|
            0 <= i < items@.len() ==> well_formed(#[trigger] items@[i]),
        Value::Object(members) => forall|i: int|
            0 <= i < members@.len() ==> well_formed((#[trigger] members@[i]).1),
        _ => true,
    }
}

/// The value has a canonical encoding: it nests no deeper than `MAX_DEPTH`
/// and its numbers are numbers.
pub open spec fn encodable(v: Value) -> bool {
    within_depth(v, MAX_DEPTH as nat) && well_formed(v)
}

/// One tree has one canonical form.
pub proof fn lemma_same_tree(a: Value, b: Value)
    requires
        same_tree(a, b),
    ensures
        canonical(a) == canonical(b),
    decreases a,
{
    match a {
        Value::Array(x) => {
            let y = b->Array_0;
            assert forall|i: int| 0 <= i < x@.len() implies canonical(#[trigger] x@[i]) == canonical(
                y@[i],
            ) by {
                lemma_same_tree(x@[i], y@[i]);
            }
            assert(item_forms(x@) =~= item_forms(y@));
        },
        Value::Object(x) => {
            let y = b->Object_0;
            assert forall|i: int| 0 <= i < x@.len() implies canonical((#[trigger] x@[i]).1)
                == canonical(y@[i].1) by {
                lemma_same_tree(x@[i].1, y@[i].1);
            }
            assert(member_entries(x@) =~= member_entries(y@));
        },
        _ => {},
    }
}

/// Escaping goes byte by byte.
pub proof fn lemma_escaped_push(raw: Seq<u8>, b: u8)
    ensures
        escaped(raw.push(b)) == escaped(raw) + escape(b),
    decreases raw.len(),
{
    if raw.len() == 0 {
        assert(raw.push(b)[0] == b);
        assert(raw.push(b).drop_first() =~= Seq::<u8>::empty());
        assert(escaped(raw.push(b).drop_first()) =~= Seq::<u8>::empty());
        assert(escaped(raw.push(b)) =~= escape(b));
    } else {
        assert(raw.push(b).drop_first() =~= raw.drop_first().push(b));
        lemma_escaped_push(raw.drop_first(), b);
        assert(escaped(raw.push(b)) =~= escaped(raw) + escape(b));
    }
}

/// Joining one part more puts a comma before it, unless it is the first.
pub proof fn lemma_joined_push(parts: Seq<Seq<u8>>, part: Seq<u8>)
    ensures
        joined(parts.push(part)) == if parts.len() == 0 {
            part
        } else {
            joined(parts) + seq![0x2cu8] + part
        },
    decreases parts.len(),
{
    if parts.len() == 0 {
    } else {
        assert(parts.push(part).drop_first() =~= parts.drop_first().push(part));
        lemma_joined_push(parts.drop_first(), part);
        if parts.len() == 1 {
            assert(parts.drop_first().len() == 0);
            assert(joined(parts.push(part)) =~= parts[0] + seq![0x2cu8] + part);
        } else {
            assert(joined(parts.push(part)) =~= joined(parts) + seq![0x2cu8] + part);
        }
    }
}

/// Joining the parts from the `k`-th on.
pub proof fn lemma_joined_from(parts: Seq<Seq<u8>>, k: int)
    requires
        0 <= k < parts.len(),
    ensures
        joined(parts.skip(k)) == if k == parts.len() - 1 {
            parts[k]
        } else {
            parts[k] + (seq![0x2cu8] + joined(parts.skip(k + 1)))
        },
{
    let rest = parts.skip(k);
    assert(rest[0] == parts[k]);
    assert(rest.drop_first() =~= parts.skip(k + 1));
    if k < parts.len() - 1 {
        assert(joined(rest) =~= parts[k] + (seq![0x2cu8] + joined(parts.skip(k + 1))));
    }
}

/// The lower-case hex digit for a value below sixteen.
fn hex_digit_of(n: u8) -> (d: u8)
    requires
        n < 16,
    ensures
        d == hex_digit(n as int),
{
    if n < 10 {
        0x30 + n
    } else {
        0x61 + (n - 10)
    }
}

/// Writes a string in canonical form.
pub fn write_quoted(out: &mut Vec<u8>, raw: &[u8])
    ensures
        final(out)@ == old(out)@ + quoted(raw@),
{
    out.push(0x22);
    let mut i: usize = 0;
    assert(escaped(raw@.take(0)) =~= Seq::<u8>::empty());
    while i < raw.len()
        invariant
            i <= raw.len(),
            out@ == old(out)@ + seq![0x22u8] + escaped(raw@.take(i as int)),
        decreases raw.len() - i,
    {
        let b: u8 = raw[i];
        let ghost before = out@;
        proof {
            lemma_escaped_push(raw@.take(i as int), b);
            assert(raw@.take(i + 1) =~= raw@.take(i as int).push(b));
        }
        if b == 0x22 {
            out.push(0x5c);
            out.push(0x22);
        } else if b == 0x5c {
            out.push(0x5c);
            out.push(0x5c);
        } else if b == 0x08 {
            out.push(0x5c);
            out.push(0x62);
        } else if b == 0x09 {
            out.push(0x5c);
            out.push(0x74);
        } else if b == 0x0a {
            out.push(0x5c);
            out.push(0x6e);
        } else if b == 0x0c {
            out.push(0x5c);
            out.push(0x66);
        } else if b == 0x0d {
            out.push(0x5c);
            out.push(0x72);
        } else if b < 0x20 {
            out.push(0x5c);
            out.push(0x75);
            out.push(0x30);
            out.push(0x30);
            out.push(hex_digit_of(b / 16));
            out.push(hex_digit_of(b % 16));
        } else {
            out.push(b);
        }
        assert(out@ =~= before + escape(b));
        i += 1;
    }
    assert(raw@.take(raw.len() as int) =~= raw@);
    out.push(0x22);
}

/// The entries that a list of owned pairs stands for.
pub open spec fn entries_of(pairs: Seq<(Vec<u8>, Vec<u8>)>) -> Seq<Entry> {
    Seq::new(pairs.len(), |i: int| (pairs[i].0@, pairs[i].1@))
}

/// Puts an entry in its place by name, replacing one of the same name.
fn insert_entry(sorted: &mut Vec<(Vec<u8>, Vec<u8>)>, key: Vec<u8>, value: Vec<u8>)
    ensures
        entries_of(final(sorted)@) == insert(entries_of(old(sorted)@), (key@, value@)),
{
    let ghost before = entries_of(sorted@);
    let ghost entry: Entry = (key@, value@);
    let mut j: usize = sorted.len();
    assert(before.take(j as int) =~= before);
    assert(before.skip(j as int) =~= Seq::<Entry>::empty());
    while j > 0
        invariant
            j <= sorted.len(),
            sorted@ == old(sorted)@,
            before == entries_of(sorted@),
            entry == (key@, value@),
            insert(before, entry) == insert(before.take(j as int), entry) + before.skip(j as int),
        decreases j,
    {
        let ghost prefix = before.take(j as int);
        assert(prefix.last() == before[j - 1]);
        assert(prefix.drop_last() =~= before.take(j - 1));
        assert(before[j - 1].0 == sorted@[j - 1].0@);
        if bytes_eq(sorted[j - 1].0.as_slice(), key.as_slice()) {
            sorted.set(j - 1, (key, value));
            assert(entries_of(sorted@) =~= before.take(j - 1).push(entry) + before.skip(j as int));
            return;
        }
        if bytes_lt(sorted[j - 1].0.as_slice(), key.as_slice()) {
            sorted.insert(j, (key, value));
            assert(entries_of(sorted@) =~= prefix.push(entry) + before.skip(j as int));
            return;
        }
        assert(insert(before.take(j - 1), entry).push(before[j - 1]) + before.skip(j as int)
            =~= insert(before.take(j - 1), entry) + before.skip(j - 1));
        j -= 1;
    }
    sorted.insert(0, (key, value));
    assert(entries_of(sorted@) =~= seq![entry] + before.skip(0));
}

/// Writes entries, in the order given, as the members of an object.
fn write_members(out: &mut Vec<u8>, sorted: &Vec<(Vec<u8>, Vec<u8>)>)
    ensures
        final(out)@ == old(out)@ + joined(members(entries_of(sorted@))),
{
    let ghost parts = members(entries_of(sorted@));
    let mut i: usize = 0;
    assert(parts.take(0) =~= Seq::<Seq<u8>>::empty());
    assert(out@ =~= old(out)@ + joined(parts.take(0)));
    while i < sorted.len()
        invariant
            i <= sorted.len(),
            parts == members(entries_of(sorted@)),
            out@ == old(out)@ + joined(parts.take(i as int)),
        decreases sorted.len() - i,
    {
        let ghost before = out@;
        proof {
            lemma_joined_push(parts.take(i as int), parts[i as int]);
            assert(parts.take(i + 1) =~= parts.take(i as int).push(parts[i as int]));
            assert(parts[i as int] == member((sorted@[i as int].0@, sorted@[i as int].1@)));
        }
        if i > 0 {
            out.push(0x2c);
        }
        write_quoted(out, sorted[i].0.as_slice());
        out.push(0x3a);
        append(out, sorted[i].1.as_slice());
        assert(out@ =~= before + (if i > 0 { seq![0x2cu8] } else { Seq::<u8>::empty() })
            + parts[i as int]);
        assert(out@ =~= old(out)@ + joined(parts.take(i + 1)));
        i += 1;
    }
    assert(parts.take(sorted.len() as int) =~= parts);
}

/// Writes an object in canonical form: the entries are put in normal form
/// and written between braces.
pub fn write_object(out: &mut Vec<u8>, entries: &Vec<(Vec<u8>, Vec<u8>)>)
    ensures
        final(out)@ == old(out)@ + object_bytes(entries_of(entries@)),
{
    let ghost all = entries_of(entries@);
    let mut sorted: Vec<(Vec<u8>, Vec<u8>)> = Vec::new();
    let mut i: usize = 0;
    assert(all.take(0) =~= Seq::<Entry>::empty());
    assert(entries_of(sorted@) =~= normalized(all.take(0)));
    while i < entries.len()
        invariant
            i <= entries.len(),
            all == entries_of(entries@),
            entries_of(sorted@) == normalized(all.take(i as int)),
        decreases entries.len() - i,
    {
        let mut key: Vec<u8> = Vec::new();
        append(&mut key, entries[i].0.as_slice());
        let mut value: Vec<u8> = Vec::new();
        append(&mut value, entries[i].1.as_slice());
        proof {
            assert(key@ =~= all[i as int].0);
            assert(value@ =~= all[i as int].1);
            assert(all.take(i + 1).drop_last() =~= all.take(i as int));
            assert(all.take(i + 1).last() == all[i as int]);
        }
        insert_entry(&mut sorted, key, value);
        i += 1;
    }
    assert(all.take(entries.len() as int) =~= all);
    out.push(0x7b);
    write_members(out, &sorted);
    out.push(0x7d);
    assert(out@ =~= old(out)@ + object_bytes(all));
}

/// Whether a value nests no deeper than `budget`.
fn fits(v: &Value, budget: usize) -> (ok: bool)
    ensures
        ok == within_depth(*v, budget as nat),
    decreases v,
{
    if budget == 0 {
        return false;
    }
    match v {
        Value::Array(items) => {
            let mut i: usize = 0;
            while i < items.len()
                invariant
                    i <= items.len(),
                    budget >= 1,
                    *v is Array,
                    (*v)->Array_0 == *items,
                    forall|k: int| 0 <= k < i ==> within_depth(#[trigger] items@[k], (budget - 1) as nat),
                decreases items.len() - i,
            {
                proof {
                    assert(decreases_to!(*v => (*v)->Array_0));
                    assert(decreases_to!(*items => items@));
                    assert(decreases_to!(items@ => items@[i as int]));
                }
                if !fits(&items[i], budget - 1) {
                    assert(!within_depth(items@[i as int], (budget - 1) as nat));
                    return false;
                }
                i += 1;
            }
            true
        },
        Value::Object(members) => {
            let mut i: usize = 0;
            while i < members.len()
                invariant
                    i <= members.len(),
                    budget >= 1,
                    *v is Object,
                    (*v)->Object_0 == *members,
                    forall|k: int|
                        0 <= k < i ==> within_depth((#[trigger] members@[k]).1, (budget - 1) as nat),
                decreases members.len() - i,
            {
                proof {
                    assert(decreases_to!(*v => (*v)->Object_0));
                    assert(decreases_to!(*members => members@));
                    assert(decreases_to!(members@ => members@[i as int]));
                    assert(decreases_to!(members@[i as int] => members@[i as int].1));
                }
                if !fits(&members[i].1, budget - 1) {
                    assert(!within_depth(members@[i as int].1, (budget - 1) as nat));
                    return false;
                }
                i += 1;
            }
            true
        },
        _ => true,
    }
}

/// Whether every number in a value is written as a number.
fn numbers_are_numbers(v: &Value) -> (ok: bool)
    ensures
        ok == well_formed(*v),
    decreases v,
{
    match v {
        Value::Number(text) => is_number_text(text.as_str().as_bytes()),
        Value::Array(items) => {
            let mut i: usize = 0;
            while i < items.len()
                invariant
                    i <= items.len(),
                    *v is Array,
                    (*v)->Array_0 == *items,
                    forall|k: int| 0 <= k < i ==> well_formed(#[trigger] items@[k]),
                decreases items.len() - i,
            {
                proof {
                    assert(decreases_to!(*v => (*v)->Array_0));
                    assert(decreases_to!(*items => items@));
                    assert(decreases_to!(items@ => items@[i as int]));
                }
                if !numbers_are_numbers(&items[i]) {
                    assert(!well_formed(items@[i as int]));
                    return false;
                }
                i += 1;
            }
            true
        },
        Value::Object(members) => {
            let mut i: usize = 0;
            while i < members.len()
                invariant
                    i <= members.len(),
                    *v is Object,
                    (*v)->Object_0 == *members,
                    forall|k: int| 0 <= k < i ==> well_formed((#[trigger] members@[k]).1),
                decreases members.len() - i,
            {
                proof {
                    assert(decreases_to!(*v => (*v)->Object_0));
                    assert(decreases_to!(*members => members@));
                    assert(decreases_to!(members@ => members@[i as int]));
                    assert(decreases_to!(members@[i as int] => members@[i as int].1));
                }
                if !numbers_are_numbers(&members[i].1) {
                    assert(!well_formed(members@[i as int].1));
                    return false;
                }
                i += 1;
            }
            true
        },
        _ => true,
    }
}

/// Writes a value in canonical form.
fn write_value(v: &Value, out: &mut Vec<u8>)
    ensures
        final(out)@ == old(out)@ + canonical(*v),
    decreases v,
{
    match v {
        Value::Null => {
            out.push(0x6e);
            out.push(0x75);
            out.push(0x6c);
            out.push(0x6c);
            assert(out@ =~= old(out)@ + canonical(*v));
        },
        Value::Bool(b) => {
            if *b {
                out.push(0x74);
                out.push(0x72);
                out.push(0x75);
                out.push(0x65);
            } else {
                out.push(0x66);
                out.push(0x61);
                out.push(0x6c);
                out.push(0x73);
                out.push(0x65);
            }
            assert(out@ =~= old(out)@ + canonical(*v));
        },
        Value::Number(text) => {
            append(out, text.as_str().as_bytes());
        },
        Value::String(text) => {
            write_quoted(out, text.as_str().as_bytes());
        },
        Value::Array(items) => {
            out.push(0x5b);
            let ghost forms = item_forms(items@);
            let mut i: usize = 0;
            assert(forms.take(0) =~= Seq::<Seq<u8>>::empty());
            assert(out@ =~= old(out)@ + seq![0x5bu8] + joined(forms.take(0)));
            while i < items.len()
                invariant
                    i <= items.len(),
                    *v is Array,
                    (*v)->Array_0 == *items,
                    forms == item_forms(items@),
                    out@ == old(out)@ + seq![0x5bu8] + joined(forms.take(i as int)),
                decreases items.len() - i,
            {
                let ghost before = out@;
                proof {
                    lemma_joined_push(forms.take(i as int), forms[i as int]);
                    assert(forms.take(i + 1) =~= forms.take(i as int).push(forms[i as int]));
                    assert(decreases_to!(*v => (*v)->Array_0));
                    assert(decreases_to!(*items => items@));
                    assert(decreases_to!(items@ => items@[i as int]));
                }
                if i > 0 {
                    out.push(0x2c);
                }
                write_value(&items[i], out);
                assert(out@ =~= before + (if i > 0 { seq![0x2cu8] } else { Seq::<u8>::empty() })
                    + forms[i as int]);
                assert(out@ =~= old(out)@ + seq![0x5bu8] + joined(forms.take(i + 1)));
                i += 1;
            }
            assert(forms.take(items.len() as int) =~= forms);
            out.push(0x5d);
            assert(out@ =~= old(out)@ + canonical(*v));
        },
        Value::Object(members) => {
            let ghost entries = member_entries(members@);
            let mut sorted: Vec<(Vec<u8>, Vec<u8>)> = Vec::new();
            let mut i: usize = 0;
            assert(entries.take(0) =~= Seq::<Entry>::empty());
            assert(entries_of(sorted@) =~= normalized(entries.take(0)));
            while i < members.len()
                invariant
                    i <= members.len(),
                    *v is Object,
                    (*v)->Object_0 == *members,
                    entries == member_entries(members@),
                    entries_of(sorted@) == normalized(entries.take(i as int)),
                decreases members.len() - i,
            {
                let mut key: Vec<u8> = Vec::new();
                append(&mut key, members[i].0.as_str().as_bytes());
                let mut value: Vec<u8> = Vec::new();
                proof {
                    assert(decreases_to!(*v => (*v)->Object_0));
                    assert(decreases_to!(*members => members@));
                    assert(decreases_to!(members@ => members@[i as int]));
                    assert(decreases_to!(members@[i as int] => members@[i as int].1));
                }
                write_value(&members[i].1, &mut value);
                proof {
                    assert(key@ =~= entries[i as int].0);
                    assert(value@ =~= entries[i as int].1);
                    assert(entries.take(i + 1).drop_last() =~= entries.take(i as int));
                    assert(entries.take(i + 1).last() == entries[i as int]);
                }
                insert_entry(&mut sorted, key, value);
                i += 1;
            }
            assert(entries.take(members.len() as int) =~= entries);
            out.push(0x7b);
            write_members(out, &sorted);
            out.push(0x7d);
            assert(out@ =~= old(out)@ + canonical(*v));
        },
    }
}

/// The canonical encoding of a value.
///
/// A value that nests deeper than `MAX_DEPTH` is refused, and so is one that
/// nests no deeper and holds a number whose text is no number; every other
/// value has its canonical form returned.
pub fn canonicalize(v: &Value) -> (r: Result<Vec<u8>, EncodeError>)
    ensures
        r is Ok <==> encodable(*v),
        r matches Ok(bytes) ==> bytes@ == canonical(*v),
        r matches Err(e) ==> e == if within_depth(*v, MAX_DEPTH as nat) {
            EncodeError::InvalidNumber
        } else {
            EncodeError::TooDeep
        },
{
    if !fits(v, MAX_DEPTH) {
        return Err(EncodeError::TooDeep);
    }
    if !numbers_are_numbers(v) {
        return Err(EncodeError::InvalidNumber);
    }
    let mut out: Vec<u8> = Vec::new();
    write_value(v, &mut out);
    assert(out@ =~= canonical(*v));
    Ok(out)
}

} // verus!
