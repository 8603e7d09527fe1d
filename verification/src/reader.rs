//! Reading the canonical form: from bytes back to a value.

use vstd::prelude::*;
use vstd::utf8::*;
use crate::canonical::{
    canonical, canonicalize, encodable, escape, escaped, hex_digit, item_forms, joined, lemma_joined_from,
    lemma_joined_push, member, member_entries, members, normalized, quoted, well_formed,
    within_depth, EncodeError, Entry, MAX_DEPTH,
};
use crate::normal::{
    contained, in_normal_form, lemma_normalized_contained, lemma_normalized_sorted, lemma_sorted_is_normal,
    lemma_sorted_push, strictly_sorted,
};
use crate::number::{
    is_digit, is_number, is_number_byte, is_number_text, lemma_number_form, number_byte,
};
use crate::text::{bytes_before, bytes_lt, string_from_utf8};
use crate::value::Value;

verus! {

/// The value of a lower-case hex digit.
pub open spec fn lower_hex_value(b: u8) -> Option<int> {
    if 0x30 <= b <= 0x39 {
        Some(b - 0x30)
    } else if 0x61 <= b <= 0x66 {
        Some(b - 0x61 + 10)
    } else {
        None
    }
}

/// The byte whose escape stands at `pos`, with the length of that escape;
/// nothing where no escape stands: at the end, at a quote, at a control byte,
/// at a backslash that no escape follows, and at the long form of a byte that
/// has a short one.
pub open spec fn unit_at(bytes: Seq<u8>, pos: int) -> Option<(u8, int)> {
    if pos < 0 || pos >= bytes.len() {
        None
    } else if bytes[pos] == 0x22 {
        None
    } else if bytes[pos] != 0x5c {
        if bytes[pos] >= 0x20 {
            Some((bytes[pos], 1))
        } else {
            None
        }
    } else if pos + 1 >= bytes.len() {
        None
    } else if bytes[pos + 1] == 0x22 {
        Some((0x22u8, 2))
    } else if bytes[pos + 1] == 0x5c {
        Some((0x5cu8, 2))
    } else if bytes[pos + 1] == 0x62 {
        Some((0x08u8, 2))
    } else if bytes[pos + 1] == 0x74 {
        Some((0x09u8, 2))
    } else if bytes[pos + 1] == 0x6e {
        Some((0x0au8, 2))
    } else if bytes[pos + 1] == 0x66 {
        Some((0x0cu8, 2))
    } else if bytes[pos + 1] == 0x72 {
        Some((0x0du8, 2))
    } else if bytes[pos + 1] == 0x75 && pos + 5 < bytes.len() && bytes[pos + 2] == 0x30 && bytes[pos
        + 3] == 0x30 && (bytes[pos + 4] == 0x30 || bytes[pos + 4] == 0x31) && lower_hex_value(
        bytes[pos + 5],
    ) is Some {
        let c = 16 * (bytes[pos + 4] - 0x30) + lower_hex_value(bytes[pos + 5]).unwrap();
        if c == 0x08 || c == 0x09 || c == 0x0a || c == 0x0c || c == 0x0d {
            None
        } else {
            Some((c as u8, 6))
        }
    } else {
        None
    }
}

/// What is read as the escape of a byte is the escape of that byte.
pub proof fn lemma_unit_sound(bytes: Seq<u8>, pos: int)
    requires
        unit_at(bytes, pos) is Some,
    ensures
        ({
            let (b, n) = unit_at(bytes, pos).unwrap();
            &&& n == escape(b).len()
            &&& pos + n <= bytes.len()
            &&& bytes.subrange(pos, pos + n) == escape(b)
        }),
{
    let (b, n) = unit_at(bytes, pos).unwrap();
    let part = bytes.subrange(pos, pos + n);
    assert(part[0] == bytes[pos]);
    if n >= 2 {
        assert(part[1] == bytes[pos + 1]);
    }
    if n == 6 {
        assert(part[2] == bytes[pos + 2]);
        assert(part[3] == bytes[pos + 3]);
        assert(part[4] == bytes[pos + 4]);
        assert(part[5] == bytes[pos + 5]);
        assert(b as int / 16 == bytes[pos + 4] - 0x30);
        assert(b as int % 16 == lower_hex_value(bytes[pos + 5]).unwrap());
        assert(hex_digit(b as int / 16) == bytes[pos + 4]);
        assert(hex_digit(b as int % 16) == bytes[pos + 5]);
    }
    assert(part =~= escape(b));
}

/// Where the escape of a byte stands, that byte is read.
pub proof fn lemma_unit_complete(bytes: Seq<u8>, pos: int, b: u8, rest: Seq<u8>)
    requires
        0 <= pos <= bytes.len(),
        bytes.skip(pos) == escape(b) + rest,
    ensures
        unit_at(bytes, pos) == Some((b, escape(b).len() as int)),
{
    let tail = bytes.skip(pos);
    let unit = escape(b);
    assert(tail.len() == unit.len() + rest.len());
    assert(tail[0] == unit[0]);
    assert(tail[0] == bytes[pos]);
    if unit.len() >= 2 {
        assert(tail[1] == unit[1]);
        assert(tail[1] == bytes[pos + 1]);
    }
    if unit.len() == 6 {
        assert(tail[2] == unit[2] && tail[2] == bytes[pos + 2]);
        assert(tail[3] == unit[3] && tail[3] == bytes[pos + 3]);
        assert(tail[4] == unit[4] && tail[4] == bytes[pos + 4]);
        assert(tail[5] == unit[5] && tail[5] == bytes[pos + 5]);
        assert(bytes[pos + 4] - 0x30 == b as int / 16);
        assert(lower_hex_value(bytes[pos + 5]) == Some(b as int % 16));
    }
}

/// Where the text that begins at `pos` ends: the place of the first quote
/// that is not part of an escape. Nothing where the bytes run out first, or
/// hold something that is no escape.
pub open spec fn text_end(bytes: Seq<u8>, pos: int) -> Option<int>
    decreases bytes.len() - pos,
{
    if pos < 0 || pos >= bytes.len() {
        None
    } else if bytes[pos] == 0x22 {
        Some(pos)
    } else {
        match unit_at(bytes, pos) {
            Some((_, n)) => text_end(bytes, pos + n),
            None => None,
        }
    }
}

/// The bytes that the text beginning at `pos` stands for.
pub open spec fn text_raw(bytes: Seq<u8>, pos: int) -> Seq<u8>
    decreases bytes.len() - pos,
{
    if pos < 0 || pos >= bytes.len() || bytes[pos] == 0x22 {
        Seq::empty()
    } else {
        match unit_at(bytes, pos) {
            Some((b, n)) => seq![b] + text_raw(bytes, pos + n),
            None => Seq::empty(),
        }
    }
}

/// What is read as a text is the escaped form of the bytes read from it.
pub proof fn lemma_text_sound(bytes: Seq<u8>, pos: int)
    requires
        text_end(bytes, pos) is Some,
    ensures
        ({
            let end = text_end(bytes, pos).unwrap();
            &&& pos <= end < bytes.len()
            &&& bytes[end] == 0x22
            &&& bytes.subrange(pos, end) == escaped(text_raw(bytes, pos))
        }),
    decreases bytes.len() - pos,
{
    let end = text_end(bytes, pos).unwrap();
    if bytes[pos] == 0x22 {
        assert(bytes.subrange(pos, end) =~= escaped(text_raw(bytes, pos)));
    } else {
        let (b, n) = unit_at(bytes, pos).unwrap();
        lemma_unit_sound(bytes, pos);
        lemma_text_sound(bytes, pos + n);
        let raw = text_raw(bytes, pos);
        assert(raw[0] == b);
        assert(raw.drop_first() =~= text_raw(bytes, pos + n));
        assert(bytes.subrange(pos, end) =~= bytes.subrange(pos, pos + n) + bytes.subrange(
            pos + n,
            end,
        ));
    }
}

/// Where an escaped text stands before a quote, that text is read, up to
/// that quote.
pub proof fn lemma_text_complete(bytes: Seq<u8>, pos: int, raw: Seq<u8>, rest: Seq<u8>)
    requires
        0 <= pos <= bytes.len(),
        bytes.skip(pos) == escaped(raw) + seq![0x22u8] + rest,
    ensures
        text_end(bytes, pos) == Some(pos + escaped(raw).len()),
        text_raw(bytes, pos) == raw,
    decreases raw.len(),
{
    let tail = bytes.skip(pos);
    assert(tail.len() == bytes.len() - pos);
    assert(tail.len() == escaped(raw).len() + 1 + rest.len());
    if raw.len() == 0 {
        assert(escaped(raw) =~= Seq::<u8>::empty());
        assert(tail[0] == 0x22);
        assert(tail[0] == bytes[pos]);
        assert(text_raw(bytes, pos) =~= raw);
    } else {
        let after = escaped(raw.drop_first()) + seq![0x22u8] + rest;
        assert(tail =~= escape(raw[0]) + after);
        assert(tail[0] == escape(raw[0])[0]);
        assert(tail[0] == bytes[pos]);
        lemma_unit_complete(bytes, pos, raw[0], after);
        let n = escape(raw[0]).len() as int;
        assert(bytes.skip(pos + n) =~= tail.skip(n));
        assert(tail.skip(n) =~= after);
        lemma_text_complete(bytes, pos + n, raw.drop_first(), rest);
        assert(raw =~= seq![raw[0]] + raw.drop_first());
    }
}

/// The value of a lower-case hex digit.
fn lower_hex(b: u8) -> (r: Option<u8>)
    ensures
        match r {
            Some(v) => lower_hex_value(b) == Some(v as int),
            None => lower_hex_value(b) is None,
        },
{
    if 0x30 <= b && b <= 0x39 {
        Some(b - 0x30)
    } else if 0x61 <= b && b <= 0x66 {
        Some(b - 0x61 + 10)
    } else {
        None
    }
}

/// Reads the escape of one byte.
fn read_unit(bytes: &[u8], pos: usize) -> (r: Option<(u8, usize)>)
    ensures
        match r {
            Some((b, n)) => unit_at(bytes@, pos as int) == Some((b, n as int)) && 1 <= n <= 6 && pos
                + n <= bytes.len(),
            None => unit_at(bytes@, pos as int) is None,
        },
{
    if pos >= bytes.len() {
        return None;
    }
    let b0 = bytes[pos];
    if b0 == 0x22 {
        return None;
    }
    if b0 != 0x5c {
        if b0 >= 0x20 {
            return Some((b0, 1));
        }
        return None;
    }
    if bytes.len() - pos < 2 {
        return None;
    }
    let b1 = bytes[pos + 1];
    if b1 == 0x22 {
        Some((0x22, 2))
    } else if b1 == 0x5c {
        Some((0x5c, 2))
    } else if b1 == 0x62 {
        Some((0x08, 2))
    } else if b1 == 0x74 {
        Some((0x09, 2))
    } else if b1 == 0x6e {
        Some((0x0a, 2))
    } else if b1 == 0x66 {
        Some((0x0c, 2))
    } else if b1 == 0x72 {
        Some((0x0d, 2))
    } else if b1 == 0x75 {
        if bytes.len() - pos < 6 {
            return None;
        }
        if bytes[pos + 2] != 0x30 || bytes[pos + 3] != 0x30 {
            return None;
        }
        let high = bytes[pos + 4];
        if high != 0x30 && high != 0x31 {
            return None;
        }
        match lower_hex(bytes[pos + 5]) {
            Some(low) => {
                let c: u8 = 16 * (high - 0x30) + low;
                if c == 0x08 || c == 0x09 || c == 0x0a || c == 0x0c || c == 0x0d {
                    None
                } else {
                    Some((c, 6))
                }
            },
            None => None,
        }
    } else {
        None
    }
}

/// Reads a text up to its closing quote: the bytes it stands for, and the
/// place of the quote.
fn read_text(bytes: &[u8], start: usize) -> (r: Option<(Vec<u8>, usize)>)
    ensures
        match r {
            Some((raw, end)) => {
                &&& text_end(bytes@, start as int) == Some(end as int)
                &&& raw@ == text_raw(bytes@, start as int)
                &&& start <= end < bytes.len()
            },
            None => text_end(bytes@, start as int) is None,
        },
{
    let mut raw: Vec<u8> = Vec::new();
    let mut pos: usize = start;
    loop
        invariant
            start <= pos,
            text_end(bytes@, start as int) == text_end(bytes@, pos as int),
            text_raw(bytes@, start as int) == raw@ + text_raw(bytes@, pos as int),
        decreases bytes.len() - pos,
    {
        if pos >= bytes.len() {
            return None;
        }
        if bytes[pos] == 0x22 {
            assert(raw@ + text_raw(bytes@, pos as int) =~= raw@);
            return Some((raw, pos));
        }
        match read_unit(bytes, pos) {
            None => {
                return None;
            },
            Some((b, n)) => {
                let ghost before = raw@;
                raw.push(b);
                assert(before + (seq![b] + text_raw(bytes@, pos + n)) =~= raw@ + text_raw(
                    bytes@,
                    pos + n,
                ));
                pos = pos + n;
            },
        }
    }
}

/// Where the run of number bytes that begins at `pos` ends.
pub open spec fn number_end(bytes: Seq<u8>, pos: int) -> int
    decreases bytes.len() - pos,
{
    if pos < 0 || pos >= bytes.len() || !is_number_byte(bytes[pos]) {
        pos
    } else {
        number_end(bytes, pos + 1)
    }
}

/// Where the value that begins at `pos` ends, if a value in canonical form
/// that nests no deeper than `budget` begins there.
pub open spec fn value_end(bytes: Seq<u8>, pos: int, budget: nat) -> Option<int>
    decreases budget, bytes.len() - pos, 1nat,
{
    if budget == 0 || pos < 0 || pos >= bytes.len() {
        None
    } else if bytes[pos] == 0x6e {
        if pos + 4 <= bytes.len() && bytes[pos + 1] == 0x75 && bytes[pos + 2] == 0x6c && bytes[pos
            + 3] == 0x6c {
            Some(pos + 4)
        } else {
            None
        }
    } else if bytes[pos] == 0x74 {
        if pos + 4 <= bytes.len() && bytes[pos + 1] == 0x72 && bytes[pos + 2] == 0x75 && bytes[pos
            + 3] == 0x65 {
            Some(pos + 4)
        } else {
            None
        }
    } else if bytes[pos] == 0x66 {
        if pos + 5 <= bytes.len() && bytes[pos + 1] == 0x61 && bytes[pos + 2] == 0x6c && bytes[pos
            + 3] == 0x73 && bytes[pos + 4] == 0x65 {
            Some(pos + 5)
        } else {
            None
        }
    } else if bytes[pos] == 0x22 {
        match text_end(bytes, pos + 1) {
            Some(quote) => if valid_utf8(text_raw(bytes, pos + 1)) {
                Some(quote + 1)
            } else {
                None
            },
            None => None,
        }
    } else if bytes[pos] == 0x5b {
        array_end(bytes, pos, budget)
    } else if bytes[pos] == 0x7b {
        object_end(bytes, pos, budget)
    } else if is_digit(bytes[pos]) || bytes[pos] == 0x2d {
        let end = number_end(bytes, pos);
        if is_number(bytes.subrange(pos, end)) && valid_utf8(bytes.subrange(pos, end)) {
            Some(end)
        } else {
            None
        }
    } else {
        None
    }
}

/// Where the array that begins at `pos` ends.
pub open spec fn array_end(bytes: Seq<u8>, pos: int, budget: nat) -> Option<int>
    decreases budget, bytes.len() - pos, 0nat,
{
    if budget == 0 || pos < 0 || pos + 1 >= bytes.len() {
        None
    } else if bytes[pos + 1] == 0x5d {
        Some(pos + 2)
    } else {
        items_end(bytes, pos + 1, (budget - 1) as nat)
    }
}

/// Where the array ends whose next item begins at `pos`.
pub open spec fn items_end(bytes: Seq<u8>, pos: int, budget: nat) -> Option<int>
    decreases budget, bytes.len() - pos, 2nat,
{
    match value_end(bytes, pos, budget) {
        None => None,
        Some(end) => if end <= pos || end >= bytes.len() {
            None
        } else if bytes[end] == 0x2c {
            items_end(bytes, end + 1, budget)
        } else if bytes[end] == 0x5d {
            Some(end + 1)
        } else {
            None
        },
    }
}

/// Where the object that begins at `pos` ends.
pub open spec fn object_end(bytes: Seq<u8>, pos: int, budget: nat) -> Option<int>
    decreases budget, bytes.len() - pos, 0nat,
{
    if budget == 0 || pos < 0 || pos + 1 >= bytes.len() {
        None
    } else if bytes[pos + 1] == 0x7d {
        Some(pos + 2)
    } else {
        members_end(bytes, pos + 1, (budget - 1) as nat, None)
    }
}

/// Where the object ends whose next member begins at `pos`, the member
/// before it having had the name `previous`. The names must rise.
pub open spec fn members_end(
    bytes: Seq<u8>,
    pos: int,
    budget: nat,
    previous: Option<Seq<u8>>,
) -> Option<int>
    decreases budget, bytes.len() - pos, 2nat,
{
    if pos < 0 || pos >= bytes.len() || bytes[pos] != 0x22 {
        None
    } else {
        match text_end(bytes, pos + 1) {
            None => None,
            Some(quote) => {
                let name = text_raw(bytes, pos + 1);
                if quote <= pos || quote + 1 >= bytes.len() || bytes[quote + 1] != 0x3a
                    || !valid_utf8(name) || (previous is Some && !bytes_before(
                    previous.unwrap(),
                    name,
                )) {
                    None
                } else {
                    match value_end(bytes, quote + 2, budget) {
                        None => None,
                        Some(end) => if end <= quote + 2 || end >= bytes.len() {
                            None
                        } else if bytes[end] == 0x2c {
                            members_end(bytes, end + 1, budget, Some(name))
                        } else if bytes[end] == 0x7d {
                            Some(end + 1)
                        } else {
                            None
                        },
                    }
                }
            },
        }
    }
}

/// What a reading function owes: it reads a value exactly where `wanted`
/// says that one ends, and the value it reads is written as the bytes it was
/// read from, holds numbers only where it says so, nests no deeper than
/// `budget`, and is in normal form.
pub open spec fn reads(
    bytes: Seq<u8>,
    pos: int,
    budget: nat,
    wanted: Option<int>,
    r: Option<(Value, usize)>,
) -> bool {
    match r {
        Some((v, end)) => {
            &&& wanted == Some(end as int)
            &&& pos < end <= bytes.len()
            &&& bytes.subrange(pos, end as int) == canonical(v)
            &&& well_formed(v)
            &&& within_depth(v, budget)
            &&& in_normal_form(v)
        },
        None => wanted is None,
    }
}

/// Reads the value that begins at `pos`.
fn read_value(bytes: &[u8], pos: usize, budget: usize) -> (r: Option<(Value, usize)>)
    ensures
        reads(bytes@, pos as int, budget as nat, value_end(bytes@, pos as int, budget as nat), r),
    decreases budget, bytes.len() - pos, 1nat,
{
    if budget == 0 || pos >= bytes.len() {
        return None;
    }
    let b = bytes[pos];
    let left = bytes.len() - pos;
    if b == 0x6e {
        if left >= 4 && bytes[pos + 1] == 0x75 && bytes[pos + 2] == 0x6c && bytes[pos + 3] == 0x6c {
            assert(bytes@.subrange(pos as int, pos + 4) =~= canonical(Value::Null));
            Some((Value::Null, pos + 4))
        } else {
            None
        }
    } else if b == 0x74 {
        if left >= 4 && bytes[pos + 1] == 0x72 && bytes[pos + 2] == 0x75 && bytes[pos + 3] == 0x65 {
            assert(bytes@.subrange(pos as int, pos + 4) =~= canonical(Value::Bool(true)));
            Some((Value::Bool(true), pos + 4))
        } else {
            None
        }
    } else if b == 0x66 {
        if left >= 5 && bytes[pos + 1] == 0x61 && bytes[pos + 2] == 0x6c && bytes[pos + 3] == 0x73
            && bytes[pos + 4] == 0x65 {
            assert(bytes@.subrange(pos as int, pos + 5) =~= canonical(Value::Bool(false)));
            Some((Value::Bool(false), pos + 5))
        } else {
            None
        }
    } else if b == 0x22 {
        match read_text(bytes, pos + 1) {
            None => None,
            Some((raw, quote)) => {
                let ghost raw_bytes = raw@;
                match string_from_utf8(raw) {
                    None => None,
                    Some(text) => {
                        proof {
                            lemma_text_sound(bytes@, pos + 1);
                            assert(bytes@.subrange(pos as int, quote + 1) =~= seq![0x22u8]
                                + bytes@.subrange(pos + 1, quote as int) + seq![0x22u8]);
                        }
                        Some((Value::String(text), quote + 1))
                    },
                }
            },
        }
    } else if b == 0x5b {
        read_array(bytes, pos, budget)
    } else if b == 0x7b {
        read_object(bytes, pos, budget)
    } else if (0x30 <= b && b <= 0x39) || b == 0x2d {
        let mut text: Vec<u8> = Vec::new();
        let mut end: usize = pos;
        assert(bytes@.subrange(pos as int, pos as int) =~= Seq::<u8>::empty());
        while end < bytes.len() && number_byte(bytes[end])
            invariant
                pos <= end <= bytes.len(),
                number_end(bytes@, pos as int) == number_end(bytes@, end as int),
                text@ == bytes@.subrange(pos as int, end as int),
            decreases bytes.len() - end,
        {
            text.push(bytes[end]);
            assert(bytes@.subrange(pos as int, end + 1) =~= bytes@.subrange(
                pos as int,
                end as int,
            ).push(bytes@[end as int]));
            end = end + 1;
        }
        assert(end > pos);
        if !is_number_text(text.as_slice()) {
            return None;
        }
        match string_from_utf8(text) {
            None => None,
            Some(number) => Some((Value::Number(number), end)),
        }
    } else {
        None
    }
}

/// Reads the array that begins at `pos`.
fn read_array(bytes: &[u8], pos: usize, budget: usize) -> (r: Option<(Value, usize)>)
    requires
        pos < bytes.len(),
        bytes@[pos as int] == 0x5b,
        budget >= 1,
    ensures
        reads(bytes@, pos as int, budget as nat, array_end(bytes@, pos as int, budget as nat), r),
    decreases budget, bytes.len() - pos, 0nat,
{
    if bytes.len() - pos < 2 {
        return None;
    }
    if bytes[pos + 1] == 0x5d {
        let v = Value::Array(Vec::new());
        proof {
            assert(item_forms(v->Array_0@) =~= Seq::<Seq<u8>>::empty());
            assert(bytes@.subrange(pos as int, pos + 2) =~= canonical(v));
        }
        return Some((v, pos + 2));
    }
    let mut items: Vec<Value> = Vec::new();
    let mut cur: usize = pos + 1;
    assert(bytes@.subrange(pos + 1, cur as int) =~= Seq::<u8>::empty());
    loop
        invariant
            pos < cur <= bytes.len(),
            budget >= 1,
            bytes@[pos as int] == 0x5b,
            array_end(bytes@, pos as int, budget as nat) == items_end(
                bytes@,
                cur as int,
                (budget - 1) as nat,
            ),
            bytes@.subrange(pos + 1, cur as int) == if items@.len() == 0 {
                Seq::<u8>::empty()
            } else {
                joined(item_forms(items@)) + seq![0x2cu8]
            },
            forall|k: int| 0 <= k < items@.len() ==> well_formed(#[trigger] items@[k]),
            forall|k: int| 0 <= k < items@.len() ==> in_normal_form(#[trigger] items@[k]),
            forall|k: int|
                0 <= k < items@.len() ==> within_depth(#[trigger] items@[k], (budget - 1) as nat),
        decreases bytes.len() - cur,
    {
        match read_value(bytes, cur, budget - 1) {
            None => {
                return None;
            },
            Some((v, end)) => {
                if end >= bytes.len() {
                    return None;
                }
                let mark = bytes[end];
                if mark != 0x2c && mark != 0x5d {
                    return None;
                }
                let ghost before = items@;
                let ghost form = canonical(v);
                items.push(v);
                proof {
                    assert(item_forms(items@) =~= item_forms(before).push(form));
                    lemma_joined_push(item_forms(before), form);
                    assert(bytes@.subrange(pos + 1, end as int) =~= bytes@.subrange(
                        pos + 1,
                        cur as int,
                    ) + bytes@.subrange(cur as int, end as int));
                    assert(bytes@.subrange(pos + 1, end as int) =~= joined(item_forms(items@)));
                    assert(bytes@.subrange(pos + 1, end + 1) =~= joined(item_forms(items@)) + seq![
                        mark,
                    ]);
                }
                if mark == 0x5d {
                    let array = Value::Array(items);
                    proof {
                        assert(bytes@.subrange(pos as int, end + 1) =~= seq![0x5bu8]
                            + bytes@.subrange(pos + 1, end as int) + seq![0x5du8]);
                    }
                    return Some((array, end + 1));
                }
                cur = end + 1;
            },
        }
    }
}

/// One more member read: what was read so far, with the member that stands
/// from `cur` to `end`, is the members so far with that member joined on.
proof fn lemma_member_read(
    bytes: Seq<u8>,
    start: int,
    cur: int,
    quote: int,
    end: int,
    before: Seq<Entry>,
    entry: Entry,
)
    requires
        0 <= start <= cur < quote,
        quote + 2 <= end < bytes.len(),
        bytes.subrange(start, cur) == if before.len() == 0 {
            Seq::<u8>::empty()
        } else {
            joined(members(before)) + seq![0x2cu8]
        },
        bytes[cur] == 0x22,
        bytes.subrange(cur + 1, quote) == escaped(entry.0),
        bytes[quote] == 0x22,
        bytes[quote + 1] == 0x3a,
        bytes.subrange(quote + 2, end) == entry.1,
    ensures
        bytes.subrange(start, end) == joined(members(before.push(entry))),
        bytes.subrange(start, end + 1) == joined(members(before.push(entry))) + seq![bytes[end]],
{
    assert(members(before.push(entry)) =~= members(before).push(member(entry)));
    lemma_joined_push(members(before), member(entry));
    let name = bytes.subrange(cur, quote + 1);
    assert(name =~= seq![0x22u8] + bytes.subrange(cur + 1, quote) + seq![0x22u8]);
    assert(name == quoted(entry.0));
    let written = bytes.subrange(cur, end);
    assert(written =~= name + seq![0x3au8] + bytes.subrange(quote + 2, end));
    assert(written == member(entry));
    assert(bytes.subrange(start, end) =~= bytes.subrange(start, cur) + written);
    assert(bytes.subrange(start, end + 1) =~= bytes.subrange(start, end) + seq![bytes[end]]);
}

/// Reads the object that begins at `pos`.
fn read_object(bytes: &[u8], pos: usize, budget: usize) -> (r: Option<(Value, usize)>)
    requires
        pos < bytes.len(),
        bytes@[pos as int] == 0x7b,
        budget >= 1,
    ensures
        reads(bytes@, pos as int, budget as nat, object_end(bytes@, pos as int, budget as nat), r),
    decreases budget, bytes.len() - pos, 0nat,
{
    if bytes.len() - pos < 2 {
        return None;
    }
    if bytes[pos + 1] == 0x7d {
        let v = Value::Object(Vec::new());
        proof {
            assert(member_entries(v->Object_0@) =~= Seq::<Entry>::empty());
            assert(members(normalized(Seq::<Entry>::empty())) =~= Seq::<Seq<u8>>::empty());
            assert(bytes@.subrange(pos as int, pos + 2) =~= canonical(v));
        }
        return Some((v, pos + 2));
    }
    let mut list: Vec<(String, Value)> = Vec::new();
    let mut cur: usize = pos + 1;
    assert(bytes@.subrange(pos + 1, cur as int) =~= Seq::<u8>::empty());
    assert(member_entries(list@) =~= Seq::<Entry>::empty());
    loop
        invariant
            pos < cur <= bytes.len(),
            budget >= 1,
            bytes@[pos as int] == 0x7b,
            object_end(bytes@, pos as int, budget as nat) == members_end(
                bytes@,
                cur as int,
                (budget - 1) as nat,
                if list@.len() == 0 {
                    None
                } else {
                    Some(encode_utf8(list@.last().0@))
                },
            ),
            strictly_sorted(member_entries(list@)),
            bytes@.subrange(pos + 1, cur as int) == if list@.len() == 0 {
                Seq::<u8>::empty()
            } else {
                joined(members(member_entries(list@))) + seq![0x2cu8]
            },
            forall|k: int| 0 <= k < list@.len() ==> well_formed((#[trigger] list@[k]).1),
            forall|k: int| 0 <= k < list@.len() ==> in_normal_form((#[trigger] list@[k]).1),
            forall|k: int|
                0 <= k < list@.len() ==> within_depth((#[trigger] list@[k]).1, (budget - 1) as nat),
        decreases bytes.len() - cur,
    {
        if cur >= bytes.len() || bytes[cur] != 0x22 {
            return None;
        }
        let (raw, quote) = match read_text(bytes, cur + 1) {
            None => {
                return None;
            },
            Some(found) => found,
        };
        if bytes.len() - quote < 2 || bytes[quote + 1] != 0x3a {
            return None;
        }
        if list.len() > 0 && !bytes_lt(
            list[list.len() - 1].0.as_str().as_bytes(),
            raw.as_slice(),
        ) {
            return None;
        }
        let ghost raw_bytes = raw@;
        let name = match string_from_utf8(raw) {
            None => {
                return None;
            },
            Some(name) => name,
        };
        match read_value(bytes, quote + 2, budget - 1) {
            None => {
                return None;
            },
            Some((v, end)) => {
                if end >= bytes.len() {
                    return None;
                }
                let mark = bytes[end];
                if mark != 0x2c && mark != 0x7d {
                    return None;
                }
                let ghost before = member_entries(list@);
                let ghost entry: Entry = (raw_bytes, canonical(v));
                proof {
                    lemma_text_sound(bytes@, cur + 1);
                    if list@.len() > 0 {
                        assert(before.last().0 == encode_utf8(list@.last().0@));
                    }
                    lemma_sorted_push(before, entry);
                    lemma_member_read(
                        bytes@,
                        pos + 1,
                        cur as int,
                        quote as int,
                        end as int,
                        before,
                        entry,
                    );
                }
                list.push((name, v));
                assert(member_entries(list@) =~= before.push(entry));
                if mark == 0x7d {
                    let ghost entries = member_entries(list@);
                    let object = Value::Object(list);
                    proof {
                        lemma_sorted_is_normal(entries);
                        assert(bytes@.subrange(pos as int, end + 1) =~= seq![0x7bu8]
                            + bytes@.subrange(pos + 1, end as int) + seq![0x7du8]);
                    }
                    return Some((object, end + 1));
                }
                cur = end + 1;
            },
        }
    }
}

/// What follows does not go on like a number: it is empty, or begins with a
/// byte that no number holds.
pub open spec fn closed(rest: Seq<u8>) -> bool {
    rest.len() == 0 || !is_number_byte(rest[0])
}

/// How the canonical form of a value begins: with a byte that tells what
/// kind of value it is.
pub proof fn lemma_first_byte(v: Value)
    requires
        well_formed(v),
    ensures
        canonical(v).len() >= 1,
        match v {
            Value::Null => canonical(v)[0] == 0x6e,
            Value::Bool(true) => canonical(v)[0] == 0x74,
            Value::Bool(false) => canonical(v)[0] == 0x66,
            Value::Number(_) => is_digit(canonical(v)[0]) || canonical(v)[0] == 0x2d,
            Value::String(_) => canonical(v)[0] == 0x22,
            Value::Array(_) => canonical(v)[0] == 0x5b,
            Value::Object(_) => canonical(v)[0] == 0x7b,
        },
{
    match v {
        Value::Number(text) => {
            lemma_number_form(encode_utf8(text@));
        },
        _ => {},
    }
}

/// A run of number bytes that something closed follows ends where it ends.
proof fn lemma_number_end(bytes: Seq<u8>, pos: int, text: Seq<u8>, rest: Seq<u8>)
    requires
        0 <= pos <= bytes.len(),
        bytes.skip(pos) == text + rest,
        forall|i: int| 0 <= i < text.len() ==> is_number_byte(#[trigger] text[i]),
        closed(rest),
    ensures
        number_end(bytes, pos) == pos + text.len(),
    decreases text.len(),
{
    let tail = bytes.skip(pos);
    assert(tail.len() == bytes.len() - pos);
    assert(tail.len() == text.len() + rest.len());
    if text.len() == 0 {
        if rest.len() > 0 {
            assert(tail[0] == rest[0]);
            assert(tail[0] == bytes[pos]);
        }
    } else {
        assert(tail[0] == text[0]);
        assert(tail[0] == bytes[pos]);
        assert(bytes.skip(pos + 1) =~= tail.skip(1));
        assert(tail.skip(1) =~= text.drop_first() + rest);
        assert forall|i: int| 0 <= i < text.drop_first().len() implies is_number_byte(
            #[trigger] text.drop_first()[i],
        ) by {
            assert(text.drop_first()[i] == text[i + 1]);
        }
        lemma_number_end(bytes, pos + 1, text.drop_first(), rest);
    }
}

/// Where the canonical form of a value stands, and something closed follows
/// it, a value is read that ends where that form ends.
pub proof fn lemma_value_end(bytes: Seq<u8>, pos: int, w: Value, rest: Seq<u8>, budget: nat)
    requires
        0 <= pos <= bytes.len(),
        well_formed(w),
        within_depth(w, budget),
        bytes.skip(pos) == canonical(w) + rest,
        closed(rest),
    ensures
        value_end(bytes, pos, budget) == Some(pos + canonical(w).len()),
    decreases w, 0nat,
{
    let tail = bytes.skip(pos);
    let form = canonical(w);
    lemma_first_byte(w);
    assert(tail.len() == bytes.len() - pos);
    assert(tail.len() == form.len() + rest.len());
    assert(tail[0] == form[0]);
    assert(tail[0] == bytes[pos]);
    match w {
        Value::Null => {
            assert(tail[1] == form[1] && tail[1] == bytes[pos + 1]);
            assert(tail[2] == form[2] && tail[2] == bytes[pos + 2]);
            assert(tail[3] == form[3] && tail[3] == bytes[pos + 3]);
        },
        Value::Bool(b) => {
            assert(tail[1] == form[1] && tail[1] == bytes[pos + 1]);
            assert(tail[2] == form[2] && tail[2] == bytes[pos + 2]);
            assert(tail[3] == form[3] && tail[3] == bytes[pos + 3]);
            if !b {
                assert(tail[4] == form[4] && tail[4] == bytes[pos + 4]);
            }
        },
        Value::Number(text) => {
            lemma_number_form(form);
            lemma_number_end(bytes, pos, form, rest);
            assert(bytes.subrange(pos, pos + form.len()) =~= form);
            encode_utf8_valid_utf8(text@);
        },
        Value::String(text) => {
            let raw = encode_utf8(text@);
            assert(bytes.skip(pos + 1) =~= tail.skip(1));
            assert(tail.skip(1) =~= escaped(raw) + seq![0x22u8] + rest);
            lemma_text_complete(bytes, pos + 1, raw, rest);
            encode_utf8_valid_utf8(text@);
        },
        Value::Array(items) => {
            let forms = item_forms(items@);
            assert(bytes.skip(pos + 1) =~= tail.skip(1));
            assert(tail.skip(1) =~= joined(forms) + seq![0x5du8] + rest);
            if items@.len() == 0 {
                assert(joined(forms) =~= Seq::<u8>::empty());
                assert(tail[1] == 0x5d);
                assert(tail[1] == bytes[pos + 1]);
            } else {
                lemma_first_byte(items@[0]);
                assert(forms.skip(0) =~= forms);
                lemma_joined_from(forms, 0);
                assert(forms[0] == canonical(items@[0]));
                assert(joined(forms)[0] == forms[0][0]);
                assert(tail[1] == joined(forms)[0]);
                assert(tail[1] == bytes[pos + 1]);
                lemma_items_end(bytes, pos + 1, items@, 0, rest, (budget - 1) as nat);
            }
        },
        Value::Object(list) => {
            let entries = member_entries(list@);
            let normal = normalized(entries);
            let parts = members(normal);
            assert(bytes.skip(pos + 1) =~= tail.skip(1));
            assert(tail.skip(1) =~= joined(parts) + seq![0x7du8] + rest);
            lemma_normalized_contained(entries);
            lemma_normalized_sorted(entries);
            if list@.len() == 0 {
                assert(entries =~= Seq::<Entry>::empty());
                assert(parts =~= Seq::<Seq<u8>>::empty());
                assert(tail[1] == 0x7d);
                assert(tail[1] == bytes[pos + 1]);
            } else {
                assert(parts.skip(0) =~= parts);
                lemma_joined_from(parts, 0);
                assert(parts[0] == member(normal[0]));
                assert(joined(parts)[0] == parts[0][0]);
                assert(parts[0][0] == 0x22);
                assert(tail[1] == joined(parts)[0]);
                assert(tail[1] == bytes[pos + 1]);
                lemma_members_end(bytes, pos + 1, list@, normal, 0, rest, (budget - 1) as nat);
            }
        },
    }
}

/// Where the items of an array stand from the `k`-th on, before the closing
/// bracket, they are read up to that bracket.
proof fn lemma_items_end(
    bytes: Seq<u8>,
    pos: int,
    items: Seq<Value>,
    k: int,
    rest: Seq<u8>,
    budget: nat,
)
    requires
        0 <= pos <= bytes.len(),
        0 <= k < items.len(),
        forall|i: int| 0 <= i < items.len() ==> well_formed(#[trigger] items[i]),
        forall|i: int| 0 <= i < items.len() ==> within_depth(#[trigger] items[i], budget),
        bytes.skip(pos) == joined(item_forms(items).skip(k)) + seq![0x5du8] + rest,
    ensures
        items_end(bytes, pos, budget) == Some(
            pos + joined(item_forms(items).skip(k)).len() + 1,
        ),
    decreases items, items.len() - k,
{
    let forms = item_forms(items);
    let tail = bytes.skip(pos);
    lemma_joined_from(forms, k);
    assert(forms[k] == canonical(items[k]));
    let after: Seq<u8> = if k == items.len() - 1 {
        seq![0x5du8] + rest
    } else {
        seq![0x2cu8] + (joined(forms.skip(k + 1)) + seq![0x5du8] + rest)
    };
    assert(tail =~= forms[k] + after);
    assert(closed(after));
    lemma_first_byte(items[k]);
    lemma_value_end(bytes, pos, items[k], after, budget);
    let end = pos + forms[k].len();
    assert(tail.len() == bytes.len() - pos);
    assert(tail[forms[k].len() as int] == after[0]);
    assert(tail[forms[k].len() as int] == bytes[end]);
    if k < items.len() - 1 {
        assert(bytes.skip(end + 1) =~= tail.skip(end - pos + 1));
        assert(tail.skip(end - pos + 1) =~= joined(forms.skip(k + 1)) + seq![0x5du8] + rest);
        lemma_items_end(bytes, end + 1, items, k + 1, rest, budget);
    }
}

/// Where a quoted name and a colon stand, the name is read, and what
/// follows the colon comes next.
proof fn lemma_member_name(bytes: Seq<u8>, pos: int, name: Seq<u8>, after: Seq<u8>)
    requires
        0 <= pos <= bytes.len(),
        bytes.skip(pos) == quoted(name) + (seq![0x3au8] + after),
    ensures
        pos < bytes.len(),
        bytes[pos] == 0x22,
        text_end(bytes, pos + 1) == Some(pos + 1 + escaped(name).len()),
        text_raw(bytes, pos + 1) == name,
        pos + 2 + escaped(name).len() < bytes.len(),
        bytes[pos + 2 + escaped(name).len()] == 0x3a,
        bytes.skip(pos + 3 + escaped(name).len()) == after,
{
    let tail = bytes.skip(pos);
    let n = escaped(name).len() as int;
    assert(tail.len() == bytes.len() - pos);
    assert(tail =~= seq![0x22u8] + (escaped(name) + seq![0x22u8] + (seq![0x3au8] + after)));
    assert(tail[0] == 0x22);
    assert(tail[0] == bytes[pos]);
    assert(bytes.skip(pos + 1) =~= tail.skip(1));
    assert(tail.skip(1) =~= escaped(name) + seq![0x22u8] + (seq![0x3au8] + after));
    lemma_text_complete(bytes, pos + 1, name, seq![0x3au8] + after);
    assert(tail[n + 2] == 0x3a);
    assert(tail[n + 2] == bytes[pos + n + 2]);
    assert(bytes.skip(pos + n + 3) =~= tail.skip(n + 3));
    assert(tail.skip(n + 3) =~= after);
}

/// What stands behind a known beginning.
proof fn lemma_behind(bytes: Seq<u8>, pos: int, start: Seq<u8>, after: Seq<u8>)
    requires
        0 <= pos <= bytes.len(),
        bytes.skip(pos) == start + after,
        after.len() > 0,
    ensures
        pos + start.len() < bytes.len(),
        bytes[pos + start.len()] == after[0],
        bytes.skip(pos + start.len() + 1) == after.skip(1),
{
    let tail = bytes.skip(pos);
    let n = start.len() as int;
    assert(tail.len() == bytes.len() - pos);
    assert(tail[n] == after[0]);
    assert(tail[n] == bytes[pos + n]);
    assert(bytes.skip(pos + n + 1) =~= tail.skip(n + 1));
    assert(tail.skip(n + 1) =~= after.skip(1));
}

/// Where the members of an object stand from the `k`-th of its normal form
/// on, before the closing brace, they are read up to that brace.
proof fn lemma_members_end(
    bytes: Seq<u8>,
    pos: int,
    list: Seq<(String, Value)>,
    normal: Seq<Entry>,
    k: int,
    rest: Seq<u8>,
    budget: nat,
)
    requires
        0 <= pos <= bytes.len(),
        0 <= k < normal.len(),
        strictly_sorted(normal),
        contained(normal, member_entries(list)),
        forall|i: int| 0 <= i < list.len() ==> well_formed((#[trigger] list[i]).1),
        forall|i: int| 0 <= i < list.len() ==> within_depth((#[trigger] list[i]).1, budget),
        bytes.skip(pos) == joined(members(normal).skip(k)) + seq![0x7du8] + rest,
    ensures
        members_end(
            bytes,
            pos,
            budget,
            if k == 0 {
                None
            } else {
                Some(normal[k - 1].0)
            },
        ) == Some(pos + joined(members(normal).skip(k)).len() + 1),
    decreases list, normal.len() - k,
{
    let parts = members(normal);
    let entries = member_entries(list);
    lemma_joined_from(parts, k);
    assert(parts[k] == member(normal[k]));
    let j = choose|j: int| 0 <= j < entries.len() && entries[j] == normal[k];
    assert(entries[j] == (encode_utf8(list[j].0@), canonical(list[j].1)));
    let name = normal[k].0;
    let form = normal[k].1;
    let more = joined(parts.skip(k + 1)) + seq![0x7du8] + rest;
    let after: Seq<u8> = if k == normal.len() - 1 {
        seq![0x7du8] + rest
    } else {
        seq![0x2cu8] + more
    };
    assert(closed(after));
    assert(bytes.skip(pos) =~= quoted(name) + (seq![0x3au8] + (form + after)));
    lemma_member_name(bytes, pos, name, form + after);
    let quote = pos + 1 + escaped(name).len();
    encode_utf8_valid_utf8(list[j].0@);
    if k > 0 {
        assert(bytes_before(normal[k - 1].0, normal[k].0));
    }
    lemma_first_byte(list[j].1);
    lemma_value_end(bytes, quote + 2, list[j].1, after, budget);
    lemma_behind(bytes, quote + 2, form, after);
    let end = quote + 2 + form.len();
    if k < normal.len() - 1 {
        assert(after.skip(1) =~= more);
        lemma_members_end(bytes, end + 1, list, normal, k + 1, rest, budget);
    }
}

/// Why bytes could not be read.
#[derive(Debug, Clone, Copy, PartialEq, Eq, Structural)]
pub enum DecodeError {
    /// The bytes are not the canonical form of a value.
    NotCanonical,
}

/// The bytes are the canonical form of some value that has one.
pub open spec fn is_canonical(bytes: Seq<u8>) -> bool {
    exists|w: Value| encodable(w) && canonical(w) == bytes
}

/// Reads a value from its canonical form.
///
/// Whatever the bytes, they are either read or refused. They are read
/// exactly when they are the canonical form of some value, and the value
/// read then has them as its canonical form: what is written after reading
/// is what was read. The value read is in normal form. Bytes that are JSON
/// and not canonical (white space, a member out of order or twice, an escape
/// that is not the shortest) are refused like any others.
pub fn decode(bytes: &[u8]) -> (r: Result<Value, DecodeError>)
    ensures
        r is Ok <==> is_canonical(bytes@),
        r matches Ok(v) ==> canonical(v) == bytes@ && encodable(v) && in_normal_form(v),
        r matches Err(e) ==> e == DecodeError::NotCanonical,
{
    proof {
        if is_canonical(bytes@) {
            let w = choose|w: Value| encodable(w) && canonical(w) == bytes@;
            assert(bytes@.skip(0) =~= canonical(w) + Seq::<u8>::empty());
            lemma_value_end(bytes@, 0, w, Seq::<u8>::empty(), MAX_DEPTH as nat);
        }
    }
    match read_value(bytes, 0, MAX_DEPTH) {
        Some((v, end)) => {
            if end == bytes.len() {
                assert(bytes@.subrange(0, end as int) =~= bytes@);
                Ok(v)
            } else {
                Err(DecodeError::NotCanonical)
            }
        },
        None => Err(DecodeError::NotCanonical),
    }
}

/// Writes a value in canonical form and reads it back.
///
/// Every value that has a canonical form is read back, and what is read back
/// is in normal form and has the same canonical form: canonicalizing a
/// second time changes nothing.
pub fn normalize(v: &Value) -> (r: Result<Value, EncodeError>)
    ensures
        r is Ok <==> encodable(*v),
        r matches Ok(n) ==> canonical(n) == canonical(*v) && encodable(n) && in_normal_form(n),
        r matches Err(e) ==> e == if within_depth(*v, MAX_DEPTH as nat) {
            EncodeError::InvalidNumber
        } else {
            EncodeError::TooDeep
        },
{
    match canonicalize(v) {
        Err(e) => Err(e),
        Ok(bytes) => {
            assert(is_canonical(bytes@));
            match decode(bytes.as_slice()) {
                Ok(n) => Ok(n),
                Err(_) => vstd::pervasive::unreached(),
            }
        },
    }
}

} // verus!
