//! Whole numbers in decimal.

use vstd::prelude::*;
use crate::number::{is_number, lemma_run_push, run, State};

verus! {

/// The decimal digits of `n`, most significant first, without leading zeros.
pub open spec fn digits(n: nat) -> Seq<u8>
    decreases n,
{
    if n < 10 {
        seq![(0x30 + n) as u8]
    } else {
        digits(n / 10).push((0x30 + n % 10) as u8)
    }
}

/// `n` in decimal, with a minus sign before the digits of a negative number.
pub open spec fn decimal(n: int) -> Seq<u8> {
    if n < 0 {
        seq![0x2du8] + digits((-n) as nat)
    } else {
        digits(n as nat)
    }
}

/// The number that a string of digits spells.
pub open spec fn digits_value(text: Seq<u8>) -> int
    decreases text.len(),
{
    if text.len() == 0 {
        0
    } else {
        10 * digits_value(text.drop_last()) + (text.last() - 0x30)
    }
}

/// The digits of a number are digits, and there is at least one.
pub proof fn lemma_digits_form(n: nat)
    ensures
        digits(n).len() >= 1,
        forall|i: int| 0 <= i < digits(n).len() ==> 0x30 <= #[trigger] digits(n)[i] <= 0x39,
    decreases n,
{
    if n >= 10 {
        lemma_digits_form(n / 10);
    }
}

/// The digits of a number spell that number.
pub proof fn lemma_digits_value(n: nat)
    ensures
        digits_value(digits(n)) == n,
    decreases n,
{
    if n < 10 {
        assert(digits(n).drop_last() =~= Seq::<u8>::empty());
        assert(digits_value(digits(n).drop_last()) == 0);
    } else {
        lemma_digits_value(n / 10);
        assert(digits(n).drop_last() =~= digits(n / 10));
    }
}

/// Different numbers are written differently.
pub proof fn lemma_decimal_injective(a: int, b: int)
    requires
        decimal(a) == decimal(b),
    ensures
        a == b,
{
    if a < 0 {
        lemma_digits_form((-a) as nat);
        lemma_digits_value((-a) as nat);
        assert(decimal(a)[0] == 0x2d);
        assert(decimal(a).drop_first() =~= digits((-a) as nat));
        if b < 0 {
            lemma_digits_value((-b) as nat);
            assert(decimal(b).drop_first() =~= digits((-b) as nat));
        } else {
            lemma_digits_form(b as nat);
        }
    } else {
        lemma_digits_form(a as nat);
        lemma_digits_value(a as nat);
        if b < 0 {
            assert(decimal(b)[0] == 0x2d);
        } else {
            lemma_digits_value(b as nat);
        }
    }
}

/// A number in decimal holds digits and at most a minus sign: no comma, no
/// quote, no bracket.
pub proof fn lemma_decimal_plain(n: int)
    ensures
        decimal(n).len() >= 1,
        forall|i: int|
            0 <= i < decimal(n).len() ==> {
                let b = #[trigger] decimal(n)[i];
                b == 0x2d || 0x30 <= b <= 0x39
            },
{
    if n < 0 {
        lemma_digits_form((-n) as nat);
    } else {
        lemma_digits_form(n as nat);
    }
}

/// Reading the digits of a number, from the start or after a minus sign,
/// ends in an integer part.
proof fn lemma_digits_run(n: nat, state: State)
    requires
        state == State::Start || state == State::Minus,
    ensures
        run(digits(n), state) == if n == 0 {
            State::Zero
        } else {
            State::Integer
        },
    decreases n,
{
    if n < 10 {
        assert(digits(n).drop_first() =~= Seq::<u8>::empty());
        assert(run(digits(n).drop_first(), crate::number::step(state, digits(n)[0]))
            == crate::number::step(state, digits(n)[0]));
    } else {
        lemma_digits_run(n / 10, state);
        lemma_run_push(digits(n / 10), state, (0x30 + n % 10) as u8);
    }
}

/// A whole number in decimal is a number.
pub proof fn lemma_decimal_is_number(n: int)
    ensures
        is_number(decimal(n)),
{
    if n < 0 {
        lemma_digits_run((-n) as nat, State::Minus);
        assert(decimal(n).drop_first() =~= digits((-n) as nat));
    } else {
        lemma_digits_run(n as nat, State::Start);
    }
}

/// Writes the digits of `m`.
fn write_digits(out: &mut Vec<u8>, m: u64)
    ensures
        final(out)@ == old(out)@ + digits(m as nat),
    decreases m,
{
    if m >= 10 {
        write_digits(out, m / 10);
    }
    out.push(0x30 + (m % 10) as u8);
    assert(out@ =~= old(out)@ + digits(m as nat));
}

/// Writes `n` in decimal.
pub fn write_decimal(out: &mut Vec<u8>, n: i64)
    ensures
        final(out)@ == old(out)@ + decimal(n as int),
{
    if n < 0 {
        out.push(0x2d);
        let magnitude: u64 = if n == i64::MIN {
            9223372036854775808u64
        } else {
            (-n) as u64
        };
        write_digits(out, magnitude);
        assert(out@ =~= old(out)@ + decimal(n as int));
    } else {
        write_digits(out, n as u64);
    }
}

/// The number that the digits of a decimal spell: its absolute value.
pub open spec fn magnitude(n: int) -> nat {
    if n < 0 {
        (-n) as nat
    } else {
        n as nat
    }
}

/// Only zero is written with a zero in front.
pub proof fn lemma_digits_leading(n: nat)
    ensures
        digits(n)[0] == 0x30 <==> n == 0,
    decreases n,
{
    if n >= 10 {
        lemma_digits_leading(n / 10);
        lemma_digits_form(n / 10);
    }
}

/// Digits without a zero in front are the digits of the number they spell.
pub proof fn lemma_digits_of_value(text: Seq<u8>)
    requires
        text.len() >= 1,
        forall|i: int| 0 <= i < text.len() ==> 0x30 <= #[trigger] text[i] <= 0x39,
        text.len() == 1 || text[0] != 0x30,
    ensures
        digits_value(text) >= 0,
        text[0] != 0x30 ==> digits_value(text) >= 1,
        digits(digits_value(text) as nat) == text,
    decreases text.len(),
{
    let front = text.drop_last();
    if text.len() == 1 {
        assert(front =~= Seq::<u8>::empty());
        assert(digits_value(front) == 0);
        assert(digits(digits_value(text) as nat) =~= text);
    } else {
        assert(front[0] == text[0]);
        assert forall|i: int| 0 <= i < front.len() implies 0x30 <= #[trigger] front[i] <= 0x39 by {
            assert(front[i] == text[i]);
        }
        lemma_digits_of_value(front);
        let v = digits_value(text);
        assert(v == 10 * digits_value(front) + (text.last() - 0x30));
        assert(v >= 10);
        assert(v / 10 == digits_value(front));
        assert(v % 10 == text.last() - 0x30);
        assert(digits(v as nat) =~= front.push(text.last()));
        assert(text =~= front.push(text.last()));
    }
}

/// The beginning of a string of digits spells no more than the whole.
pub proof fn lemma_value_grows(text: Seq<u8>, i: int)
    requires
        0 <= i <= text.len(),
        forall|k: int| 0 <= k < text.len() ==> 0x30 <= #[trigger] text[k] <= 0x39,
    ensures
        0 <= digits_value(text.take(i)) <= digits_value(text),
    decreases text.len(),
{
    if text.len() == 0 {
        assert(text.take(i) =~= text);
    } else if i == text.len() {
        assert(text.take(i) =~= text);
        lemma_value_grows(text.drop_last(), i - 1);
        assert(text.drop_last().take(i - 1) =~= text.drop_last());
    } else {
        let front = text.drop_last();
        assert forall|k: int| 0 <= k < front.len() implies 0x30 <= #[trigger] front[k] <= 0x39 by {
            assert(front[k] == text[k]);
        }
        lemma_value_grows(front, i);
        assert(front.take(i) =~= text.take(i));
        lemma_value_grows(front, front.len() as int);
        assert(front.take(front.len() as int) =~= front);
    }
}

/// How a number in decimal is made up: a minus sign exactly before a
/// negative number, then the digits of its magnitude.
pub proof fn lemma_decimal_parts(n: int)
    ensures
        decimal(n).len() >= 1,
        (decimal(n)[0] == 0x2d) == (n < 0),
        decimal(n).skip(if n < 0 { 1int } else { 0int }) == digits(magnitude(n)),
        digits_value(digits(magnitude(n))) == magnitude(n),
{
    lemma_digits_form(magnitude(n));
    lemma_digits_value(magnitude(n));
    if n < 0 {
        assert(decimal(n).skip(1) =~= digits(magnitude(n)));
    } else {
        assert(decimal(n).skip(0) =~= digits(magnitude(n)));
    }
}

/// Reads a whole number that is written in decimal.
///
/// The number is read exactly when the text is the decimal form of some
/// `i64`: digits without a zero in front, a minus sign before them only for a
/// negative number, and a value that fits.
pub fn read_decimal(text: &[u8]) -> (r: Option<i64>)
    ensures
        match r {
            Some(n) => decimal(n as int) == text@,
            None => forall|n: i64| decimal(n as int) != text@,
        },
{
    if text.len() == 0 {
        assert forall|n: i64| decimal(n as int) != text@ by {
            lemma_decimal_parts(n as int);
        }
        return None;
    }
    let negative = text[0] == 0x2d;
    let start: usize = if negative {
        1
    } else {
        0
    };
    let ghost part = text@.skip(start as int);
    if start >= text.len() || (text[start] == 0x30 && (negative || text.len() - start > 1)) {
        assert forall|n: i64| decimal(n as int) != text@ by {
            if decimal(n as int) == text@ {
                lemma_decimal_parts(n as int);
                lemma_digits_form(magnitude(n as int));
                lemma_digits_leading(magnitude(n as int));
                assert(part == digits(magnitude(n as int)));
                if start < text.len() {
                    assert(part[0] == text@[start as int]);
                }
            }
        }
        return None;
    }
    let limit: u64 = if negative {
        9223372036854775808u64
    } else {
        9223372036854775807u64
    };
    let mut acc: u64 = 0;
    let mut i: usize = start;
    assert(part.take(0) =~= Seq::<u8>::empty());
    while i < text.len()
        invariant
            start <= i <= text.len(),
            start < text.len(),
            part == text@.skip(start as int),
            negative == (text@[0] == 0x2d),
            start == if negative { 1usize } else { 0usize },
            limit == if negative { 9223372036854775808u64 } else { 9223372036854775807u64 },
            acc <= limit,
            acc == digits_value(part.take(i - start)),
            forall|k: int| 0 <= k < i - start ==> 0x30 <= #[trigger] part[k] <= 0x39,
        decreases text.len() - i,
    {
        let b = text[i];
        assert(part[i - start] == b);
        if b < 0x30 || b > 0x39 {
            assert forall|n: i64| decimal(n as int) != text@ by {
                if decimal(n as int) == text@ {
                    lemma_decimal_parts(n as int);
                    lemma_digits_form(magnitude(n as int));
                    assert(part == digits(magnitude(n as int)));
                }
            }
            return None;
        }
        let d: u64 = (b - 0x30) as u64;
        proof {
            assert(part.take(i - start + 1).drop_last() =~= part.take(i - start));
            assert(part.take(i - start + 1).last() == b);
        }
        if acc > (limit - d) / 10 {
            assert forall|n: i64| decimal(n as int) != text@ by {
                if decimal(n as int) == text@ {
                    lemma_decimal_parts(n as int);
                    lemma_digits_form(magnitude(n as int));
                    assert(part == digits(magnitude(n as int)));
                    lemma_value_grows(part, i - start + 1);
                    assert(digits_value(part.take(i - start + 1)) == 10 * acc + d);
                    assert(magnitude(n as int) <= limit);
                }
            }
            return None;
        }
        acc = acc * 10 + d;
        i += 1;
    }
    proof {
        assert(part.take(text.len() - start) =~= part);
        assert(part[0] == text@[start as int]);
        lemma_digits_of_value(part);
        if negative {
            assert(text@ =~= seq![0x2du8] + part);
        } else {
            assert(text@ =~= part);
        }
    }
    if negative {
        if acc == 9223372036854775808u64 {
            Some(i64::MIN)
        } else {
            Some(-(acc as i64))
        }
    } else {
        Some(acc as i64)
    }
}

} // verus!
