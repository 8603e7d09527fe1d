//! The text of a number.
//!
//! A number is kept as it was written, so all that is asked of its text is
//! that it is a number as JSON writes them: an optional minus sign, an
//! integer part without a leading zero, an optional fraction, an optional
//! exponent.

use vstd::prelude::*;

verus! {

/// How far the reading of a number has come.
#[derive(Debug, Clone, Copy, PartialEq, Eq, Structural)]
pub enum State {
    /// Nothing read.
    Start,
    /// The minus sign.
    Minus,
    /// An integer part that is a single zero.
    Zero,
    /// An integer part that begins with another digit.
    Integer,
    /// The point, before the digits of the fraction.
    Point,
    /// The digits of the fraction.
    Fraction,
    /// The letter of the exponent.
    Exponent,
    /// The sign of the exponent.
    ExponentSign,
    /// The digits of the exponent.
    ExponentDigits,
    /// Something that no number holds at that place.
    Invalid,
}

/// The byte is a decimal digit.
pub open spec fn is_digit(b: u8) -> bool {
    0x30 <= b <= 0x39
}

/// The byte can stand in a number: a digit, a sign, the point, or the letter
/// of the exponent.
pub open spec fn is_number_byte(b: u8) -> bool {
    is_digit(b) || b == 0x2d || b == 0x2b || b == 0x2e || b == 0x65 || b == 0x45
}

/// The state after one more byte.
pub open spec fn step(state: State, b: u8) -> State {
    match state {
        State::Start => if b == 0x2d {
            State::Minus
        } else if b == 0x30 {
            State::Zero
        } else if is_digit(b) {
            State::Integer
        } else {
            State::Invalid
        },
        State::Minus => if b == 0x30 {
            State::Zero
        } else if is_digit(b) {
            State::Integer
        } else {
            State::Invalid
        },
        State::Zero => if b == 0x2e {
            State::Point
        } else if b == 0x65 || b == 0x45 {
            State::Exponent
        } else {
            State::Invalid
        },
        State::Integer => if is_digit(b) {
            State::Integer
        } else if b == 0x2e {
            State::Point
        } else if b == 0x65 || b == 0x45 {
            State::Exponent
        } else {
            State::Invalid
        },
        State::Point => if is_digit(b) {
            State::Fraction
        } else {
            State::Invalid
        },
        State::Fraction => if is_digit(b) {
            State::Fraction
        } else if b == 0x65 || b == 0x45 {
            State::Exponent
        } else {
            State::Invalid
        },
        State::Exponent => if b == 0x2b || b == 0x2d {
            State::ExponentSign
        } else if is_digit(b) {
            State::ExponentDigits
        } else {
            State::Invalid
        },
        State::ExponentSign => if is_digit(b) {
            State::ExponentDigits
        } else {
            State::Invalid
        },
        State::ExponentDigits => if is_digit(b) {
            State::ExponentDigits
        } else {
            State::Invalid
        },
        State::Invalid => State::Invalid,
    }
}

/// The state after all of `text`, read from `state` on.
pub open spec fn run(text: Seq<u8>, state: State) -> State
    decreases text.len(),
{
    if text.len() == 0 {
        state
    } else {
        run(text.drop_first(), step(state, text[0]))
    }
}

/// A number may end in this state.
pub open spec fn complete(state: State) -> bool {
    state == State::Zero || state == State::Integer || state == State::Fraction || state
        == State::ExponentDigits
}

/// `text` is a number.
pub open spec fn is_number(text: Seq<u8>) -> bool {
    complete(run(text, State::Start))
}

/// Reading one byte more is one step more.
pub proof fn lemma_run_push(text: Seq<u8>, state: State, b: u8)
    ensures
        run(text.push(b), state) == step(run(text, state), b),
    decreases text.len(),
{
    if text.len() == 0 {
        assert(text.push(b).drop_first() =~= Seq::<u8>::empty());
        assert(run(text.push(b).drop_first(), step(state, b)) == step(state, b));
    } else {
        assert(text.push(b).drop_first() =~= text.drop_first().push(b));
        lemma_run_push(text.drop_first(), step(state, text[0]), b);
    }
}

/// What has gone wrong stays wrong.
pub proof fn lemma_invalid_stays(text: Seq<u8>)
    ensures
        run(text, State::Invalid) == State::Invalid,
    decreases text.len(),
{
    if text.len() > 0 {
        lemma_invalid_stays(text.drop_first());
    }
}

/// A text that is read without going wrong holds number bytes only.
pub proof fn lemma_run_bytes(text: Seq<u8>, state: State)
    requires
        run(text, state) != State::Invalid,
    ensures
        forall|i: int| 0 <= i < text.len() ==> is_number_byte(#[trigger] text[i]),
    decreases text.len(),
{
    if text.len() > 0 {
        if !is_number_byte(text[0]) {
            lemma_invalid_stays(text.drop_first());
        }
        lemma_run_bytes(text.drop_first(), step(state, text[0]));
        assert forall|i: int| 0 <= i < text.len() implies is_number_byte(#[trigger] text[i]) by {
            if i > 0 {
                assert(text[i] == text.drop_first()[i - 1]);
            }
        }
    }
}

/// A number is not empty, begins with a digit or the minus sign, and holds
/// number bytes only.
pub proof fn lemma_number_form(text: Seq<u8>)
    requires
        is_number(text),
    ensures
        text.len() >= 1,
        is_digit(text[0]) || text[0] == 0x2d,
        forall|i: int| 0 <= i < text.len() ==> is_number_byte(#[trigger] text[i]),
{
    lemma_run_bytes(text, State::Start);
    if !(is_digit(text[0]) || text[0] == 0x2d) {
        lemma_invalid_stays(text.drop_first());
    }
}

/// The state after one more byte.
fn next_state(state: State, b: u8) -> (next: State)
    ensures
        next == step(state, b),
{
    let digit = 0x30 <= b && b <= 0x39;
    let letter = b == 0x65 || b == 0x45;
    match state {
        State::Start => if b == 0x2d {
            State::Minus
        } else if b == 0x30 {
            State::Zero
        } else if digit {
            State::Integer
        } else {
            State::Invalid
        },
        State::Minus => if b == 0x30 {
            State::Zero
        } else if digit {
            State::Integer
        } else {
            State::Invalid
        },
        State::Zero => if b == 0x2e {
            State::Point
        } else if letter {
            State::Exponent
        } else {
            State::Invalid
        },
        State::Integer => if digit {
            State::Integer
        } else if b == 0x2e {
            State::Point
        } else if letter {
            State::Exponent
        } else {
            State::Invalid
        },
        State::Point => if digit {
            State::Fraction
        } else {
            State::Invalid
        },
        State::Fraction => if digit {
            State::Fraction
        } else if letter {
            State::Exponent
        } else {
            State::Invalid
        },
        State::Exponent => if b == 0x2b || b == 0x2d {
            State::ExponentSign
        } else if digit {
            State::ExponentDigits
        } else {
            State::Invalid
        },
        State::ExponentSign => if digit {
            State::ExponentDigits
        } else {
            State::Invalid
        },
        State::ExponentDigits => if digit {
            State::ExponentDigits
        } else {
            State::Invalid
        },
        State::Invalid => State::Invalid,
    }
}

/// Whether the byte can stand in a number.
pub fn number_byte(b: u8) -> (r: bool)
    ensures
        r == is_number_byte(b),
{
    (0x30 <= b && b <= 0x39) || b == 0x2d || b == 0x2b || b == 0x2e || b == 0x65 || b == 0x45
}

/// Whether a text is a number.
pub fn is_number_text(text: &[u8]) -> (r: bool)
    ensures
        r == is_number(text@),
{
    let mut state = State::Start;
    let mut i: usize = 0;
    assert(text@.skip(0) =~= text@);
    while i < text.len()
        invariant
            i <= text.len(),
            run(text@, State::Start) == run(text@.skip(i as int), state),
        decreases text.len() - i,
    {
        assert(text@.skip(i as int)[0] == text@[i as int]);
        assert(text@.skip(i as int).drop_first() =~= text@.skip(i + 1));
        state = next_state(state, text[i]);
        i += 1;
    }
    match state {
        State::Zero | State::Integer | State::Fraction | State::ExponentDigits => true,
        _ => false,
    }
}

} // verus!
