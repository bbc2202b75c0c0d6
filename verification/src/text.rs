//! Text building blocks: decimal numerals and separator-joined lists.

use vstd::prelude::*;

verus! {

/// The character that writes the digit `d`; meaningful for `d < 10`.
pub open spec fn digit(d: nat) -> char {
    if d == 0 {
        '0'
    } else if d == 1 {
        '1'
    } else if d == 2 {
        '2'
    } else if d == 3 {
        '3'
    } else if d == 4 {
        '4'
    } else if d == 5 {
        '5'
    } else if d == 6 {
        '6'
    } else if d == 7 {
        '7'
    } else if d == 8 {
        '8'
    } else {
        '9'
    }
}

/// Whether `c` is one of the ten decimal digits.
pub open spec fn is_digit(c: char) -> bool {
    c == '0' || c == '1' || c == '2' || c == '3' || c == '4' || c == '5' || c == '6' || c == '7'
        || c == '8' || c == '9'
}

/// The number that the digit `c` writes.
pub open spec fn digit_value(c: char) -> nat {
    if c == '1' {
        1
    } else if c == '2' {
        2
    } else if c == '3' {
        3
    } else if c == '4' {
        4
    } else if c == '5' {
        5
    } else if c == '6' {
        6
    } else if c == '7' {
        7
    } else if c == '8' {
        8
    } else if c == '9' {
        9
    } else {
        0
    }
}

/// Whether `text` holds digits only.
pub open spec fn all_digits(text: Seq<char>) -> bool {
    forall|i: int| 0 <= i < text.len() ==> is_digit(#[trigger] text[i])
}

/// The number that a text of digits writes in decimal.
pub open spec fn number(digits: Seq<char>) -> nat
    decreases digits.len(),
{
    if digits.len() == 0 {
        0
    } else {
        number(digits.drop_last()) * 10 + digit_value(digits.last())
    }
}

/// How many digits stand at the end of `text`.
pub open spec fn digit_run(text: Seq<char>) -> nat
    decreases text.len(),
{
    if text.len() > 0 && is_digit(text.last()) {
        digit_run(text.drop_last()) + 1
    } else {
        0
    }
}

/// The digits at the end of `text`.
pub open spec fn trailing_digits(text: Seq<char>) -> Seq<char> {
    text.skip(text.len() - digit_run(text))
}

/// What stands before the digits at the end of `text`.
pub open spec fn stem(text: Seq<char>) -> Seq<char> {
    text.take(text.len() - digit_run(text))
}

/// The decimal numeral of `n`: no sign, no padding, most significant digit first.
pub open spec fn decimal(n: nat) -> Seq<char>
    decreases n,
{
    if n < 10 {
        seq![digit(n)]
    } else {
        decimal(n / 10).push(digit(n % 10))
    }
}

/// The one-character text of a single digit.
fn digit_text(d: usize) -> (text: &'static str)
    requires
        d < 10,
    ensures
        text@ == seq![digit(d as nat)],
{
    proof {
        reveal_strlit("0");
        reveal_strlit("1");
        reveal_strlit("2");
        reveal_strlit("3");
        reveal_strlit("4");
        reveal_strlit("5");
        reveal_strlit("6");
        reveal_strlit("7");
        reveal_strlit("8");
        reveal_strlit("9");
    }
    let text = if d == 0 {
        "0"
    } else if d == 1 {
        "1"
    } else if d == 2 {
        "2"
    } else if d == 3 {
        "3"
    } else if d == 4 {
        "4"
    } else if d == 5 {
        "5"
    } else if d == 6 {
        "6"
    } else if d == 7 {
        "7"
    } else if d == 8 {
        "8"
    } else {
        "9"
    };
    assert(text@ =~= seq![digit(d as nat)]);
    text
}

/// Writes `n` as a decimal numeral.
pub fn decimal_string(n: usize) -> (text: String)
    ensures
        text@ == decimal(n as nat),
    decreases n,
{
    if n < 10 {
        String::from_str(digit_text(n))
    } else {
        let mut text = decimal_string(n / 10);
        text.append(digit_text(n % 10));
        assert(text@ =~= decimal(n as nat));
        text
    }
}

/// A decimal numeral is not empty and holds digits only.
pub proof fn lemma_decimal_digits(n: nat)
    ensures
        decimal(n).len() > 0,
        all_digits(decimal(n)),
    decreases n,
{
    if n >= 10 {
        lemma_decimal_digits(n / 10);
    }
}

/// Reading a decimal numeral gives back the number it was written from.
pub proof fn lemma_number_of_decimal(n: nat)
    ensures
        number(decimal(n)) == n,
    decreases n,
{
    if n < 10 {
        assert(decimal(n).drop_last() =~= Seq::<char>::empty());
        assert(number(decimal(n).drop_last()) == 0);
    } else {
        lemma_number_of_decimal(n / 10);
        assert(decimal(n).drop_last() =~= decimal(n / 10));
    }
}

/// Digits appended to a text that does not end in a digit are exactly the
/// digits at the end of the whole.
pub proof fn lemma_digit_run(front: Seq<char>, digits: Seq<char>)
    requires
        all_digits(digits),
        front.len() == 0 || !is_digit(front.last()),
    ensures
        digit_run(front + digits) == digits.len(),
        trailing_digits(front + digits) == digits,
        stem(front + digits) == front,
    decreases digits.len(),
{
    let whole = front + digits;
    if digits.len() == 0 {
        assert(whole =~= front);
    } else {
        assert(whole.last() == digits.last());
        assert(whole.drop_last() =~= front + digits.drop_last());
        lemma_digit_run(front, digits.drop_last());
    }
    assert(trailing_digits(whole) =~= digits);
    assert(stem(whole) =~= front);
}

} // verus!
