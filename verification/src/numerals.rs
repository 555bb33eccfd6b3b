//! Numbers written out in a base, and read back in.

use vstd::prelude::*;

verus! {

/// The character a digit is written with: `0` to `9`, then `A` to `Z`.
pub open spec fn digit_char(digit: nat) -> char {
    if digit < 10 {
        (48 + digit) as char
    } else {
        (55 + digit) as char
    }
}

/// What a character is worth as a digit, in the largest base there is: the
/// decimal digits, then the letters of either case. Anything else is worth
/// more than any base allows.
pub open spec fn digit_value(character: char) -> nat {
    let code = character as nat;
    if 48 <= code <= 57 {
        (code - 48) as nat
    } else if 97 <= code <= 122 {
        (code - 87) as nat
    } else if 65 <= code <= 90 {
        (code - 55) as nat
    } else {
        99
    }
}

/// Whether `character` is a digit of `radix`, which is what `char::is_digit`
/// answers.
pub open spec fn is_digit_of(character: char, radix: nat) -> bool {
    digit_value(character) < radix
}

/// Whether every character of `text` is a digit of `radix`.
pub open spec fn all_digits(text: Seq<char>, radix: nat) -> bool {
    forall|index: int| 0 <= index < text.len() ==> is_digit_of(#[trigger] text[index], radix)
}

/// `value` written in `radix`, with no leading zero: zero is `0`.
pub open spec fn digits_of(value: nat, radix: nat) -> Seq<char>
    recommends
        2 <= radix,
    decreases value,
{
    if value < radix || radix < 2 {
        seq![digit_char(value)]
    } else {
        proof {
            lemma_quotient_smaller(value, radix);
        }
        digits_of(value / radix, radix).push(digit_char(value % radix))
    }
}

/// What a run of digits is worth in `radix`, the first digit weighing most.
pub open spec fn value_of(text: Seq<char>, radix: nat) -> nat
    decreases text.len(),
{
    if text.len() == 0 {
        0
    } else {
        value_of(text.drop_last(), radix) * radix + digit_value(text.last())
    }
}

/// Dividing by a base of two or more makes a positive number smaller.
pub proof fn lemma_quotient_smaller(value: nat, radix: nat)
    requires
        radix >= 2,
        value >= 1,
    ensures
        value / radix < value,
{
    assert(value / radix < value) by (nonlinear_arith)
        requires
            radix >= 2,
            value >= 1,
    ;
}

pub proof fn lemma_digit_char_value(digit: nat)
    requires
        digit < 36,
    ensures
        digit_value(digit_char(digit)) == digit,
{
}

/// Reading back a number written in a base gives the number.
pub proof fn lemma_digits_round_trip(value: nat, radix: nat)
    requires
        2 <= radix <= 36,
    ensures
        value_of(digits_of(value, radix), radix) == value,
        all_digits(digits_of(value, radix), radix),
        digits_of(value, radix).len() >= 1,
        value > 0 ==> digits_of(value, radix)[0] != '0',
        value == 0 ==> digits_of(value, radix) == seq!['0'],
    decreases value,
{
    let digits = digits_of(value, radix);
    if value < radix {
        lemma_digit_char_value(value);
        assert(digits.drop_last() =~= Seq::<char>::empty());
        assert(value_of(digits.drop_last(), radix) == 0);
    } else {
        let rest = digits_of(value / radix, radix);
        lemma_quotient_smaller(value, radix);
        lemma_digits_round_trip(value / radix, radix);
        lemma_digit_char_value(value % radix);
        assert(digits.drop_last() =~= rest);
        assert(value == (value / radix) * radix + value % radix) by (nonlinear_arith)
            requires
                radix >= 2,
        ;
        assert(value / radix > 0) by (nonlinear_arith)
            requires
                value >= radix,
                radix >= 2,
        ;
        assert(digits[0] == rest[0]);
    }
}

/// A longer run of digits is worth at least as much as its start.
pub proof fn lemma_value_of_prefix(text: Seq<char>, radix: nat, length: int)
    requires
        0 <= length <= text.len(),
        radix >= 1,
    ensures
        value_of(text.take(length), radix) <= value_of(text, radix),
    decreases text.len() - length,
{
    if length < text.len() {
        lemma_value_of_prefix(text, radix, length + 1);
        let shorter = text.take(length);
        let longer = text.take(length + 1);
        assert(longer.drop_last() =~= shorter);
        assert(value_of(longer, radix) == value_of(shorter, radix) * radix + digit_value(
            longer.last(),
        ));
        assert(value_of(shorter, radix) * radix >= value_of(shorter, radix)) by (nonlinear_arith)
            requires
                radix >= 1,
        ;
    } else {
        assert(text.take(length) =~= text);
    }
}

/// The character a digit below sixteen is written with.
pub fn digit_character(digit: u64) -> (character: char)
    requires
        digit < 16,
    ensures
        character == digit_char(digit as nat),
{
    if digit < 10 {
        ((48 + digit) as u8) as char
    } else {
        ((55 + digit) as u8) as char
    }
}

/// What `character` is worth as a digit, as [`digit_value`] says.
pub fn digit_worth(character: char) -> (worth: u32)
    ensures
        worth == digit_value(character),
{
    let code = character as u32;
    if 48 <= code && code <= 57 {
        code - 48
    } else if 97 <= code && code <= 122 {
        code - 87
    } else if 65 <= code && code <= 90 {
        code - 55
    } else {
        99
    }
}

/// `value` written in `radix`.
pub fn write_digits(value: u64, radix: u64) -> (digits: Vec<char>)
    requires
        2 <= radix <= 16,
    ensures
        digits@ == digits_of(value as nat, radix as nat),
    decreases value,
{
    if value < radix {
        let mut digits = Vec::new();
        digits.push(digit_character(value));
        assert(digits@ =~= seq![digit_char(value as nat)]);
        digits
    } else {
        proof {
            lemma_quotient_smaller(value as nat, radix as nat);
        }
        let mut digits = write_digits(value / radix, radix);
        digits.push(digit_character(value % radix));
        digits
    }
}

/// Whether every character is a digit of `radix`.
pub fn every_digit(text: &Vec<char>, radix: u32) -> (every: bool)
    ensures
        every == all_digits(text@, radix as nat),
{
    let mut index: usize = 0;
    while index < text.len()
        invariant
            index <= text.len(),
            forall|earlier: int| 0 <= earlier < index ==> is_digit_of(#[trigger] text@[earlier], radix as nat),
        decreases text.len() - index,
    {
        if digit_worth(text[index]) >= radix {
            return false;
        }
        index = index + 1;
    }
    true
}

/// What a run of digits is worth, or `None` when that is more than a `u64`
/// holds.
pub fn parse_digits(text: &Vec<char>, radix: u64) -> (value: Option<u64>)
    requires
        2 <= radix <= 16,
        all_digits(text@, radix as nat),
    ensures
        match value {
            Some(value) => value == value_of(text@, radix as nat),
            None => value_of(text@, radix as nat) > u64::MAX,
        },
{
    let mut value: u64 = 0;
    let mut index: usize = 0;
    while index < text.len()
        invariant
            2 <= radix <= 16,
            index <= text.len(),
            all_digits(text@, radix as nat),
            value == value_of(text@.take(index as int), radix as nat),
        decreases text.len() - index,
    {
        let ghost before = text@.take(index as int);
        let ghost after = text@.take(index + 1);
        assert(after.drop_last() =~= before);
        assert(after.last() == text@[index as int]);
        assert(is_digit_of(text@[index as int], radix as nat));
        let digit = digit_worth(text[index]) as u64;
        match value.checked_mul(radix) {
            Some(shifted) => match shifted.checked_add(digit) {
                Some(next) => {
                    value = next;
                },
                None => {
                    proof {
                        lemma_value_of_prefix(text@, radix as nat, index + 1);
                    }
                    return None;
                },
            },
            None => {
                proof {
                    lemma_value_of_prefix(text@, radix as nat, index + 1);
                    assert(value * radix + digit >= value * radix);
                }
                return None;
            },
        }
        index = index + 1;
    }
    assert(text@.take(text.len() as int) =~= text@);
    Some(value)
}

} // verus!
