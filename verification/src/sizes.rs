//! Sizes as the reader reads them: in bytes, KiB or MiB, the binary units
//! used by the rest of the tool.

use vstd::prelude::*;
use vstd::arithmetic::power2::{pow2, lemma_pow2_pos, lemma2_to64, lemma2_to64_rest};
use crate::numerals::{digit_char, digit_character, digits_of, write_digits};
use crate::text::{chars_of, extend, extend_str, string_of};

verus! {

pub const KIB: u64 = 1024;
pub const MIB: u64 = 1024 * 1024;

/// How many binary digits `value` has.
pub open spec fn bit_length(value: nat) -> nat
    decreases value,
{
    if value == 0 {
        0
    } else {
        1 + bit_length(value / 2)
    }
}

/// The value a double-precision float holds for `value`: the nearest one with
/// fifty-three significant bits, a tie going to the even one.
pub open spec fn as_double(value: nat) -> nat {
    if value < pow2(53) {
        value
    } else {
        let unit = pow2((bit_length(value) - 53) as nat);
        let quotient = value / unit;
        let remainder = value % unit;
        if 2 * remainder > unit || (2 * remainder == unit && quotient % 2 == 1) {
            (quotient + 1) * unit
        } else {
            quotient * unit
        }
    }
}

/// `value / unit` in hundredths, rounded to the nearest, a tie going to the
/// even one.
pub open spec fn hundredths(value: nat, unit: nat) -> nat {
    let quotient = (value * 100) / unit;
    let remainder = (value * 100) % unit;
    if 2 * remainder > unit || (2 * remainder == unit && quotient % 2 == 1) {
        quotient + 1
    } else {
        quotient
    }
}

/// A number of hundredths written with two decimals.
pub open spec fn two_places(amount: nat) -> Seq<char> {
    digits_of(amount / 100, 10) + "."@ + seq![
        digit_char((amount % 100) / 10),
        digit_char(amount % 10),
    ]
}

/// A size written in the largest binary unit it reaches, with two decimals,
/// or in bytes below a kibibyte.
pub open spec fn size_text(size: u64) -> Seq<char> {
    if size >= MIB {
        two_places(hundredths(as_double(size as nat), MIB as nat)) + " MiB"@
    } else if size >= KIB {
        two_places(hundredths(as_double(size as nat), KIB as nat)) + " KiB"@
    } else {
        digits_of(size as nat, 10) + " bytes"@
    }
}

proof fn lemma_bit_length_bounds(value: nat)
    ensures
        value < pow2(bit_length(value)),
        value > 0 ==> pow2((bit_length(value) - 1) as nat) <= value,
    decreases value,
{
    lemma2_to64();
    if value > 0 {
        lemma_bit_length_bounds(value / 2);
        vstd::arithmetic::power2::lemma_pow2_unfold(bit_length(value));
        if value / 2 > 0 {
            vstd::arithmetic::power2::lemma_pow2_unfold((bit_length(value) - 1) as nat);
        }
    }
}

proof fn lemma_bit_length_at_most(value: nat, bound: nat)
    requires
        value < pow2(bound),
    ensures
        bit_length(value) <= bound,
    decreases value,
{
    lemma2_to64();
    if value > 0 {
        if bound == 0 {
            assert(false);
        } else {
            vstd::arithmetic::power2::lemma_pow2_unfold(bound);
            lemma_bit_length_at_most(value / 2, (bound - 1) as nat);
        }
    }
}

/// How many binary digits `value` has.
fn bits_in(value: u64) -> (length: u64)
    ensures
        length == bit_length(value as nat),
        length <= 64,
{
    let mut rest = value;
    let mut length: u64 = 0;
    proof {
        lemma2_to64();
        lemma_bit_length_at_most(value as nat, 64);
    }
    while rest > 0
        invariant
            length + bit_length(rest as nat) == bit_length(value as nat),
            bit_length(value as nat) <= 64,
        decreases rest,
    {
        rest = rest / 2;
        length = length + 1;
    }
    length
}

/// The value a double-precision float holds for `value`.
fn double_of(value: u64) -> (held: u128)
    ensures
        held == as_double(value as nat),
        held <= 0x1_0000_0000_0000_0000,
{
    proof {
        lemma2_to64();
        lemma2_to64_rest();
    }
    if value < 0x20_0000_0000_0000 {
        return value as u128;
    }
    let length = bits_in(value);
    proof {
        lemma_bit_length_bounds(value as nat);
        if length <= 53 {
            if length < 53 {
                vstd::arithmetic::power2::lemma_pow2_strictly_increases(length as nat, 53);
            }
            assert(false);
        }
    }
    let shift = length - 53;
    let unit: u64 = 1u64 << shift;
    proof {
        vstd::bits::lemma_u64_pow2_no_overflow(shift as nat);
        vstd::bits::lemma_u64_shl_is_mul(1, shift);
        lemma_pow2_pos(shift as nat);
        assert(shift <= 11);
        if shift < 11 {
            vstd::arithmetic::power2::lemma_pow2_strictly_increases(shift as nat, 11);
        }
        assert(unit <= 2048);
    }
    let quotient = value / unit;
    let remainder = value % unit;
    proof {
        vstd::arithmetic::div_mod::lemma_fundamental_div_mod(value as int, unit as int);
        vstd::arithmetic::div_mod::lemma_mod_bound(value as int, unit as int);
        assert(quotient * unit + remainder == value) by (nonlinear_arith)
            requires
                value == unit * quotient + remainder,
        ;
        assert((quotient + 1) * unit <= value + unit) by (nonlinear_arith)
            requires
                quotient * unit + remainder == value,
                remainder >= 0,
        ;
    }
    proof {
        vstd::arithmetic::power2::lemma_pow2_adds(53, shift as nat);
        lemma_bit_length_at_most(value as nat, 64);
        if length < 64 {
            vstd::arithmetic::power2::lemma_pow2_strictly_increases(length as nat, 64);
        }
        vstd::arithmetic::div_mod::lemma_multiply_divide_lt(
            value as int,
            unit as int,
            pow2(53) as int,
        );
        assert((quotient + 1) * unit <= pow2(53) * unit) by (nonlinear_arith)
            requires
                quotient + 1 <= pow2(53),
                unit > 0,
        ;
        assert(pow2(53) * unit == unit * pow2(53)) by (nonlinear_arith);
    }
    if 2 * remainder > unit || (2 * remainder == unit && quotient % 2 == 1) {
        (quotient as u128 + 1) * unit as u128
    } else {
        quotient as u128 * unit as u128
    }
}

/// `held / unit` in hundredths, rounded to the nearest, a tie to the even one.
fn hundredths_of(held: u128, unit: u64) -> (amount: u128)
    requires
        held <= 0x1_0000_0000_0000_0000,
        unit >= 1024,
    ensures
        amount == hundredths(held as nat, unit as nat),
        amount / 100 < 0x1_0000_0000_0000_0000,
{
    let scaled = held * 100;
    let unit = unit as u128;
    let quotient = scaled / unit;
    let remainder = scaled % unit;
    proof {
        vstd::arithmetic::div_mod::lemma_div_is_ordered_by_denominator(scaled as int, 1024, unit as int);
        vstd::arithmetic::div_mod::lemma_div_is_ordered(scaled as int, 0x64_0000_0000_0000_0000, 1024);
        vstd::arithmetic::div_mod::lemma_mod_bound(scaled as int, unit as int);
    }
    if 2 * remainder > unit || (2 * remainder == unit && quotient % 2 == 1) {
        quotient + 1
    } else {
        quotient
    }
}

/// Human-readable file size, in the binary units used by the rest of the tool.
pub fn format_size(size: u64) -> (text: String)
    ensures
        text@ == size_text(size),
{
    if size >= KIB {
        let unit = if size >= MIB {
            MIB
        } else {
            KIB
        };
        let amount = hundredths_of(double_of(size), unit);
        let mut written = write_digits((amount / 100) as u64, 10);
        written.push('.');
        written.push(digit_character(((amount % 100) / 10) as u64));
        written.push(digit_character((amount % 10) as u64));
        if size >= MIB {
            extend_str(&mut written, " MiB");
        } else {
            extend_str(&mut written, " KiB");
        }
        proof {
            assert(written@ =~= two_places(amount as nat) + (if size >= MIB {
                " MiB"@
            } else {
                " KiB"@
            })) by {
                reveal_strlit(".");
            }
        }
        string_of(&written)
    } else {
        let mut written = write_digits(size, 10);
        extend_str(&mut written, " bytes");
        string_of(&written)
    }
}

} // verus!
