use vstd::prelude::*;
use vstd::arithmetic::power2::{pow2, lemma_pow2_adds, lemma_pow2_pos, lemma2_to64};
use crate::calculator::field::{Refusal, byte_at, byte_of, bytes_of};
use crate::calculator::width::{
    Width, lemma_kept_ignores_words, lemma_kept_of_word, lemma_kept_within,
};

verus! {

/// One two-sided operation, waiting for its right-hand side.
#[derive(Clone, Copy, Debug, PartialEq, Eq, Structural)]
pub enum Operation {
    Add,
    Subtract,
    Multiply,
    /// Integer division, unsigned. A division by zero is refused rather than
    /// answered: it has no answer.
    Divide,
    Remainder,
    ShiftLeft,
    ShiftRight,
    /// The arithmetic one: the sign comes down with the value.
    ShiftRightSigned,
    RotateLeft,
    RotateRight,
    And,
    Or,
    Xor,
}

/// An operation with only one side, which therefore happens at once.
#[derive(Clone, Copy, Debug, PartialEq, Eq, Structural)]
pub enum Unary {
    Not,
    Negate,
    /// The bytes the other way round, which is what a little-endian dump of
    /// the value reads as.
    SwapBytes,
}

/// `value` of `bits` bits turned `turn` places towards the top, the bits
/// that leave the top coming back in at the bottom.
pub open spec fn rotated(value: nat, turn: nat, bits: nat) -> nat {
    (value % pow2((bits - turn) as nat)) * pow2(turn) + value / pow2((bits - turn) as nat)
}

/// A shift or rotation distance: a count of bits, and one too large for a
/// `u32` counted as the largest there is.
pub open spec fn distance(right: nat) -> nat {
    if right > u32::MAX {
        u32::MAX as nat
    } else {
        right
    }
}

/// What a run of bytes is worth, the first weighing most.
pub open spec fn bytes_value(bytes: Seq<nat>) -> nat
    decreases bytes.len(),
{
    if bytes.len() == 0 {
        0
    } else {
        bytes_value(bytes.drop_last()) * 256 + bytes.last()
    }
}

impl Operation {
    /// What the operation works out to inside `width`, from both sides held to
    /// the width.
    pub open spec fn outcome(self, left: u64, right: u64, width: Width) -> Result<u64, Refusal> {
        let bits = width.bit_count();
        let l = width.kept(left as int);
        let r = width.kept(right as int);
        let turn = distance(r) % bits;
        match self {
            Operation::Add => Ok(width.kept(l + r as int) as u64),
            Operation::Subtract => Ok(width.kept(l - r) as u64),
            Operation::Multiply => Ok(width.kept((l * r) as int) as u64),
            Operation::Divide => if r == 0 {
                Err(Refusal::ByZero)
            } else {
                Ok((l / r) as u64)
            },
            Operation::Remainder => if r == 0 {
                Err(Refusal::ByZero)
            } else {
                Ok((l % r) as u64)
            },
            Operation::ShiftLeft => if r >= bits {
                Ok(0)
            } else {
                Ok(width.kept((l * pow2(r)) as int) as u64)
            },
            Operation::ShiftRight => if r >= bits {
                Ok(0)
            } else {
                Ok((l / pow2(r)) as u64)
            },
            Operation::ShiftRightSigned => {
                let by = if r < bits - 1 {
                    r
                } else {
                    (bits - 1) as nat
                };
                Ok(width.kept(width.signed_reading(l as int) / (pow2(by) as int)) as u64)
            },
            Operation::RotateLeft => Ok(rotated(l, turn, bits) as u64),
            Operation::RotateRight => Ok(rotated(l, ((bits - turn) as nat) % bits, bits) as u64),
            Operation::And => Ok((l as u64) & (r as u64)),
            Operation::Or => Ok((l as u64) | (r as u64)),
            Operation::Xor => Ok((l as u64) ^ (r as u64)),
        }
    }
}

impl Unary {
    /// What the operation makes of `value` inside `width`.
    pub open spec fn outcome(self, value: u64, width: Width) -> u64 {
        let v = width.kept(value as int);
        match self {
            Unary::Not => (width.top() - v) as u64,
            Unary::Negate => width.kept(-v) as u64,
            Unary::SwapBytes => bytes_value(bytes_of(v, width.bit_count() / 8).reverse()) as u64,
        }
    }
}

/// A width's limit is two to its bit count.
pub proof fn lemma_limit_is_power(width: Width)
    ensures
        pow2(width.bit_count()) == width.limit(),
{
    lemma2_to64();
}

/// Two to `exponent`, for an exponent a word can shift by.
fn power_of_two(exponent: u32) -> (power: u64)
    requires
        exponent < 64,
    ensures
        power == pow2(exponent as nat),
{
    proof {
        vstd::bits::lemma_u64_pow2_no_overflow(exponent as nat);
        vstd::bits::lemma_u64_shl_is_mul(1, exponent as u64);
    }
    1u64 << exponent
}

/// `value` turned `turn` places towards the top of `width`.
fn rotate(value: u64, turn: u32, width: Width) -> (rotated_value: u64)
    requires
        value <= width.top(),
        turn < width.bit_count(),
    ensures
        rotated_value == rotated(value as nat, turn as nat, width.bit_count()),
        rotated_value <= width.top(),
{
    let bits = width.bits();
    proof {
        lemma_limit_is_power(width);
        lemma_pow2_pos(0);
        lemma2_to64();
    }
    if turn == 0 {
        proof {
            vstd::arithmetic::div_mod::lemma_small_mod(value as nat, width.limit());
            vstd::arithmetic::div_mod::lemma_basic_div(value as int, width.limit() as int);
        }
        return value;
    }
    let keep = bits - turn;
    let low_part = power_of_two(keep);
    let high_part = power_of_two(turn);
    proof {
        lemma_pow2_adds(keep as nat, turn as nat);
        lemma_pow2_pos(turn as nat);
        lemma_pow2_pos(keep as nat);
        assert(value < low_part * high_part);
        vstd::arithmetic::div_mod::lemma_multiply_divide_lt(
            value as int,
            low_part as int,
            high_part as int,
        );
        let low = value as int % low_part as int;
        assert(0 <= low < low_part) by {
            vstd::arithmetic::div_mod::lemma_mod_bound(value as int, low_part as int);
        }
        assert(low * high_part + (value as int / low_part as int) < low_part * high_part)
            by (nonlinear_arith)
            requires
                0 <= low < low_part,
                0 <= (value as int / low_part as int) < high_part,
        ;
    }
    (value % low_part) * high_part + value / low_part
}

/// `value` shifted `by` places towards the top of `width`, what leaves the
/// top lost.
fn shift_left(value: u64, by: u32, width: Width) -> (shifted: u64)
    requires
        value <= width.top(),
        by < width.bit_count(),
    ensures
        shifted == width.kept(value * pow2(by as nat)),
        shifted <= width.top(),
{
    proof {
        lemma_kept_within(width, value * pow2(by as nat));
    }
    let bits = width.bits();
    proof {
        lemma_limit_is_power(width);
        lemma2_to64();
    }
    if by == 0 {
        proof {
            assert(pow2(by as nat) == 1);
            assert(value * pow2(by as nat) == value) by (nonlinear_arith)
                requires
                    pow2(by as nat) == 1,
            ;
            vstd::arithmetic::div_mod::lemma_small_mod(value as nat, width.limit());
        }
        return value;
    }
    let keep = bits - by;
    let low_part = power_of_two(keep);
    let high_part = power_of_two(by);
    proof {
        lemma_pow2_adds(keep as nat, by as nat);
        lemma_pow2_pos(by as nat);
        lemma_pow2_pos(keep as nat);
        let low = value as int % low_part as int;
        assert(0 <= low < low_part) by {
            vstd::arithmetic::div_mod::lemma_mod_bound(value as int, low_part as int);
        }
        assert(low * high_part < low_part * high_part) by (nonlinear_arith)
            requires
                0 <= low < low_part,
                0 < high_part,
        ;
        vstd::arithmetic::div_mod::lemma_truncate_middle(
            value as int,
            high_part as int,
            low_part as int,
        );
        assert(high_part * value == value * high_part) by (nonlinear_arith);
        assert(high_part * low_part == low_part * high_part) by (nonlinear_arith);
        assert(high_part * low == low * high_part) by (nonlinear_arith);
    }
    (value % low_part) * high_part
}

/// The signed reading of `value` shifted `by` places towards the bottom, the
/// sign coming down with it, written back in `width`.
fn shift_right_signed(value: u64, by: u32, width: Width) -> (shifted: u64)
    requires
        value <= width.top(),
        by < width.bit_count(),
    ensures
        shifted == width.kept(width.signed_reading(value as int) / (pow2(by as nat) as int)),
        shifted <= width.top(),
{
    proof {
        lemma_kept_within(width, width.signed_reading(value as int) / (pow2(by as nat) as int));
    }
    let signed = width.signed(value);
    let divisor = power_of_two(by);
    let ghost limit = width.limit() as int;
    proof {
        lemma_pow2_pos(by as nat);
    }
    if signed >= 0 {
        let quotient = (signed as u64) / divisor;
        proof {
            assert(2 * signed < limit);
            vstd::arithmetic::div_mod::lemma_div_is_ordered_by_denominator(signed as int, 1, divisor as int);
            vstd::arithmetic::div_mod::lemma_small_mod(quotient as nat, width.limit());
        }
        quotient
    } else {
        let below: u64 = (-(signed + 1)) as u64;
        let quotient = below / divisor;
        let mask = width.mask();
        proof {
            let q = quotient as int;
            let d = divisor as int;
            let b = below as int;
            vstd::arithmetic::div_mod::lemma_fundamental_div_mod(b, d);
            vstd::arithmetic::div_mod::lemma_mod_bound(b, d);
            let r = b % d;
            assert(b == d * q + r);
            assert(signed as int == (-q - 1) * d + (d - r - 1)) by (nonlinear_arith)
                requires
                    b == d * q + r,
                    b == -(signed as int) - 1,
            ;
            vstd::arithmetic::div_mod::lemma_fundamental_div_mod_converse(
                signed as int,
                d,
                -q - 1,
                d - r - 1,
            );
            vstd::arithmetic::div_mod::lemma_div_is_ordered_by_denominator(b, 1, d);
            assert(q <= b);
            assert(-limit <= 2 * signed);
            vstd::arithmetic::div_mod::lemma_fundamental_div_mod_converse(
                -q - 1,
                limit,
                -1,
                limit - q - 1,
            );
        }
        mask - quotient
    }
}

/// The bitwise operations on two values of a width stay inside it.
proof fn lemma_bitwise_within(left: u64, right: u64, width: Width)
    requires
        left <= width.top(),
        right <= width.top(),
    ensures
        left & right <= width.top(),
        left | right <= width.top(),
        left ^ right <= width.top(),
{
    match width {
        Width::Eight => {
            assert(left <= 0xff && right <= 0xff ==> (left & right) <= 0xff && (left | right)
                <= 0xff && (left ^ right) <= 0xff) by (bit_vector);
        },
        Width::Sixteen => {
            assert(left <= 0xffff && right <= 0xffff ==> (left & right) <= 0xffff && (left
                | right) <= 0xffff && (left ^ right) <= 0xffff) by (bit_vector);
        },
        Width::ThirtyTwo => {
            assert(left <= 0xffff_ffff && right <= 0xffff_ffff ==> (left & right) <= 0xffff_ffff
                && (left | right) <= 0xffff_ffff && (left ^ right) <= 0xffff_ffff)
                by (bit_vector);
        },
        Width::SixtyFour => {},
    }
}

impl Operation {
    /// What the button carries, and what is shown while the operation waits.
    pub open spec fn sign_text(self) -> Seq<char> {
        match self {
            Operation::Add => seq!['+'],
            Operation::Subtract => seq!['\u{2212}'],
            Operation::Multiply => seq!['\u{d7}'],
            Operation::Divide => seq!['\u{f7}'],
            Operation::Remainder => seq!['m', 'o', 'd'],
            Operation::ShiftLeft => seq!['s', 'h', 'l'],
            Operation::ShiftRight => seq!['s', 'h', 'r'],
            Operation::ShiftRightSigned => seq!['s', 'a', 'r'],
            Operation::RotateLeft => seq!['r', 'o', 'l'],
            Operation::RotateRight => seq!['r', 'o', 'r'],
            Operation::And => seq!['a', 'n', 'd'],
            Operation::Or => seq!['o', 'r'],
            Operation::Xor => seq!['x', 'o', 'r'],
        }
    }

    /// What the button carries: the arithmetic in signs, because that is what
    /// a calculator has on it, and everything else in the mnemonic of the
    /// instruction it stands for.
    pub fn sign(self) -> (sign: &'static str)
        ensures
            sign@ == self.sign_text(),
    {
        proof {
            reveal_strlit("+");
            reveal_strlit("\u{2212}");
            reveal_strlit("\u{d7}");
            reveal_strlit("\u{f7}");
            reveal_strlit("mod");
            reveal_strlit("shl");
            reveal_strlit("shr");
            reveal_strlit("sar");
            reveal_strlit("rol");
            reveal_strlit("ror");
            reveal_strlit("and");
            reveal_strlit("or");
            reveal_strlit("xor");
        }
        match self {
            Operation::Add => "+",
            Operation::Subtract => "\u{2212}",
            Operation::Multiply => "\u{d7}",
            Operation::Divide => "\u{f7}",
            Operation::Remainder => "mod",
            Operation::ShiftLeft => "shl",
            Operation::ShiftRight => "shr",
            Operation::ShiftRightSigned => "sar",
            Operation::RotateLeft => "rol",
            Operation::RotateRight => "ror",
            Operation::And => "and",
            Operation::Or => "or",
            Operation::Xor => "xor",
        }
    }

    /// Works the operation out inside `width`.
    ///
    /// Everything happens in the chosen width: what overflows is lost, a shift
    /// throws bits off the end of this value, and a rotation brings them round
    /// to its own bottom. A division by zero is refused.
    pub fn apply(self, left: u64, right: u64, width: Width) -> (worked_out: Result<u64, Refusal>)
        ensures
            worked_out == self.outcome(left, right, width),
            worked_out matches Ok(value) ==> value <= width.top(),
    {
        let bits = width.bits();
        let left = width.keep(left);
        let right = width.keep(right);
        let distance: u32 = if right > 0xffff_ffff {
            u32::MAX
        } else {
            right as u32
        };
        let far = distance >= bits;
        let turn = distance % bits;
        let back = (bits - turn) % bits;
        match self {
            Operation::Add => {
                proof {
                    lemma_kept_ignores_words(width, left + right, -1);
                }
                Ok(width.keep(left.wrapping_add(right)))
            },
            Operation::Subtract => {
                proof {
                    lemma_kept_ignores_words(width, left - right, 1);
                }
                Ok(width.keep(left.wrapping_sub(right)))
            },
            Operation::Multiply => {
                proof {
                    lemma_kept_of_word(width, left * right);
                }
                Ok(width.keep(left.wrapping_mul(right)))
            },
            Operation::Divide => match left.checked_div(right) {
                Some(quotient) => {
                    proof {
                        vstd::arithmetic::div_mod::lemma_div_is_ordered_by_denominator(
                            left as int,
                            1,
                            right as int,
                        );
                    }
                    Ok(quotient)
                },
                None => Err(Refusal::ByZero),
            },
            Operation::Remainder => match left.checked_rem(right) {
                Some(remainder) => Ok(remainder),
                None => Err(Refusal::ByZero),
            },
            Operation::ShiftLeft => if far {
                Ok(0)
            } else {
                Ok(shift_left(left, distance, width))
            },
            Operation::ShiftRight => if far {
                Ok(0)
            } else {
                proof {
                    vstd::bits::lemma_u64_shr_is_div(left, distance as u64);
                    lemma_pow2_pos(distance as nat);
                    vstd::arithmetic::div_mod::lemma_div_is_ordered_by_denominator(
                        left as int,
                        1,
                        pow2(distance as nat) as int,
                    );
                }
                Ok(left >> distance)
            },
            Operation::ShiftRightSigned => {
                let by = if distance < bits - 1 {
                    distance
                } else {
                    bits - 1
                };
                Ok(shift_right_signed(left, by, width))
            },
            Operation::RotateLeft => Ok(rotate(left, turn, width)),
            Operation::RotateRight => Ok(rotate(left, back, width)),
            Operation::And => {
                proof {
                    lemma_bitwise_within(left, right, width);
                }
                Ok(left & right)
            },
            Operation::Or => {
                proof {
                    lemma_bitwise_within(left, right, width);
                }
                Ok(left | right)
            },
            Operation::Xor => {
                proof {
                    lemma_bitwise_within(left, right, width);
                }
                Ok(left ^ right)
            },
        }
    }
}

impl Unary {
    /// Works the operation out inside `width`.
    pub fn apply(self, value: u64, width: Width) -> (worked_out: u64)
        ensures
            worked_out == self.outcome(value, width),
            worked_out <= width.top(),
    {
        let mask = width.mask();
        let value = width.keep(value);
        match self {
            Unary::Not => mask - value,
            Unary::Negate => {
                if value == 0 {
                    0
                } else {
                    proof {
                        vstd::arithmetic::div_mod::lemma_fundamental_div_mod_converse(
                            -(value as int),
                            width.limit() as int,
                            -1,
                            width.limit() - value,
                        );
                    }
                    mask - (value - 1)
                }
            },
            Unary::SwapBytes => swap_bytes(value, width),
        }
    }
}

/// The bytes of `value` the other way round, inside `width`: the bytes of a
/// sixteen-bit value are its two, not two of eight.
fn swap_bytes(value: u64, width: Width) -> (swapped: u64)
    ensures
        swapped == bytes_value(bytes_of(value as nat, width.bit_count() / 8).reverse()),
        swapped <= width.top(),
{
    let count = width.bits() / 8;
    let ghost reversed = bytes_of(value as nat, count as nat).reverse();
    let mut swapped: u64 = 0;
    let mut index: u32 = 0;
    proof {
        lemma2_to64();
    }
    while index < count
        invariant
            count == width.bit_count() / 8,
            1 <= count <= 8,
            index <= count,
            reversed == bytes_of(value as nat, count as nat).reverse(),
            swapped == bytes_value(reversed.take(index as int)),
            swapped < pow2((8 * index) as nat),
        decreases count - index,
    {
        let byte = byte_of(value, index) as u64;
        let ghost before = reversed.take(index as int);
        let ghost after = reversed.take(index + 1);
        assert(after.drop_last() =~= before);
        assert(after.last() == byte_at(value as nat, count as nat, count - 1 - index));
        assert(after.last() == byte);
        proof {
            lemma_pow2_adds((8 * index) as nat, 8);
            lemma2_to64();
            vstd::arithmetic::power2::lemma2_to64_rest();
            if index < 7 {
                vstd::arithmetic::power2::lemma_pow2_strictly_increases((8 * index) as nat, 56);
            }
            assert(swapped < 0x100_0000_0000_0000);
            assert(swapped * 256 + byte < pow2((8 * index) as nat) * 256) by (nonlinear_arith)
                requires
                    swapped < pow2((8 * index) as nat),
                    byte < 256,
            ;
        }
        swapped = swapped * 256 + byte;
        index = index + 1;
    }
    assert(reversed.take(count as int) =~= reversed);
    proof {
        crate::calculator::operation::lemma_limit_is_power(width);
    }
    swapped
}

} // verus!
