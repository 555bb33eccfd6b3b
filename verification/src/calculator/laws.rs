//! What the calculator promises of itself as a whole.

use vstd::prelude::*;
use crate::calculator::field::{
    Field, Refusal, blank_free, bytes_of, byte_at, codes_value, all_ascii, grouped_prefix, grouped_text,
    is_blank, is_printable, shown_byte, space_before, without_leading_zeros,
};
use crate::calculator::operation::{Operation, Unary, bytes_value, distance, rotated, lemma_limit_is_power};
use crate::calculator::state::StateView;
use crate::calculator::width::Width;
use vstd::arithmetic::power2::{pow2, lemma_pow2_adds, lemma_pow2_pos, lemma2_to64};
use vstd::arithmetic::div_mod::{lemma_div_denominator, lemma_mod_breakdown};
use crate::numerals::{all_digits, digit_value, digits_of, value_of, lemma_digits_round_trip};

verus! {

/// A character worth a digit in some base is never a blank.
proof fn lemma_digit_is_not_blank(character: char)
    requires
        digit_value(character) < 36,
    ensures
        !is_blank(character),
        character != '-',
        character != '+',
{
}

/// Taking the blanks out of text that has none leaves it as it was.
proof fn lemma_blank_free_of_digits(text: Seq<char>, radix: nat)
    requires
        radix <= 36,
        all_digits(text, radix),
    ensures
        blank_free(text) == text,
    decreases text.len(),
{
    if text.len() > 0 {
        let rest = text.drop_last();
        assert(all_digits(rest, radix)) by {
            assert forall|index: int| 0 <= index < rest.len() implies crate::numerals::is_digit_of(
                #[trigger] rest[index],
                radix,
            ) by {
                assert(rest[index] == text[index]);
            }
        }
        lemma_blank_free_of_digits(rest, radix);
        assert(crate::numerals::is_digit_of(text[text.len() - 1], radix));
        lemma_digit_is_not_blank(text.last());
        assert(rest.push(text.last()) =~= text);
    }
}

/// Taking the blanks out of grouped digits gives the digits back.
proof fn lemma_blank_free_of_grouped(digits: Seq<char>, length: int)
    requires
        0 <= length <= digits.len(),
        all_digits(digits, 2),
    ensures
        blank_free(grouped_prefix(digits, length)) == digits.take(length),
    decreases length,
{
    if length == 0 {
        assert(digits.take(0) =~= Seq::<char>::empty());
    } else {
        lemma_blank_free_of_grouped(digits, length - 1);
        let before = grouped_prefix(digits, length - 1);
        let spaced = if space_before(length - 1, digits.len() as int) {
            before.push(' ')
        } else {
            before
        };
        if space_before(length - 1, digits.len() as int) {
            assert(spaced.drop_last() =~= before);
            assert(blank_free(spaced) == blank_free(before));
        }
        let whole = spaced.push(digits[length - 1]);
        assert(crate::numerals::is_digit_of(digits[length - 1], 2));
        lemma_digit_is_not_blank(digits[length - 1]);
        assert(whole.drop_last() =~= spaced);
        assert(digits.take(length) =~= digits.take(length - 1).push(digits[length - 1]));
    }
}

/// Digits written with no leading zero never start with a prefix.
proof fn lemma_no_prefix_on_digits(field: Field, value: nat, radix: nat)
    requires
        2 <= radix <= 36,
    ensures
        field.digits_part(digits_of(value, radix)) == digits_of(value, radix),
{
    lemma_digits_round_trip(value, radix);
}

/// Text that does not start with a sign keeps its first character out of
/// the signed reading's way.
proof fn lemma_kept_signed_reading(width: Width, kept: nat)
    requires
        kept < width.limit(),
    ensures
        width.kept(width.signed_reading(kept as int)) == kept,
        -(width.limit() as int) <= 2 * width.signed_reading(kept as int) < width.limit(),
{
    let limit = width.limit() as int;
    assert(width.kept(kept as int) == kept) by {
        vstd::arithmetic::div_mod::lemma_small_mod(kept, width.limit());
    }
    if kept * 2 >= width.limit() {
        vstd::arithmetic::div_mod::lemma_fundamental_div_mod_converse(
            kept - limit,
            limit,
            -1,
            kept as int,
        );
    }
}

/// Every field but the string reads back what it wrote: the six fields are
/// one number written six ways, and reading any of them again gives the
/// value it was written from, held to the width.
pub proof fn lemma_every_field_reads_back_what_it_wrote(field: Field, value: u64, width: Width)
    requires
        field != Field::Ascii,
    ensures
        field.reading(field.writing(value, width), width) == Ok::<u64, Refusal>(
            width.kept(value as int) as u64,
        ),
{
    let kept = width.kept(value as int);
    assert(kept < width.limit());
    let written = field.writing(value, width);
    match field {
        Field::Hexadecimal | Field::Decimal | Field::Octal => {
            let radix = field.radix();
            lemma_digits_round_trip(kept, radix);
            lemma_blank_free_of_digits(written, radix);
            lemma_no_prefix_on_digits(field, kept, radix);
        },
        Field::Binary => {
            let digits = digits_of(kept, 2);
            lemma_digits_round_trip(kept, 2);
            lemma_blank_free_of_grouped(digits, digits.len() as int);
            assert(digits.take(digits.len() as int) =~= digits);
            lemma_no_prefix_on_digits(field, kept, 2);
        },
        Field::Signed => {
            let reading = width.signed_reading(kept as int);
            lemma_kept_signed_reading(width, kept);
            if reading < 0 {
                let magnitude = digits_of((-reading) as nat, 10);
                lemma_digits_round_trip((-reading) as nat, 10);
                assert(written == seq!['-'] + magnitude);
                lemma_blank_free_of_digits(magnitude, 10);
                assert(blank_free(written) == written) by {
                    lemma_blank_free_prepend_sign(magnitude);
                }
                assert(written.skip(1) =~= magnitude);
            } else {
                lemma_digits_round_trip(reading as nat, 10);
                lemma_blank_free_of_digits(written, 10);
                assert(crate::numerals::is_digit_of(written[0], 10));
                lemma_digit_is_not_blank(written[0]);
            }
        },
        Field::Ascii => {},
    }
}

/// A minus sign in front of digits is not a blank either.
proof fn lemma_blank_free_prepend_sign(digits: Seq<char>)
    requires
        blank_free(digits) == digits,
    ensures
        blank_free(seq!['-'] + digits) == seq!['-'] + digits,
    decreases digits.len(),
{
    assert(!is_blank('-'));
    if digits.len() == 0 {
        let sign = seq!['-'];
        assert(seq!['-'] + digits =~= sign);
        assert(sign.drop_last() =~= Seq::<char>::empty());
        assert(sign.last() == '-');
        assert(blank_free(sign) == blank_free(sign.drop_last()).push('-'));
        assert(blank_free(Seq::<char>::empty()) == Seq::<char>::empty());
        assert(Seq::<char>::empty().push('-') =~= sign);
    } else {
        let rest = digits.drop_last();
        let whole = seq!['-'] + digits;
        assert(whole.drop_last() =~= seq!['-'] + rest);
        if is_blank(digits.last()) {
            assert(blank_free(digits) == blank_free(rest));
            assert(blank_free(rest).len() <= rest.len()) by {
                lemma_blank_free_shorter(rest);
            }
            assert(false);
        } else {
            assert(blank_free(digits) == blank_free(rest).push(digits.last()));
            assert(blank_free(rest) =~= rest);
            lemma_blank_free_prepend_sign(rest);
            assert(whole =~= (seq!['-'] + rest).push(digits.last()));
        }
    }
}

proof fn lemma_blank_free_shorter(text: Seq<char>)
    ensures
        blank_free(text).len() <= text.len(),
    decreases text.len(),
{
    if text.len() > 0 {
        lemma_blank_free_shorter(text.drop_last());
    }
}

/// A rotation by nothing is the value itself, and a rotation by `turn` of a
/// value of `bits` bits is taken apart again by a rotation by the rest.
proof fn lemma_rotation_round_trip(value: nat, turn: nat, bits: nat)
    requires
        1 <= bits <= 64,
        turn < bits,
        value < pow2(bits),
    ensures
        rotated(value, turn, bits) < pow2(bits),
        rotated(rotated(value, turn, bits), ((bits - turn) as nat) % bits, bits) == value,
{
    lemma_pow2_pos(bits);
    if turn == 0 {
        assert(rotated(value, 0, bits) == value) by {
            lemma_rotation_by_nothing(value, bits);
        }
        assert(((bits - turn) as nat) % bits == 0) by {
            vstd::arithmetic::div_mod::lemma_mod_self_0(bits as int);
        }
    } else {
        let keep = (bits - turn) as nat;
        let low_part = pow2(keep);
        let high_part = pow2(turn);
        lemma_pow2_pos(keep);
        lemma_pow2_pos(turn);
        lemma_pow2_adds(keep, turn);
        let low = value % low_part;
        let high = value / low_part;
        vstd::arithmetic::div_mod::lemma_fundamental_div_mod(value as int, low_part as int);
        vstd::arithmetic::div_mod::lemma_mod_bound(value as int, low_part as int);
        vstd::arithmetic::div_mod::lemma_multiply_divide_lt(value as int, low_part as int, high_part as int);
        let turned = low * high_part + high;
        assert(turned < low_part * high_part) by (nonlinear_arith)
            requires
                low < low_part,
                high < high_part,
                turned == low * high_part + high,
        ;
        assert(rotated(value, turn, bits) == turned);
        assert(((bits - turn) as nat) % bits == keep) by {
            vstd::arithmetic::div_mod::lemma_small_mod(keep, bits);
        }
        assert((bits - keep) as nat == turn);
        vstd::arithmetic::div_mod::lemma_fundamental_div_mod_converse(
            turned as int,
            high_part as int,
            low as int,
            high as int,
        );
        assert(rotated(turned, keep, bits) == high * low_part + low);
        assert(high * low_part + low == value) by (nonlinear_arith)
            requires
                value == low_part * high + low,
        ;
    }
}

proof fn lemma_rotation_by_nothing(value: nat, bits: nat)
    requires
        value < pow2(bits),
    ensures
        rotated(value, 0, bits) == value,
{
    lemma_pow2_pos(bits);
    vstd::arithmetic::power2::lemma2_to64();
    vstd::arithmetic::div_mod::lemma_small_mod(value, pow2(bits));
    vstd::arithmetic::div_mod::lemma_basic_div(value as int, pow2(bits) as int);
    assert(value * pow2(0) == value);
}

/// A rotation loses nothing: turned one way and back by the same distance,
/// any value of the width is itself again.
pub proof fn lemma_rotating_back_undoes_a_rotation(value: u64, right: u64, width: Width)
    ensures
        Operation::RotateLeft.outcome(value, right, width) matches Ok(turned)
            && Operation::RotateRight.outcome(turned, right, width) == Ok::<u64, Refusal>(
            width.kept(value as int) as u64,
        ),
{
    let bits = width.bit_count();
    let kept = width.kept(value as int);
    let turn = distance(width.kept(right as int)) % bits;
    lemma_limit_is_power(width);
    crate::calculator::width::lemma_kept_within(width, value as int);
    lemma_rotation_round_trip(kept, turn, bits);
    let turned = rotated(kept, turn, bits);
    assert(width.kept(turned as int) == turned) by {
        vstd::arithmetic::div_mod::lemma_small_mod(turned, width.limit());
    }
}

/// A rotation by the whole width comes back to the value.
pub proof fn lemma_rotating_by_the_width_keeps_the_value(value: u64, width: Width)
    ensures
        Operation::RotateLeft.outcome(value, width.bit_count() as u64, width) == Ok::<u64, Refusal>(
            width.kept(value as int) as u64,
        ),
{
    let bits = width.bit_count();
    lemma_limit_is_power(width);
    crate::calculator::width::lemma_kept_within(width, value as int);
    assert(width.kept(bits as int) == bits) by {
        vstd::arithmetic::div_mod::lemma_small_mod(bits, width.limit());
    }
    assert(bits % bits == 0) by {
        vstd::arithmetic::div_mod::lemma_mod_self_0(bits as int);
    }
    lemma_rotation_by_nothing(width.kept(value as int), bits);
}

/// A digit typed onto a number and taken back off again leaves the number
/// as it was.
pub proof fn lemma_backspace_takes_the_digit_back(state: StateView, digit: u32)
    requires
        state.wf(),
        !state.fresh,
        state.entry.radix() != 0,
        digit < state.entry.radix(),
        state.after_digit(digit).refused is None,
    ensures
        state.after_digit(digit).after_backspace().value == state.value,
{
    let radix = state.entry.radix();
    let next = state.value * radix + digit;
    assert(next <= state.width.top()) by {
        if next > state.width.top() {
            assert(state.after_digit(digit).refused == Some(Refusal::TooWide));
        }
    }
    vstd::arithmetic::div_mod::lemma_fundamental_div_mod_converse(
        next as int,
        radix as int,
        state.value as int,
        digit as int,
    );
}

/// Printable bytes shown as characters are ASCII, and spell the number the
/// bytes are.
proof fn lemma_codes_of_printable(bytes: Seq<nat>)
    requires
        forall|index: int| 0 <= index < bytes.len() ==> is_printable(#[trigger] bytes[index]),
    ensures
        all_ascii(bytes.map_values(|byte: nat| shown_byte(byte))),
        codes_value(bytes.map_values(|byte: nat| shown_byte(byte))) == bytes_value(bytes),
    decreases bytes.len(),
{
    let shown = bytes.map_values(|byte: nat| shown_byte(byte));
    if bytes.len() > 0 {
        let shorter = bytes.drop_last();
        assert(shown.drop_last() =~= shorter.map_values(|byte: nat| shown_byte(byte)));
        lemma_codes_of_printable(shorter);
        let last = bytes.last();
        assert(is_printable(bytes[bytes.len() - 1]));
        assert(((shown.last() as u32) as nat) == last);
        assert forall|index: int| 0 <= index < shown.len() implies ((#[trigger] shown[index]) as u32)
            < 128 by {
            assert(is_printable(bytes[index]));
        }
    }
}

/// The zero bytes in front of a number are worth nothing.
proof fn lemma_leading_zeros_worth_nothing(bytes: Seq<nat>)
    ensures
        bytes_value(without_leading_zeros(bytes)) == bytes_value(bytes),
        without_leading_zeros(bytes).len() <= bytes.len(),
    decreases bytes.len(),
{
    if bytes.len() > 0 {
        lemma_leading_zeros_worth_nothing(bytes.drop_last());
        let before = without_leading_zeros(bytes.drop_last());
        if !(before.len() == 0 && bytes.last() == 0) {
            assert(before.push(bytes.last()).drop_last() =~= before);
        }
    }
}

/// The bytes of a number but its last are the bytes of the number with its
/// last byte taken off; the last is the number's lowest byte.
proof fn lemma_bytes_of_split(value: nat, count: nat)
    requires
        count > 0,
    ensures
        bytes_of(value, count).drop_last() == bytes_of(value / 256, (count - 1) as nat),
        bytes_of(value, count).last() == value % 256,
{
    lemma2_to64();
    let bytes = bytes_of(value, count);
    let rest = bytes_of(value / 256, (count - 1) as nat);
    assert(bytes.drop_last() =~= rest) by {
        assert forall|position: int| 0 <= position < count - 1 implies bytes.drop_last()[position]
            == rest[position] by {
            let exponent = (8 * (count - 2 - position)) as nat;
            lemma_pow2_adds(8, exponent);
            lemma_pow2_pos(exponent);
            lemma_div_denominator(value as int, 256, pow2(exponent) as int);
            assert((8 * (count - 1 - position)) as nat == 8 + exponent);
            assert(byte_at(value, count, position) == (value / pow2(8 + exponent)) % 256);
            assert(byte_at(value / 256, (count - 1) as nat, position) == ((value / 256) / pow2(
                exponent,
            )) % 256);
        }
    }
    assert(bytes.last() == byte_at(value, count, count - 1));
    assert(byte_at(value, count, count - 1) == value % 256) by {
        assert((8 * (count - 1 - (count - 1))) as nat == 0);
        assert(pow2(0) == 1);
        assert(value / 1 == value);
    }
}

/// The `count` bytes of a number, read back, are the number held to `count`
/// bytes.
proof fn lemma_bytes_of_value(value: nat, count: nat)
    ensures
        bytes_value(bytes_of(value, count)) == value % pow2(8 * count),
    decreases count,
{
    lemma2_to64();
    if count == 0 {
        assert(bytes_of(value, 0).len() == 0);
    } else {
        lemma_bytes_of_split(value, count);
        lemma_bytes_of_value(value / 256, (count - 1) as nat);
        let below = pow2((8 * (count - 1)) as nat);
        lemma_pow2_pos((8 * (count - 1)) as nat);
        lemma_pow2_adds(8, (8 * (count - 1)) as nat);
        assert(8 * count == 8 + 8 * (count - 1));
        lemma_mod_breakdown(value as int, 256, below as int);
    }
}

/// Bytes read as one number are below two to eight times their count, and
/// taken apart again they are the same bytes.
proof fn lemma_bytes_value_round_trip(bytes: Seq<nat>)
    requires
        forall|index: int| 0 <= index < bytes.len() ==> #[trigger] bytes[index] < 256,
    ensures
        bytes_value(bytes) < pow2(8 * bytes.len()),
        bytes_of(bytes_value(bytes), bytes.len()) == bytes,
    decreases bytes.len(),
{
    lemma2_to64();
    if bytes.len() == 0 {
        assert(bytes_of(bytes_value(bytes), 0) =~= bytes);
    } else {
        let count = bytes.len();
        let shorter = bytes.drop_last();
        assert forall|index: int| 0 <= index < shorter.len() implies #[trigger] shorter[index] < 256 by {
            assert(shorter[index] == bytes[index]);
        }
        lemma_bytes_value_round_trip(shorter);
        let high = bytes_value(shorter);
        let last = bytes[count - 1];
        let below = pow2((8 * (count - 1)) as nat);
        lemma_pow2_adds(8, (8 * (count - 1)) as nat);
        assert(8 * count == 8 + 8 * (count - 1));
        assert(bytes_value(bytes) == high * 256 + last);
        assert(high * 256 + last < below * 256) by (nonlinear_arith)
            requires
                high < below,
                last < 256,
        ;
        let whole = high * 256 + last;
        assert(whole / 256 == high && whole % 256 == last) by (nonlinear_arith)
            requires
                whole == high * 256 + last,
                last < 256,
        ;
        lemma_bytes_of_split(whole, count);
        assert(bytes_of(whole, count) =~= shorter.push(last));
        assert(shorter.push(last) =~= bytes);
    }
}

/// The string spells the bytes it holds, the first character weighing most:
/// where every byte it shows can be printed, reading what it wrote gives back
/// the value it was written from, held to the width.
pub proof fn lemma_the_string_reads_back_what_it_spelt(value: u64, width: Width)
    requires
        forall|index: int|
            0 <= index < without_leading_zeros(
                bytes_of(width.kept(value as int), width.bit_count() / 8),
            ).len() ==> is_printable(
                #[trigger] without_leading_zeros(
                    bytes_of(width.kept(value as int), width.bit_count() / 8),
                )[index],
            ),
    ensures
        Field::Ascii.reading(Field::Ascii.writing(value, width), width) == Ok::<u64, Refusal>(
            width.kept(value as int) as u64,
        ),
{
    let kept = width.kept(value as int);
    let count = width.bit_count() / 8;
    let bytes = bytes_of(kept, count);
    let spelt = without_leading_zeros(bytes);
    lemma_codes_of_printable(spelt);
    lemma_leading_zeros_worth_nothing(bytes);
    lemma_bytes_of_value(kept, count);
    lemma_limit_is_power(width);
    assert(8 * count == width.bit_count());
    assert(kept < width.limit());
    assert(kept % width.limit() == kept) by {
        vstd::arithmetic::div_mod::lemma_small_mod(kept, width.limit());
    }
}

/// A byte the string cannot show is marked, and the mark cannot be typed
/// back: reading what the string wrote is refused whenever it holds one.
pub proof fn lemma_the_mark_is_refused(value: u64, width: Width, index: int)
    requires
        0 <= index < without_leading_zeros(
            bytes_of(width.kept(value as int), width.bit_count() / 8),
        ).len(),
        !is_printable(
            without_leading_zeros(bytes_of(width.kept(value as int), width.bit_count() / 8))[index],
        ),
    ensures
        Field::Ascii.writing(value, width)[index] == '\u{b7}',
        Field::Ascii.reading(Field::Ascii.writing(value, width), width) == Err::<u64, Refusal>(
            Refusal::Unreadable,
        ),
{
    let written = Field::Ascii.writing(value, width);
    assert(written[index] == '\u{b7}');
    assert(('\u{b7}' as u32) >= 128);
    assert(!all_ascii(written));
}

/// Writing a value is writing its bits that the width holds: clearing the
/// bits above the width first changes nothing in any field.
pub proof fn lemma_writing_ignores_the_bits_above(field: Field, value: u64, width: Width)
    ensures
        field.writing(value, width) == field.writing(value & (width.top() as u64), width),
{
    crate::calculator::width::lemma_and_mask_is_mod(value, width);
    let limit = width.limit() as int;
    vstd::arithmetic::div_mod::lemma_mod_twice(value as int, limit);
    assert(width.kept((value & (width.top() as u64)) as int) == width.kept(value as int));
}

/// Text in groups of four separated by single spaces, counted from the
/// right: the first group one to four characters long, every other exactly
/// four.
pub open spec fn in_groups_of_four(text: Seq<char>) -> bool
    decreases text.len(),
{
    if 1 <= text.len() <= 4 {
        forall|index: int| 0 <= index < text.len() ==> #[trigger] text[index] != ' '
    } else if text.len() > 5 {
        &&& text[text.len() - 5] == ' '
        &&& forall|index: int| text.len() - 4 <= index < text.len() ==> #[trigger] text[index] != ' '
        &&& in_groups_of_four(text.take(text.len() - 5))
    } else {
        false
    }
}

/// Grouping the first `length` digits of a run longer by four or more is
/// grouping those digits on their own.
proof fn lemma_grouped_prefix_of_shorter(digits: Seq<char>, length: int)
    requires
        digits.len() >= 4,
        0 <= length <= digits.len() - 4,
    ensures
        grouped_prefix(digits, length) == grouped_prefix(digits.take(digits.len() - 4), length),
    decreases length,
{
    if length > 0 {
        lemma_grouped_prefix_of_shorter(digits, length - 1);
        let shorter = digits.take(digits.len() - 4);
        assert(space_before(length - 1, digits.len() as int) == space_before(
            length - 1,
            shorter.len() as int,
        ));
        assert(shorter[length - 1] == digits[length - 1]);
    }
}

/// Digits without a space between them, for a run of four or fewer.
proof fn lemma_short_run_is_one_group(digits: Seq<char>, length: int)
    requires
        1 <= digits.len() <= 4,
        0 <= length <= digits.len(),
    ensures
        grouped_prefix(digits, length) == digits.take(length),
    decreases length,
{
    if length > 0 {
        lemma_short_run_is_one_group(digits, length - 1);
        assert(!space_before(length - 1, digits.len() as int));
        assert(digits.take(length) =~= digits.take(length - 1).push(digits[length - 1]));
    }
}

/// Digits of which none is a space are grouped in fours.
proof fn lemma_grouped_in_fours(digits: Seq<char>)
    requires
        digits.len() >= 1,
        forall|index: int| 0 <= index < digits.len() ==> #[trigger] digits[index] != ' ',
    ensures
        in_groups_of_four(grouped_text(digits)),
        grouped_text(digits).len() >= 1,
    decreases digits.len(),
{
    let count = digits.len() as int;
    if count <= 4 {
        lemma_short_run_is_one_group(digits, count);
        assert(digits.take(count) =~= digits);
    } else {
        let shorter = digits.take(count - 4);
        assert forall|index: int| 0 <= index < shorter.len() implies #[trigger] shorter[index] != ' ' by {
            assert(shorter[index] == digits[index]);
        }
        lemma_grouped_in_fours(shorter);
        lemma_grouped_prefix_of_shorter(digits, count - 4);
        let head = grouped_text(shorter);
        assert(space_before(count - 4, count));
        assert(!space_before(count - 3, count));
        assert(!space_before(count - 2, count));
        assert(!space_before(count - 1, count));
        let whole = grouped_text(digits);
        let third = grouped_prefix(digits, count - 3);
        let second = grouped_prefix(digits, count - 2);
        let first = grouped_prefix(digits, count - 1);
        assert(third == head.push(' ').push(digits[count - 4]));
        assert(second == third.push(digits[count - 3]));
        assert(first == second.push(digits[count - 2]));
        assert(whole == first.push(digits[count - 1]));
        assert(whole =~= head.push(' ').push(digits[count - 4]).push(digits[count - 3]).push(
            digits[count - 2],
        ).push(digits[count - 1]));
        assert(whole.take(whole.len() - 5) =~= head);
        assert(whole[whole.len() - 5] == ' ');
    }
}

/// The binary field is the value's digits in base two, from its highest set
/// bit, in groups of four counted from the right, one space between groups.
pub proof fn lemma_binary_is_grouped_in_fours(value: u64, width: Width)
    ensures
        blank_free(Field::Binary.writing(value, width)) == digits_of(width.kept(value as int), 2),
        in_groups_of_four(Field::Binary.writing(value, width)),
{
    let digits = digits_of(width.kept(value as int), 2);
    lemma_digits_round_trip(width.kept(value as int), 2);
    lemma_blank_free_of_grouped(digits, digits.len() as int);
    assert(digits.take(digits.len() as int) =~= digits);
    assert forall|index: int| 0 <= index < digits.len() implies #[trigger] digits[index] != ' ' by {
        assert(crate::numerals::is_digit_of(digits[index], 2));
    }
    lemma_grouped_in_fours(digits);
}

/// Not turns over every bit the width holds, Negate takes the value from two
/// to the width, and both stay inside the width.
pub proof fn lemma_one_sided_operations_are_what_they_are_named_after(value: u64, width: Width)
    ensures
        Unary::Not.outcome(value, width) == (!value) & (width.top() as u64),
        Unary::Negate.outcome(value, width) == (width.limit() - width.kept(value as int)) % (
        width.limit() as int),
        Unary::Not.outcome(value, width) <= width.top(),
        Unary::Negate.outcome(value, width) <= width.top(),
        Unary::SwapBytes.outcome(value, width) <= width.top(),
{
    crate::calculator::width::lemma_and_mask_is_mod(value, width);
    let kept = width.kept(value as int);
    let limit = width.limit() as int;
    assert((!value) & (width.top() as u64) == width.top() - (value & (width.top() as u64))) by {
        match width {
            Width::Eight => {
                assert((!value) & 0xff == 0xff - (value & 0xff)) by (bit_vector);
            },
            Width::Sixteen => {
                assert((!value) & 0xffff == 0xffff - (value & 0xffff)) by (bit_vector);
            },
            Width::ThirtyTwo => {
                assert((!value) & 0xffff_ffff == 0xffff_ffff - (value & 0xffff_ffff)) by (bit_vector);
            },
            Width::SixtyFour => {
                assert((!value) & 0xffff_ffff_ffff_ffff == 0xffff_ffff_ffff_ffff - (value
                    & 0xffff_ffff_ffff_ffff)) by (bit_vector);
            },
        }
    }
    lemma_negation_inside(kept as int, limit);
    lemma_swap_within(value, width);
}

/// Taken from a limit, a value below it is the negation inside the limit.
proof fn lemma_negation_inside(kept: int, limit: int)
    requires
        0 <= kept < limit,
    ensures
        (-kept) % limit == (limit - kept) % limit,
        0 <= (-kept) % limit < limit,
        kept == 0 ==> (-kept) % limit == 0,
        kept > 0 ==> (-kept) % limit == limit - kept,
{
    vstd::arithmetic::div_mod::lemma_mod_bound(-kept, limit);
    if kept == 0 {
        vstd::arithmetic::div_mod::lemma_mod_self_0(limit);
        vstd::arithmetic::div_mod::lemma_small_mod(0, limit as nat);
    } else {
        vstd::arithmetic::div_mod::lemma_fundamental_div_mod_converse(-kept, limit, -1, limit - kept);
        vstd::arithmetic::div_mod::lemma_small_mod((limit - kept) as nat, limit as nat);
    }
}

/// The bytes swapped are a value of the width.
proof fn lemma_swap_within(value: u64, width: Width)
    ensures
        Unary::SwapBytes.outcome(value, width) <= width.top(),
        bytes_value(bytes_of(width.kept(value as int), width.bit_count() / 8).reverse())
            < width.limit(),
{
    let count = width.bit_count() / 8;
    let reversed = bytes_of(width.kept(value as int), count).reverse();
    assert forall|index: int| 0 <= index < reversed.len() implies #[trigger] reversed[index] < 256 by {}
    lemma_bytes_value_round_trip(reversed);
    lemma_limit_is_power(width);
    assert(8 * count == width.bit_count());
}

/// Each one-sided operation undoes itself: Not twice, Negate twice and the
/// byte swap twice each give back the value, held to the width.
pub proof fn lemma_one_sided_operations_undo_themselves(operation: Unary, value: u64, width: Width)
    ensures
        operation.outcome(operation.outcome(value, width), width) == value & (width.top() as u64),
{
    crate::calculator::width::lemma_and_mask_is_mod(value, width);
    let kept = width.kept(value as int);
    let limit = width.limit() as int;
    crate::calculator::width::lemma_kept_within(width, value as int);
    let once = operation.outcome(value, width);
    match operation {
        Unary::Not => {
            vstd::arithmetic::div_mod::lemma_small_mod(once as nat, limit as nat);
            vstd::arithmetic::div_mod::lemma_small_mod(kept, limit as nat);
        },
        Unary::Negate => {
            lemma_negation_inside(kept as int, limit);
            let negated = (-(kept as int)) % limit;
            vstd::arithmetic::div_mod::lemma_small_mod(negated as nat, limit as nat);
            lemma_negation_inside(negated, limit);
            vstd::arithmetic::div_mod::lemma_small_mod(kept, limit as nat);
        },
        Unary::SwapBytes => {
            let count = width.bit_count() / 8;
            let bytes = bytes_of(kept, count);
            let reversed = bytes.reverse();
            lemma_swap_within(value, width);
            let swapped = bytes_value(reversed);
            assert(once == swapped);
            vstd::arithmetic::div_mod::lemma_small_mod(swapped, limit as nat);
            assert(width.kept(once as int) == swapped);
            assert forall|index: int| 0 <= index < reversed.len() implies #[trigger] reversed[index] < 256 by {}
            lemma_bytes_value_round_trip(reversed);
            assert(bytes_of(swapped, count) == reversed);
            assert(reversed.reverse() =~= bytes);
            lemma_bytes_of_value(kept, count);
            lemma_limit_is_power(width);
            assert(8 * count == width.bit_count());
            vstd::arithmetic::div_mod::lemma_small_mod(kept, limit as nat);
        },
    }
}

/// The arithmetic is the arithmetic of numbers held to the width: a sum or a
/// difference carried round the width once at most, a product held to the
/// width, and the quotient and the remainder of a division, a division by
/// zero refused.
pub proof fn lemma_arithmetic_is_what_it_is_named_after(left: u64, right: u64, width: Width)
    ensures
        ({
            let l = width.kept(left as int) as int;
            let r = width.kept(right as int) as int;
            let limit = width.limit() as int;
            &&& Operation::Add.outcome(left, right, width) matches Ok(sum) && sum + (if l + r
                >= limit {
                limit
            } else {
                0
            }) == l + r
            &&& Operation::Subtract.outcome(left, right, width) matches Ok(difference) && difference
                + r == l + (if l < r {
                limit
            } else {
                0
            })
            &&& Operation::Multiply.outcome(left, right, width) matches Ok(product) && product
                < limit && (l * r - product) % limit == 0
            &&& r == 0 ==> Operation::Divide.outcome(left, right, width) == Err::<u64, Refusal>(
                Refusal::ByZero,
            )
            &&& r == 0 ==> Operation::Remainder.outcome(left, right, width) == Err::<u64, Refusal>(
                Refusal::ByZero,
            )
            &&& r != 0 ==> (Operation::Divide.outcome(left, right, width) matches Ok(quotient)
                && quotient * r <= l && l < quotient * r + r)
            &&& r != 0 ==> (Operation::Remainder.outcome(left, right, width) matches Ok(remainder)
                && remainder < r && l == (l / r) * r + remainder)
        }),
{
    let l = width.kept(left as int) as int;
    let r = width.kept(right as int) as int;
    let limit = width.limit() as int;
    crate::calculator::width::lemma_kept_within(width, left as int);
    crate::calculator::width::lemma_kept_within(width, right as int);
    if l + r >= limit {
        vstd::arithmetic::div_mod::lemma_fundamental_div_mod_converse(l + r, limit, 1, l + r - limit);
    } else {
        vstd::arithmetic::div_mod::lemma_small_mod((l + r) as nat, limit as nat);
    }
    if l < r {
        vstd::arithmetic::div_mod::lemma_fundamental_div_mod_converse(l - r, limit, -1, l - r + limit);
    } else {
        vstd::arithmetic::div_mod::lemma_small_mod((l - r) as nat, limit as nat);
    }
    let product = (l * r) % limit;
    vstd::arithmetic::div_mod::lemma_fundamental_div_mod(l * r, limit);
    vstd::arithmetic::div_mod::lemma_mod_bound(l * r, limit);
    let times = (l * r) / limit;
    assert(l * r - product == limit * times);
    vstd::arithmetic::div_mod::lemma_mod_multiples_basic(times, limit);
    assert((limit * times) % limit == 0) by {
        vstd::arithmetic::mul::lemma_mul_is_commutative(limit, times);
    }
    if r != 0 {
        vstd::arithmetic::div_mod::lemma_fundamental_div_mod(l, r);
        vstd::arithmetic::div_mod::lemma_mod_bound(l, r);
        vstd::arithmetic::mul::lemma_mul_is_commutative(r, l / r);
        assert(l / r >= 0) by {
            vstd::arithmetic::div_mod::lemma_div_pos_is_pos(l, r);
        }
    }
}

/// One bit of an `and`, an `or` and an exclusive `or` of two words.
proof fn lemma_bits_of_bitwise(first: u64, second: u64, bit: u64)
    by (bit_vector)
    requires
        bit < 64,
    ensures
        ((first & second) >> bit) & 1 == ((first >> bit) & 1) & ((second >> bit) & 1),
        ((first | second) >> bit) & 1 == ((first >> bit) & 1) | ((second >> bit) & 1),
        ((first ^ second) >> bit) & 1 == ((first >> bit) & 1) ^ ((second >> bit) & 1),
{
}

/// The bitwise operations work bit by bit: a bit of the result is set when
/// it is set on both sides, on either side, or on exactly one side.
pub proof fn lemma_bitwise_operations_work_bit_by_bit(left: u64, right: u64, width: Width, bit: u64)
    requires
        bit < 64,
    ensures
        ({
            let l = width.kept(left as int) as u64;
            let r = width.kept(right as int) as u64;
            let on = |word: u64| (word >> bit) & 1 == 1;
            &&& Operation::And.outcome(left, right, width) matches Ok(both) && (on(both) <==> (on(l)
                && on(r)))
            &&& Operation::Or.outcome(left, right, width) matches Ok(either) && (on(either) <==> (
            on(l) || on(r)))
            &&& Operation::Xor.outcome(left, right, width) matches Ok(one) && (on(one) <==> (on(l)
                != on(r)))
        }),
{
    let l = width.kept(left as int) as u64;
    let r = width.kept(right as int) as u64;
    lemma_bits_of_bitwise(l, r, bit);
    let a = (l >> bit) & 1;
    let b = (r >> bit) & 1;
    assert(a <= 1 && b <= 1) by (bit_vector)
        requires
            a == (l >> bit) & 1,
            b == (r >> bit) & 1,
    ;
    assert((a & b == 1) <==> (a == 1 && b == 1)) by (bit_vector)
        requires
            a <= 1,
            b <= 1,
    ;
    assert((a | b == 1) <==> (a == 1 || b == 1)) by (bit_vector)
        requires
            a <= 1,
            b <= 1,
    ;
    assert((a ^ b == 1) <==> (a == 1) != (b == 1)) by (bit_vector)
        requires
            a <= 1,
            b <= 1,
    ;
}

/// A shift by the width or more empties the value. A shift left by less is
/// a multiplication by two to the distance, held to the width; a shift right
/// by less is the division by it, rounded down.
pub proof fn lemma_shifts_multiply_and_divide_by_two(left: u64, right: u64, width: Width)
    ensures
        ({
            let l = width.kept(left as int) as int;
            let r = width.kept(right as int);
            let limit = width.limit() as int;
            &&& r >= width.bit_count() ==> Operation::ShiftLeft.outcome(left, right, width)
                == Ok::<u64, Refusal>(0)
            &&& r >= width.bit_count() ==> Operation::ShiftRight.outcome(left, right, width)
                == Ok::<u64, Refusal>(0)
            &&& r < width.bit_count() ==> (Operation::ShiftLeft.outcome(left, right, width) matches Ok(
                shifted,
            ) && shifted < limit && (l * pow2(r) - shifted) % limit == 0)
            &&& r < width.bit_count() ==> (Operation::ShiftRight.outcome(left, right, width) matches Ok(
                shifted,
            ) && shifted * pow2(r) <= l && l < (shifted + 1) * pow2(r))
        }),
{
    let l = width.kept(left as int) as int;
    let r = width.kept(right as int);
    let limit = width.limit() as int;
    crate::calculator::width::lemma_kept_within(width, left as int);
    if r < width.bit_count() {
        let power = pow2(r) as int;
        lemma_pow2_pos(r);
        let whole = l * power;
        assert(whole >= 0) by (nonlinear_arith)
            requires
                whole == l * power,
                l >= 0,
                power > 0,
        ;
        vstd::arithmetic::div_mod::lemma_fundamental_div_mod(whole, limit);
        vstd::arithmetic::div_mod::lemma_mod_bound(whole, limit);
        let times = whole / limit;
        vstd::arithmetic::div_mod::lemma_mod_multiples_basic(times, limit);
        vstd::arithmetic::mul::lemma_mul_is_commutative(limit, times);
        vstd::arithmetic::div_mod::lemma_fundamental_div_mod(l, power);
        vstd::arithmetic::div_mod::lemma_mod_bound(l, power);
        vstd::arithmetic::div_mod::lemma_div_pos_is_pos(l, power);
        let quotient = l / power;
        vstd::arithmetic::mul::lemma_mul_is_commutative(power, quotient);
        vstd::arithmetic::mul::lemma_mul_is_distributive_add_other_way(power, quotient, 1);
        assert(l == power * quotient + l % power);
        assert(power * quotient == quotient * power);
        assert(quotient * power <= l);
        assert(quotient <= l) by (nonlinear_arith)
            requires
                quotient * power <= l,
                power >= 1,
                quotient >= 0,
        ;
    }
}

} // verus!
