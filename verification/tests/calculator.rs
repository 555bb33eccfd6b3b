use desdec_app::calculator::field::{Field, Refusal};
use desdec_app::calculator::keys::{digit_label, keys, Key};
use desdec_app::calculator::operation::{Operation, Unary};
use desdec_app::calculator::state::State;
use desdec_app::calculator::width::Width;

/// Every field writes what the next one reads back.
#[test]
fn every_field_reads_back_what_it_wrote() {
    for width in Width::ALL.iter() {
        for value in [0, 1, 0x41, 0x7f, 0xff, 0x1234, 0xdead_beef, u64::MAX] {
            let value = value & width.mask();
            for field in Field::ALL.iter() {
                if *field == Field::Ascii {
                    continue;
                }
                let written = field.write(value, *width);
                assert_eq!(
                    field.read(&written, *width),
                    Ok(value),
                    "{field:?} at {} bits could not read back {written:?}",
                    width.bits()
                );
            }
        }
    }
}

/// The signed reading is the width's, not the machine's.
#[test]
fn the_signed_reading_follows_the_width() {
    assert_eq!(Width::Eight.signed(0xff), -1);
    assert_eq!(Width::Sixteen.signed(0xff), 255);
    assert_eq!(Width::ThirtyTwo.signed(0xffff_ffff), -1);
    assert_eq!(Width::SixtyFour.signed(u64::MAX), -1);
}

/// Narrowing the width throws away what no longer fits.
#[test]
fn narrowing_the_width_keeps_only_the_bits_that_fit() {
    let mut state = State::default();
    state.set(0xdead_beef);
    state.set_width(Width::Sixteen);
    assert_eq!(state.value(), 0xbeef);
    assert_eq!(Field::Hexadecimal.write(state.value(), state.width()), "BEEF");
}

/// A number too large for the chosen width is refused and said to be too large.
#[test]
fn a_value_too_wide_for_the_width_is_refused_rather_than_cut_down() {
    assert_eq!(
        Field::Hexadecimal.read("1ff", Width::Eight),
        Err(Refusal::TooWide)
    );
    assert_eq!(
        Field::Signed.read("200", Width::Eight),
        Err(Refusal::TooWide)
    );
    assert_eq!(Field::Ascii.read("AB", Width::Eight), Err(Refusal::TooWide));
    assert_eq!(
        Field::Hexadecimal.read("zz", Width::SixtyFour),
        Err(Refusal::Unreadable)
    );
}

/// Spaces, underscores and the usual prefixes are all read, and an empty field
/// is a zero.
#[test]
fn a_field_reads_what_a_reader_would_write_in_it() {
    let width = Width::SixtyFour;
    assert_eq!(Field::Hexadecimal.read("0x1f", width), Ok(0x1f));
    assert_eq!(Field::Hexadecimal.read("de ad", width), Ok(0xdead));
    assert_eq!(Field::Binary.read("1010_1010", width), Ok(0xaa));
    assert_eq!(Field::Binary.read("0b1111", width), Ok(0xf));
    assert_eq!(Field::Octal.read("0o777", width), Ok(0o777));
    assert_eq!(Field::Signed.read("-1", width), Ok(u64::MAX));
    for field in Field::ALL.iter() {
        assert_eq!(field.read("", width), Ok(0), "{field:?}");
    }
}

/// The string spells the bytes, the first character weighing most.
#[test]
fn the_string_spells_the_bytes_it_holds() {
    let width = Width::SixtyFour;
    assert_eq!(Field::Ascii.read("Hello", width), Ok(0x0048_656c_6c6f));
    assert_eq!(Field::Ascii.write(0x0048_656c_6c6f, width), "Hello");
    assert_eq!(Field::Ascii.write(0x41_00_42, width), "A·B");
    assert_eq!(
        Field::Ascii.read("A·B", width),
        Err(Refusal::Unreadable),
        "the mark for an unprintable byte is not a character"
    );
}

/// `12 + 34 =` is forty-six.
#[test]
fn a_sum_is_entered_the_way_a_calculator_is_used() {
    let mut state = State::default();
    assert_eq!(state.entry(), Field::Decimal, "the keys start in decimal");

    for digit in [1, 2] {
        state.digit(digit);
    }
    assert_eq!(state.value(), 12, "two presses are one number, not two");

    state.press(Operation::Add);
    assert_eq!(
        state.waiting().as_deref(),
        Some("12 +"),
        "what it is about to do is on screen"
    );

    for digit in [3, 4] {
        state.digit(digit);
    }
    assert_eq!(state.value(), 34, "the second number starts afresh");

    state.equals();
    assert_eq!(state.value(), 46);
    assert_eq!(state.waiting(), None, "and nothing is left waiting");
}

/// A second operation before `=` works the first one out.
#[test]
fn a_second_operation_works_the_first_one_out() {
    let mut state = State::default();
    state.digit(2);
    state.press(Operation::Add);
    state.digit(3);
    state.press(Operation::Multiply);
    assert_eq!(state.value(), 5, "the sum was worked out on the way");
    assert_eq!(state.waiting().as_deref(), Some("5 ×"));
    state.digit(4);
    state.equals();
    assert_eq!(state.value(), 20);
}

/// The arithmetic stays inside the width and wraps there.
#[test]
fn the_arithmetic_wraps_inside_the_width() {
    assert_eq!(
        Operation::Add.apply(0xff, 1, Width::Eight),
        Ok(0),
        "one past the top of a byte is zero"
    );
    assert_eq!(
        Operation::Subtract.apply(0, 1, Width::Eight),
        Ok(0xff),
        "and one below zero is the top again"
    );
    assert_eq!(
        Operation::Multiply.apply(0x11, 0x10, Width::Eight),
        Ok(0x10),
        "0x110 does not fit in a byte"
    );
    assert_eq!(Operation::Divide.apply(0x41, 0x10, Width::Eight), Ok(4));
    assert_eq!(Operation::Remainder.apply(0x41, 0x10, Width::Eight), Ok(1));
}

/// A division by zero has no answer, so none is given.
#[test]
fn a_division_by_zero_is_refused_and_the_operation_kept() {
    assert_eq!(
        Operation::Divide.apply(42, 0, Width::SixtyFour),
        Err(Refusal::ByZero)
    );

    let mut state = State::default();
    state.digit(4);
    state.digit(2);
    state.press(Operation::Divide);
    state.digit(0);
    state.equals();
    assert_eq!(state.value(), 0, "nothing was worked out");
    assert_eq!(state.refused(), Some(Refusal::ByZero), "and it says why");
    assert!(state.can_work_out(), "the division is still there");

    state.digit(7);
    state.equals();
    assert_eq!(state.value(), 6, "42 ÷ 7, once there was something to do");
    assert_eq!(state.refused(), None);
}

/// A shift throws bits off the end of the chosen width.
#[test]
fn shifting_stays_inside_the_width() {
    let width = Width::Eight;
    assert_eq!(
        Operation::ShiftLeft.apply(0x81, 1, width),
        Ok(0x02),
        "the top bit left the value"
    );
    assert_eq!(
        Operation::ShiftRight.apply(0x81, 1, width),
        Ok(0x40),
        "a zero came in at the top"
    );
    assert_eq!(
        Operation::ShiftRightSigned.apply(0x81, 1, width),
        Ok(0xc0),
        "the sign came down with it"
    );
}

/// A shift by more than the width leaves nothing behind.
#[test]
fn a_shift_past_the_width_empties_the_value() {
    for right in [64, 65, u64::MAX] {
        assert_eq!(
            Operation::ShiftLeft.apply(u64::MAX, right, Width::SixtyFour),
            Ok(0)
        );
        assert_eq!(
            Operation::ShiftRight.apply(u64::MAX, right, Width::SixtyFour),
            Ok(0)
        );
    }
}

/// A rotation loses nothing.
#[test]
fn a_rotation_by_the_whole_width_comes_back_to_the_value() {
    for width in Width::ALL.iter() {
        let value = 0x8001_2345_6789_abcd & width.mask();
        let bits = u64::from(width.bits());
        assert_eq!(
            Operation::RotateLeft.apply(value, bits, *width),
            Ok(value),
            "{} bits",
            width.bits()
        );
        let there = Operation::RotateLeft
            .apply(value, 4, *width)
            .expect("a rotation is always an answer");
        assert_eq!(
            Operation::RotateRight.apply(there, 4, *width),
            Ok(value),
            "{} bits, there and back",
            width.bits()
        );
    }
}

/// The byte swap is the width's own.
#[test]
fn the_byte_swap_stays_inside_the_width() {
    assert_eq!(Unary::SwapBytes.apply(0x1234, Width::Sixteen), 0x3412);
    assert_eq!(
        Unary::SwapBytes.apply(0x1122_3344, Width::ThirtyTwo),
        0x4433_2211
    );
}

/// The operations do what they are named after, inside the width.
#[test]
fn the_operations_are_what_they_are_named_after() {
    let width = Width::Eight;
    assert_eq!(Operation::And.apply(0xa5, 0x0f, width), Ok(0x05));
    assert_eq!(Operation::Or.apply(0xa0, 0x0f, width), Ok(0xaf));
    assert_eq!(Operation::Xor.apply(0xff, 0x0f, width), Ok(0xf0));
    assert_eq!(Unary::Not.apply(0x0f, width), 0xf0);
    assert_eq!(
        Unary::Negate.apply(1, width),
        0xff,
        "one less than nothing, in eight bits"
    );
}

/// A digit a base does not have is not a number: pressing it does nothing.
#[test]
fn a_digit_the_base_does_not_have_does_nothing() {
    let mut state = State::default();
    state.digit(0xa);
    assert_eq!(state.value(), 0, "there is no A in decimal");

    state.set_entry(Field::Hexadecimal);
    state.digit(0xa);
    assert_eq!(state.value(), 0xa, "and there is one in hexadecimal");

    state.set_entry(Field::Binary);
    state.digit(1);
    assert_eq!(state.value(), 0x15, "0xa followed by a one, in binary");
    state.digit(2);
    assert_eq!(state.value(), 0x15, "and no two");
}

/// The last digit can be taken back off, in the base it was typed in.
#[test]
fn the_last_digit_can_be_taken_back_off() {
    let mut state = State::default();
    for digit in [1, 2, 3] {
        state.digit(digit);
    }
    state.backspace();
    assert_eq!(state.value(), 12);

    state.set_entry(Field::Hexadecimal);
    state.set(0xabc);
    state.backspace();
    assert_eq!(state.value(), 0xab, "a hexadecimal digit is four bits");
}

/// A digit that would take the number past the width is refused.
#[test]
fn a_digit_past_the_width_is_refused() {
    let mut state = State::default();
    state.set_width(Width::Eight);
    for digit in [2, 5, 5] {
        state.digit(digit);
    }
    assert_eq!(state.value(), 255);
    state.digit(0);
    assert_eq!(state.value(), 255, "2550 does not fit in a byte");
    assert_eq!(state.refused(), Some(Refusal::TooWide));
}

/// Clearing takes the value and whatever was waiting on it.
#[test]
fn clearing_takes_the_waiting_operation_with_it() {
    let mut state = State::default();
    state.digit(7);
    state.press(Operation::Multiply);
    state.clear();
    assert_eq!(state.value(), 0);
    assert_eq!(state.waiting(), None);
}

/// A value whose bytes can all be printed is spelt, and reading the spelling
/// gives the value back, in every width it fits.
#[test]
fn a_printable_spelling_reads_back_as_its_value() {
    for (value, width) in [
        (0x41, Width::Eight),
        (0x2020, Width::Sixteen),
        (0x6c6c_6568, Width::ThirtyTwo),
        (0x7e20_4142_4344_4546, Width::SixtyFour),
        (0, Width::SixtyFour),
    ] {
        let written = Field::Ascii.write(value, width);
        assert_eq!(Field::Ascii.read(&written, width), Ok(value), "{written:?}");
    }
    assert_eq!(Field::Ascii.write(0x6c6c_6568, Width::ThirtyTwo), "lleh");
}

/// Wherever a byte cannot be printed, the string holds the mark, and the mark
/// is refused.
#[test]
fn a_marked_spelling_is_refused_back() {
    for (value, width) in [(0x7f, Width::Eight), (0x41_0a, Width::Sixteen), (0x80_41_42_43, Width::ThirtyTwo)] {
        let written = Field::Ascii.write(value, width);
        assert!(written.contains('·'), "{written:?}");
        assert_eq!(Field::Ascii.read(&written, width), Err(Refusal::Unreadable));
    }
}

/// The pad: the hexadecimal digits on top, the telephone rows below, the
/// operations down the right, and `=` at the bottom.
#[test]
fn the_keys_are_laid_out_as_a_calculator_has_them() {
    let rows = keys();
    assert_eq!(rows.len(), 6);
    assert_eq!(rows[0], vec![Key::Digit(0xA), Key::Digit(0xB), Key::Digit(0xC), Key::Backspace]);
    assert_eq!(rows[4], vec![Key::Digit(1), Key::Digit(2), Key::Digit(3), Key::Operation(Operation::Add)]);
    assert_eq!(rows[5], vec![Key::Digit(0), Key::Operation(Operation::Remainder), Key::Equals]);
    assert_eq!(digit_label(0xB), "B");
    assert_eq!(digit_label(7), "7");
    assert_eq!(digit_label(16), "0");
}

/// A key the base has no digit for cannot be pressed, nor `=` with nothing
/// waiting; pressing the keys is entering the sum.
#[test]
fn only_the_keys_that_mean_something_can_be_pressed() {
    let mut state = State::default();
    assert!(!state.can_press(Key::Digit(0xA)), "there is no A in decimal");
    assert!(state.can_press(Key::Digit(9)));
    assert!(!state.can_press(Key::Equals), "nothing to work out yet");
    for key in [Key::Digit(1), Key::Digit(2), Key::Operation(Operation::Add), Key::Digit(3)] {
        state.press_key(key);
    }
    assert!(state.can_press(Key::Equals));
    state.press_key(Key::Equals);
    assert_eq!(state.value(), 15);
    state.press_key(Key::Backspace);
    assert_eq!(state.value(), 1);
    state.set_entry(Field::Binary);
    assert!(!state.can_press(Key::Digit(2)), "and no two in binary");
}

/// Pressing a bit's cell turns it over, and only it.
#[test]
fn pressing_a_bit_turns_it_over() {
    let mut state = State::default();
    state.set(0b1010);
    assert!(state.bit(1) && !state.bit(0));
    state.toggle_bit(0);
    assert_eq!(state.value(), 0b1011);
    state.toggle_bit(63);
    assert_eq!(state.value(), 0x8000_0000_0000_000b);
    state.set_width(Width::Eight);
    state.toggle_bit(3);
    assert_eq!(state.value(), 0b0011);
}

/// Clearing the bits above the width first changes nothing in any field.
#[test]
fn writing_ignores_the_bits_above_the_width() {
    for width in Width::ALL.iter() {
        for value in [0x1234_5678_9abc_def0u64, u64::MAX, 0x100] {
            for field in Field::ALL.iter() {
                assert_eq!(field.write(value, *width), field.write(value & width.mask(), *width));
            }
        }
    }
}

/// The binary field is grouped in fours from the right.
#[test]
fn the_binary_field_is_grouped_in_fours_from_the_right() {
    assert_eq!(Field::Binary.write(0b1_0110_1001, Width::SixtyFour), "1 0110 1001");
    assert_eq!(Field::Binary.write(0b1010, Width::Eight), "1010");
    assert_eq!(Field::Binary.write(0, Width::Eight), "0");
    let written = Field::Binary.write(u64::MAX, Width::SixtyFour);
    assert!(written.split(' ').all(|group| group.len() == 4));
}

/// Not, Negate and the byte swap each undo themselves, held to the width.
#[test]
fn the_one_sided_operations_undo_themselves() {
    for width in Width::ALL.iter() {
        for value in [0u64, 1, 0x0f, 0x1234_5678_9abc_def0, u64::MAX] {
            for operation in [Unary::Not, Unary::Negate, Unary::SwapBytes] {
                let once = operation.apply(value, *width);
                assert!(once <= width.mask());
                assert_eq!(operation.apply(once, *width), value & width.mask(), "{operation:?}");
            }
            assert_eq!(Unary::Not.apply(value, *width), !value & width.mask());
        }
    }
    assert_eq!(Unary::SwapBytes.apply(0x1234, Width::Sixteen), 0x3412);
}
