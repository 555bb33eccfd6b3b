//! The pad of keys: which keys there are, where they stand, which of them can
//! be pressed, and what pressing one does.

use vstd::prelude::*;
use crate::calculator::field::Field;
use crate::calculator::operation::Operation;
use crate::calculator::state::State;
use crate::numerals::{digit_char, digit_character};
use crate::text::{push_char};

verus! {

/// One key of the pad.
#[derive(Clone, Copy, Debug, PartialEq, Eq, Structural)]
pub enum Key {
    Digit(u32),
    Operation(Operation),
    /// Takes the last digit back off.
    Backspace,
    Equals,
}

/// The keys, row by row, in the order they are laid out: the hexadecimal
/// digits on top, then the three rows of the pad every telephone and every
/// calculator has, with the four operations down the right-hand side where a
/// calculator keeps them.
pub open spec fn key_rows() -> Seq<Seq<Key>> {
    seq![
        seq![Key::Digit(10), Key::Digit(11), Key::Digit(12), Key::Backspace],
        seq![Key::Digit(13), Key::Digit(14), Key::Digit(15), Key::Operation(Operation::Divide)],
        seq![Key::Digit(7), Key::Digit(8), Key::Digit(9), Key::Operation(Operation::Multiply)],
        seq![Key::Digit(4), Key::Digit(5), Key::Digit(6), Key::Operation(Operation::Subtract)],
        seq![Key::Digit(1), Key::Digit(2), Key::Digit(3), Key::Operation(Operation::Add)],
        seq![Key::Digit(0), Key::Operation(Operation::Remainder), Key::Equals],
    ]
}

/// The keys, row by row.
pub fn keys() -> (rows: Vec<Vec<Key>>)
    ensures
        rows@.len() == key_rows().len(),
        forall|row: int| 0 <= row < rows@.len() ==> #[trigger] rows@[row]@ == key_rows()[row],
{
    let rows = vec![
        vec![Key::Digit(10), Key::Digit(11), Key::Digit(12), Key::Backspace],
        vec![Key::Digit(13), Key::Digit(14), Key::Digit(15), Key::Operation(Operation::Divide)],
        vec![Key::Digit(7), Key::Digit(8), Key::Digit(9), Key::Operation(Operation::Multiply)],
        vec![Key::Digit(4), Key::Digit(5), Key::Digit(6), Key::Operation(Operation::Subtract)],
        vec![Key::Digit(1), Key::Digit(2), Key::Digit(3), Key::Operation(Operation::Add)],
        vec![Key::Digit(0), Key::Operation(Operation::Remainder), Key::Equals],
    ];
    assert(rows@[0]@ =~= key_rows()[0]);
    assert(rows@[1]@ =~= key_rows()[1]);
    assert(rows@[2]@ =~= key_rows()[2]);
    assert(rows@[3]@ =~= key_rows()[3]);
    assert(rows@[4]@ =~= key_rows()[4]);
    assert(rows@[5]@ =~= key_rows()[5]);
    rows
}

/// The base the digit keys are judged by: the one the keys type in, and ten
/// when they type in none.
pub open spec fn key_radix(entry: Field) -> nat {
    if entry.radix() == 0 {
        10
    } else {
        entry.radix()
    }
}

/// What a key says on it, for a digit: the one character it is written with,
/// `A` to `F` included, and `0` for what is no digit at all.
pub fn digit_label(digit: u32) -> (label: String)
    ensures
        label@ == seq![
            if digit < 16 {
                digit_char(digit as nat)
            } else {
                '0'
            },
        ],
{
    let character = if digit < 16 {
        digit_character(digit as u64)
    } else {
        '0'
    };
    let mut label = String::new();
    push_char(&mut label, character);
    assert(label@ =~= seq![character]);
    label
}

impl State {
    /// Whether a key can be pressed: a digit only where the base has it, `=`
    /// only with an operation waiting, any other key always.
    pub fn can_press(&self, key: Key) -> (can: bool)
        ensures
            can == match key {
                Key::Digit(digit) => digit < key_radix(self@.entry),
                Key::Equals => self@.pending is Some,
                _ => true,
            },
    {
        match key {
            Key::Digit(digit) => {
                let radix = match self.entry().base() {
                    Some((radix, _)) => radix,
                    None => 10,
                };
                digit < radix
            },
            Key::Equals => self.can_work_out(),
            _ => true,
        }
    }

    /// What pressing a key does.
    pub fn press_key(&mut self, key: Key)
        requires
            old(self)@.wf(),
        ensures
            final(self)@ == match key {
                Key::Digit(digit) => old(self)@.after_digit(digit),
                Key::Operation(operation) => old(self)@.after_press(operation),
                Key::Backspace => old(self)@.after_backspace(),
                Key::Equals => old(self)@.after_equals(),
            },
            final(self)@.wf(),
    {
        match key {
            Key::Digit(digit) => self.digit(digit),
            Key::Operation(operation) => self.press(operation),
            Key::Backspace => self.backspace(),
            Key::Equals => self.equals(),
        }
    }

    /// Whether bit `index` of the value is set.
    pub fn bit(&self, index: u32) -> (set: bool)
        requires
            index < 64,
        ensures
            set == ((self@.value >> index) & 1 == 1),
    {
        (self.value() >> index) & 1 == 1
    }

    /// Turns bit `index` of the value over, the way pressing its cell does.
    pub fn toggle_bit(&mut self, index: u32)
        requires
            old(self)@.wf(),
            index < 64,
        ensures
            final(self)@ == old(self)@.after_set(old(self)@.value ^ (1u64 << index)),
            final(self)@.wf(),
    {
        let value = self.value() ^ (1u64 << index);
        self.set(value);
    }
}

} // verus!
