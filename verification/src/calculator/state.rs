use vstd::prelude::*;
use crate::calculator::field::{Field, Refusal};
use crate::calculator::operation::{Operation, Unary};
use crate::calculator::width::{Width, lemma_kept_within};
use crate::text::{extend, push_char, string_of, chars_of};

verus! {

/// What the window holds, as the contracts speak of it.
pub struct StateView {
    /// The one value every field on screen is a reading of.
    pub value: u64,
    /// How many bits it is held in.
    pub width: Width,
    /// The base the keys type in.
    pub entry: Field,
    /// The left-hand side, and the operation waiting for its right.
    pub pending: Option<(u64, Operation)>,
    /// Whether the next digit starts a number rather than lengthening the one
    /// on screen.
    pub fresh: bool,
    /// The field the reader is typing in, if any.
    pub editing: Option<Field>,
    /// What the reader has typed in it.
    pub typed: Seq<char>,
    /// Why the last thing asked for was not done, when it was not.
    pub refused: Option<Refusal>,
}

impl StateView {
    /// The value is one the width can hold.
    pub open spec fn wf(self) -> bool {
        self.value <= self.width.top()
    }

    /// A value put in the window, keeping only the bits the width holds.
    pub open spec fn after_set(self, value: u64) -> StateView {
        StateView {
            value: self.width.kept(value as int) as u64,
            fresh: true,
            editing: None,
            refused: None,
            ..self
        }
    }

    /// The same bits read in another width, what no longer fits dropped.
    pub open spec fn after_set_width(self, width: Width) -> StateView {
        StateView {
            width,
            value: width.kept(self.value as int) as u64,
            editing: None,
            refused: None,
            ..self
        }
    }

    /// What is waiting worked out, if anything is. A refusal keeps the
    /// operation in its place.
    pub open spec fn after_equals(self) -> StateView {
        match self.pending {
            None => self,
            Some((left, operation)) => match operation.outcome(left, self.value, self.width) {
                Ok(value) => StateView {
                    value,
                    pending: None,
                    refused: None,
                    fresh: true,
                    editing: None,
                    ..self
                },
                Err(refusal) => StateView {
                    refused: Some(refusal),
                    fresh: true,
                    editing: None,
                    ..self
                },
            },
        }
    }

    /// A two-sided operation chosen: what is waiting is worked out first, and
    /// what could not be worked out is not built upon.
    pub open spec fn after_press(self, operation: Operation) -> StateView {
        let worked = self.after_equals();
        if self.pending is Some && worked.refused is Some {
            worked
        } else {
            StateView {
                pending: Some((worked.value, operation)),
                fresh: true,
                editing: None,
                ..worked
            }
        }
    }

    /// A one-sided operation, worked out at once.
    pub open spec fn after_apply(self, operation: Unary) -> StateView {
        StateView {
            value: operation.outcome(self.value, self.width),
            fresh: true,
            editing: None,
            refused: None,
            ..self
        }
    }

    /// A digit pressed on the keys, in the base they type in. A digit the base
    /// does not have does nothing; one that would take the number past the
    /// width is refused as too wide.
    pub open spec fn after_digit(self, digit: u32) -> StateView {
        let radix = self.entry.radix();
        if radix == 0 || digit >= radix {
            self
        } else {
            let current = if self.fresh {
                0
            } else {
                self.value as nat
            };
            let next = current * radix + digit;
            if next <= self.width.top() {
                StateView { value: next as u64, fresh: false, editing: None, refused: None, ..self }
            } else {
                StateView { refused: Some(Refusal::TooWide), ..self }
            }
        }
    }

    /// The last digit taken back off, in the base the keys type in.
    pub open spec fn after_backspace(self) -> StateView {
        let radix = self.entry.radix();
        if radix == 0 {
            self
        } else {
            StateView {
                value: (self.value / (radix as u64)) as u64,
                fresh: false,
                editing: None,
                refused: None,
                ..self
            }
        }
    }

    /// Back to nothing: the value, and whatever was waiting on it.
    pub open spec fn after_clear(self) -> StateView {
        StateView { value: 0, pending: None, fresh: true, editing: None, refused: None, ..self }
    }

    /// Something typed in a field: read, and taken when it could be.
    pub open spec fn after_typing(self, field: Field, typed: Seq<char>) -> StateView {
        match field.reading(typed, self.width) {
            Ok(value) => StateView {
                editing: Some(field),
                typed,
                value,
                fresh: false,
                refused: None,
                ..self
            },
            Err(refusal) => StateView {
                editing: Some(field),
                typed,
                refused: Some(refusal),
                ..self
            },
        }
    }

    /// The field left alone: it goes back to showing the value.
    pub open spec fn after_leaving(self) -> StateView {
        StateView { editing: None, refused: None, ..self }
    }
}

/// What the window holds, what is half-typed in it, and what it is waiting to
/// work out.
pub struct State {
    value: u64,
    width: Width,
    entry: Field,
    pending: Option<(u64, Operation)>,
    fresh: bool,
    editing: Option<Field>,
    typed: String,
    refused: Option<Refusal>,
}

impl View for State {
    type V = StateView;

    closed spec fn view(&self) -> StateView {
        StateView {
            value: self.value,
            width: self.width,
            entry: self.entry,
            pending: self.pending,
            fresh: self.fresh,
            editing: self.editing,
            typed: self.typed@,
            refused: self.refused,
        }
    }
}

impl Default for State {
    /// Nothing in the window, a whole word wide, the keys in decimal.
    fn default() -> (state: Self)
        ensures
            state@ == (StateView {
                value: 0,
                width: Width::SixtyFour,
                entry: Field::Decimal,
                pending: None,
                fresh: true,
                editing: None,
                typed: Seq::empty(),
                refused: None,
            }),
    {
        State {
            value: 0,
            width: Width::SixtyFour,
            entry: Field::Decimal,
            pending: None,
            fresh: true,
            editing: None,
            typed: String::new(),
            refused: None,
        }
    }
}

impl State {
    pub fn value(&self) -> (value: u64)
        ensures
            value == self@.value,
    {
        self.value
    }

    pub fn width(&self) -> (width: Width)
        ensures
            width == self@.width,
    {
        self.width
    }

    /// The base the keys type in.
    pub fn entry(&self) -> (entry: Field)
        ensures
            entry == self@.entry,
    {
        self.entry
    }

    /// Chooses the base the keys type in.
    pub fn set_entry(&mut self, entry: Field)
        ensures
            final(self)@ == (StateView { entry, ..old(self)@ }),
    {
        self.entry = entry;
    }

    /// Why the last thing asked for was not done, when it was not.
    pub fn refused(&self) -> (refused: Option<Refusal>)
        ensures
            refused == self@.refused,
    {
        self.refused
    }

    /// The field being typed in, if one is.
    pub fn editing(&self) -> (editing: Option<Field>)
        ensures
            editing == self@.editing,
    {
        self.editing
    }

    /// Puts a value in the window, keeping only the bits the width holds.
    pub fn set(&mut self, value: u64)
        ensures
            final(self)@ == old(self)@.after_set(value),
            final(self)@.wf(),
    {
        self.value = self.width.keep(value);
        self.fresh = true;
        self.editing = None;
        self.refused = None;
    }

    /// Reads the same bits in a different width, dropping what no longer fits.
    pub fn set_width(&mut self, width: Width)
        ensures
            final(self)@ == old(self)@.after_set_width(width),
            final(self)@.wf(),
    {
        self.width = width;
        self.value = width.keep(self.value);
        self.editing = None;
        self.refused = None;
    }

    /// The operation waiting for its right-hand side, written the way the keys
    /// are typing: `12 +`, so the reader can see what `=` is about to do.
    pub fn waiting(&self) -> (waiting: Option<String>)
        ensures
            match self@.pending {
                None => waiting is None,
                Some((left, operation)) => waiting matches Some(text) && text@ == self@.entry.writing(
                    left,
                    self@.width,
                ) + seq![' '] + operation.sign_text(),
            },
    {
        match self.pending {
            None => None,
            Some((left, operation)) => {
                let mut characters = chars_of(self.entry.write(left, self.width).as_str());
                characters.push(' ');
                let sign = chars_of(operation.sign());
                extend(&mut characters, &sign);
                Some(string_of(&characters))
            },
        }
    }

    /// Whether there is something for `=` to do.
    pub fn can_work_out(&self) -> (can: bool)
        ensures
            can == self@.pending is Some,
    {
        self.pending.is_some()
    }

    /// The reader chose a two-sided operation.
    ///
    /// What is on screen becomes its left-hand side, and the next number
    /// entered is the right one. A second operation pressed before `=` works
    /// the first one out first, which is what `2 + 3 ×` does on a calculator.
    pub fn press(&mut self, operation: Operation)
        requires
            old(self)@.wf(),
        ensures
            final(self)@ == old(self)@.after_press(operation),
            final(self)@.wf(),
    {
        if self.pending.is_some() {
            self.equals();
            if self.refused.is_some() {
                return;
            }
        }
        self.pending = Some((self.value, operation));
        self.fresh = true;
        self.editing = None;
    }

    /// Works out what is waiting, if anything is.
    ///
    /// An operation that could not be worked out — a division by zero — keeps
    /// its place: the reader puts another number in and presses again.
    pub fn equals(&mut self)
        requires
            old(self)@.wf(),
        ensures
            final(self)@ == old(self)@.after_equals(),
            final(self)@.wf(),
    {
        let (left, operation) = match self.pending {
            None => return,
            Some(pending) => pending,
        };
        match operation.apply(left, self.value, self.width) {
            Ok(value) => {
                self.value = value;
                self.pending = None;
                self.refused = None;
            },
            Err(refusal) => self.refused = Some(refusal),
        }
        self.fresh = true;
        self.editing = None;
    }

    /// One of the one-sided operations, which happen at once.
    pub fn apply(&mut self, operation: Unary)
        ensures
            final(self)@ == old(self)@.after_apply(operation),
            final(self)@.wf(),
    {
        self.value = operation.apply(self.value, self.width);
        self.fresh = true;
        self.editing = None;
        self.refused = None;
    }

    /// A digit pressed on the keys, in the base they are typing in.
    pub fn digit(&mut self, digit: u32)
        requires
            old(self)@.wf(),
        ensures
            final(self)@ == old(self)@.after_digit(digit),
            final(self)@.wf(),
    {
        let radix = match self.entry.base() {
            None => return,
            Some((radix, _)) => radix,
        };
        if digit >= radix {
            return;
        }
        let current = if self.fresh {
            0
        } else {
            self.value
        };
        let next = match current.checked_mul(radix as u64) {
            Some(shifted) => shifted.checked_add(digit as u64),
            None => None,
        };
        match next {
            Some(value) if value <= self.width.mask() => {
                self.value = value;
                self.fresh = false;
                self.editing = None;
                self.refused = None;
            },
            _ => self.refused = Some(Refusal::TooWide),
        }
    }

    /// Takes the last digit back off, in the base the keys are typing in.
    pub fn backspace(&mut self)
        requires
            old(self)@.wf(),
        ensures
            final(self)@ == old(self)@.after_backspace(),
            final(self)@.wf(),
    {
        let radix = match self.entry.base() {
            None => return,
            Some((radix, _)) => radix,
        };
        self.value = self.value / radix as u64;
        self.fresh = false;
        self.editing = None;
        self.refused = None;
    }

    /// Back to nothing: the value, and whatever was waiting on it.
    pub fn clear(&mut self)
        ensures
            final(self)@ == old(self)@.after_clear(),
            final(self)@.wf(),
    {
        self.value = 0;
        self.pending = None;
        self.fresh = true;
        self.editing = None;
        self.refused = None;
    }

    /// The value with its bytes the other way round.
    pub fn swapped(&self) -> (swapped: u64)
        ensures
            swapped == Unary::SwapBytes.outcome(self@.value, self@.width),
    {
        Unary::SwapBytes.apply(self.value, self.width)
    }

    /// Something typed in a field. Read as a value when it can be, which is a
    /// number entered exactly like one tapped on the keys; kept as typed
    /// either way, so the field shows what the reader is in the middle of.
    pub fn type_in(&mut self, field: Field, typed: String)
        requires
            old(self)@.wf(),
        ensures
            final(self)@ == old(self)@.after_typing(field, typed@),
            final(self)@.wf(),
    {
        self.editing = Some(field);
        match field.read(typed.as_str(), self.width) {
            Ok(value) => {
                self.value = value;
                self.fresh = false;
                self.refused = None;
            },
            Err(refusal) => self.refused = Some(refusal),
        }
        self.typed = typed;
    }

    /// The field was left alone: it goes back to showing the value,
    /// including the field that was refused, which is how a reader sees that
    /// what they typed was not taken.
    pub fn leave_field(&mut self)
        ensures
            final(self)@ == old(self)@.after_leaving(),
    {
        self.editing = None;
        self.refused = None;
    }

    /// What a field shows: what the reader typed while they are in it, and
    /// the value everywhere else.
    pub fn shown(&self, field: Field) -> (shown: String)
        ensures
            shown@ == if self@.editing == Some(field) {
                self@.typed
            } else {
                field.writing(self@.value, self@.width)
            },
    {
        if self.editing == Some(field) {
            self.typed.clone()
        } else {
            field.write(self.value, self.width)
        }
    }
}

} // verus!
