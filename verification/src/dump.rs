//! The file's bytes, sixteen to a row, and the way into them by address or
//! offset.

use vstd::prelude::*;
use crate::characters::{remove_all, slice, trim, trimmed, without_any};
use crate::numerals::{all_digits, every_digit, parse_digits, value_of};
use crate::text::{chars_of, string_of};
use crate::disassembly::{byte_pair, lower_digit};

verus! {

/// What the reader is looking at, and where they asked to go.
pub struct State {
    /// The byte the view is centred on, as a file offset.
    pub offset: Option<u64>,
    /// The row to bring into view, once.
    pub pending_scroll: Option<u64>,
    /// What has been typed into the "go to" field.
    pub goto: String,
    /// Set when what was typed is neither an address nor an offset.
    pub goto_failed: bool,
}

impl Default for State {
    /// Nowhere in particular, nothing typed.
    fn default() -> (state: Self)
        ensures
            state.offset is None,
            state.pending_scroll is None,
            state.goto@ == Seq::<char>::empty(),
            !state.goto_failed,
    {
        State { offset: None, pending_scroll: None, goto: String::new(), goto_failed: false }
    }
}

/// `text` without the run of `0x` it starts with.
pub open spec fn without_leading_prefixes(text: Seq<char>) -> Seq<char>
    decreases text.len(),
{
    if text.len() >= 2 && text[0] == '0' && text[1] == 'x' {
        without_leading_prefixes(text.skip(2))
    } else {
        text
    }
}

/// A hexadecimal number as `u64::from_str_radix` reads it: an optional `+`,
/// then at least one hexadecimal digit, worth no more than a `u64` holds.
pub open spec fn hexadecimal_value(text: Seq<char>) -> Option<u64> {
    let digits = if text.len() > 0 && text[0] == '+' {
        text.skip(1)
    } else {
        text
    };
    if digits.len() == 0 || !all_digits(digits, 16) || value_of(digits, 16) > u64::MAX {
        None
    } else {
        Some(value_of(digits, 16) as u64)
    }
}

/// What is typed in the "go to" field, read as a number: trimmed, without the
/// `0x` it may start with, without the underscores and spaces that keep it
/// readable, then hexadecimal.
pub open spec fn typed_value(typed: Seq<char>) -> Option<u64> {
    hexadecimal_value(without_any(without_any(without_leading_prefixes(trimmed(typed)), '_'), ' '))
}

/// Where a number typed in the "go to" field takes the view: to the file
/// offset of the address it names when it is a mapped address, otherwise to
/// itself as an offset when the file is that long, and nowhere otherwise.
pub open spec fn destination(value: u64, mapped: Option<u64>, file_length: nat) -> Option<u64> {
    match mapped {
        Some(offset) => Some(offset),
        None => if value < file_length {
            Some(value)
        } else {
            None
        },
    }
}

/// Reads what was typed in the "go to" field as a number.
pub fn go_to_value(typed: &str) -> (value: Option<u64>)
    ensures
        value == typed_value(typed@),
{
    let mut text = trim(&chars_of(typed));
    while text.len() >= 2 && text[0] == '0' && text[1] == 'x'
        invariant
            without_leading_prefixes(text@) == without_leading_prefixes(trimmed(typed@)),
        decreases text.len(),
    {
        let ghost before = text@;
        text = slice(&text, 2, text.len());
        assert(text@ =~= before.skip(2));
    }
    let cleaned = remove_all(&remove_all(&text, '_'), ' ');
    let digits = if cleaned.len() > 0 && cleaned[0] == '+' {
        slice(&cleaned, 1, cleaned.len())
    } else {
        slice(&cleaned, 0, cleaned.len())
    };
    assert(cleaned@.len() > 0 ==> cleaned@.subrange(1, cleaned@.len() as int) =~= cleaned@.skip(1));
    assert(cleaned@.subrange(0, cleaned@.len() as int) =~= cleaned@);
    if digits.len() == 0 || !every_digit(&digits, 16) {
        return None;
    }
    parse_digits(&digits, 16)
}

/// Where a typed number takes the view, given the file offset its address
/// maps to, if it maps to one, and how long the file is.
pub fn resolve_offset(value: u64, mapped: Option<u64>, file_length: usize) -> (offset: Option<u64>)
    ensures
        offset == destination(value, mapped, file_length as nat),
{
    match mapped {
        Some(offset) => Some(offset),
        None => if (value as u128) < (file_length as u128) {
            Some(value)
        } else {
            None
        },
    }
}

/// Bytes on one row: what makes an offset's last digit the column number.
pub const WIDTH: usize = 16;

/// How many rows `length` bytes take, the last one perhaps not full.
pub open spec fn rows_for(length: nat) -> nat {
    (length + 15) / 16
}

/// How many rows a file of `length` bytes takes.
pub fn row_count(length: usize) -> (count: usize)
    ensures
        count == rows_for(length as nat),
{
    length / WIDTH + if length % WIDTH == 0 {
        0
    } else {
        1
    }
}

/// Where row `row` starts in a file of `length` bytes, and where it ends:
/// sixteen bytes on, or at the end of the file.
pub fn row_span(row: usize, length: usize) -> (span: (usize, usize))
    requires
        row < rows_for(length as nat),
    ensures
        span.0 == row * 16,
        span.1 == if (row + 1) * 16 < length {
            (row + 1) * 16
        } else {
            length as int
        },
        span.0 < span.1 <= length,
{
    let start = row * WIDTH;
    let end = if length - start > WIDTH {
        start + WIDTH
    } else {
        length
    };
    (start, end)
}

/// A byte as the row shows it: what a pending patch would write there, or
/// the byte itself.
pub open spec fn shown_byte(byte: u8, replacement: Option<u8>) -> u8 {
    match replacement {
        Some(patched) => patched,
        None => byte,
    }
}

/// A byte in the text column: itself when it is a printable character or
/// the space, a dot otherwise.
pub open spec fn text_char(byte: u8) -> char {
    if 0x20 <= byte <= 0x7e {
        byte as char
    } else {
        '.'
    }
}

/// Bytes as the hexadecimal column writes them: each in two lower-case
/// digits followed by a space.
pub open spec fn hex_column(bytes: Seq<u8>) -> Seq<char>
    decreases bytes.len(),
{
    if bytes.len() == 0 {
        Seq::empty()
    } else {
        hex_column(bytes.drop_last()) + byte_pair(bytes.last()) + seq![' ']
    }
}

/// The two columns of one row: its bytes in hexadecimal and as text, each
/// byte the one a pending patch would put there, where there is one.
pub fn row_text(bytes: &[u8], replacements: &[Option<u8>]) -> (columns: (String, String))
    requires
        replacements@.len() == bytes@.len(),
    ensures
        ({
            let shown = Seq::new(
                bytes@.len(),
                |index: int| shown_byte(bytes@[index], replacements@[index]),
            );
            &&& columns.0@ == hex_column(shown)
            &&& columns.1@ == shown.map_values(|byte: u8| text_char(byte))
        }),
{
    let ghost shown = Seq::new(
        bytes@.len(),
        |index: int| shown_byte(bytes@[index], replacements@[index]),
    );
    let mut hex: Vec<char> = Vec::new();
    let mut text: Vec<char> = Vec::new();
    let mut index: usize = 0;
    while index < bytes.len()
        invariant
            index <= bytes@.len(),
            replacements@.len() == bytes@.len(),
            shown == Seq::new(
                bytes@.len(),
                |index: int| shown_byte(bytes@[index], replacements@[index]),
            ),
            hex@ == hex_column(shown.take(index as int)),
            text@ == shown.take(index as int).map_values(|byte: u8| text_char(byte)),
        decreases bytes@.len() - index,
    {
        let byte = match replacements[index] {
            Some(patched) => patched,
            None => bytes[index],
        };
        assert(shown.take(index + 1).drop_last() =~= shown.take(index as int));
        hex.push(lower_digit((byte / 16) as u64));
        hex.push(lower_digit((byte % 16) as u64));
        hex.push(' ');
        let character = if 0x20 <= byte && byte <= 0x7e {
            byte as char
        } else {
            '.'
        };
        text.push(character);
        index = index + 1;
        assert(text@ =~= shown.take(index as int).map_values(|byte: u8| text_char(byte)));
        assert(hex@ =~= hex_column(shown.take(index as int)));
    }
    assert(shown.take(bytes@.len() as int) =~= shown);
    (string_of(&hex), string_of(&text))
}

/// A number typed in the "go to" field is read as an address first: when it
/// is a mapped address the view goes to that address's file offset, however
/// long the file and whether or not the number would do as an offset too.
/// Only a number no mapping knows is taken as an offset, and then only when
/// the file is that long; nothing else goes anywhere.
pub proof fn lemma_an_address_is_read_before_an_offset(
    value: u64,
    mapped: Option<u64>,
    file_length: nat,
)
    ensures
        mapped is Some ==> destination(value, mapped, file_length) == mapped,
        mapped is None && value < file_length ==> destination(value, mapped, file_length) == Some(
            value,
        ),
        mapped is None && value >= file_length ==> destination(value, mapped, file_length) is None,
{
}

} // verus!
