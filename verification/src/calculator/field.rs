use vstd::prelude::*;
use vstd::arithmetic::power2::pow2;
use crate::calculator::width::{Width, lemma_and_mask_is_mod};
use crate::numerals::{
    all_digits, digit_char, digits_of, every_digit, parse_digits, value_of, write_digits,
    lemma_digits_round_trip,
};
use crate::text::{chars_of, is_white_space, push_char, string_of, tail, white_space};

verus! {

/// One reading of the value, and one editable field on screen.
#[derive(Clone, Copy, Debug, PartialEq, Eq, Hash, Structural)]
pub enum Field {
    Hexadecimal,
    Decimal,
    /// The same bits read as a signed number, which is the reading a negative
    /// offset in a listing is written in.
    Signed,
    Octal,
    Binary,
    /// The bytes as characters, the most significant first.
    Ascii,
}

/// Why what was typed was not taken.
#[derive(Clone, Copy, Debug, PartialEq, Eq, Structural)]
pub enum Refusal {
    /// It is not a number in this base at all.
    Unreadable,
    /// It is a number, and it does not fit in the chosen width.
    TooWide,
    /// A division by zero was asked for, which has no answer.
    ByZero,
}

/// Whether a character is one a reader keeps a long number readable with,
/// and which is therefore not part of the number.
pub open spec fn is_blank(character: char) -> bool {
    is_white_space(character) || character == '_'
}

/// `typed` with its blanks taken out.
pub open spec fn blank_free(typed: Seq<char>) -> Seq<char>
    decreases typed.len(),
{
    if typed.len() == 0 {
        typed
    } else if is_blank(typed.last()) {
        blank_free(typed.drop_last())
    } else {
        blank_free(typed.drop_last()).push(typed.last())
    }
}

/// A signed decimal number: an optional sign, then decimal digits.
pub open spec fn signed_read(digits: Seq<char>, width: Width) -> Result<u64, Refusal> {
    let signed = digits.len() > 0 && (digits[0] == '-' || digits[0] == '+');
    let unsigned = if signed {
        digits.skip(1)
    } else {
        digits
    };
    if unsigned.len() == 0 || !all_digits(unsigned, 10) {
        Err(Refusal::Unreadable)
    } else {
        let magnitude = value_of(unsigned, 10);
        let value = if digits[0] == '-' {
            -magnitude
        } else {
            magnitude as int
        };
        if -(width.limit() as int) <= 2 * value < width.limit() {
            Ok(width.kept(value) as u64)
        } else {
            Err(Refusal::TooWide)
        }
    }
}

/// What a run of characters is worth as bytes, the first weighing most.
pub open spec fn codes_value(typed: Seq<char>) -> nat
    decreases typed.len(),
{
    if typed.len() == 0 {
        0
    } else {
        codes_value(typed.drop_last()) * 256 + ((typed.last() as u32) as nat)
    }
}

/// Whether every character of `typed` is ASCII.
pub open spec fn all_ascii(typed: Seq<char>) -> bool {
    forall|index: int| 0 <= index < typed.len() ==> ((#[trigger] typed[index]) as u32) < 128
}

/// The value a string of characters spells, the first character weighing most.
pub open spec fn spelling_value(typed: Seq<char>, width: Width) -> Result<u64, Refusal> {
    if typed.len() == 0 {
        Ok(0)
    } else if !all_ascii(typed) {
        Err(Refusal::Unreadable)
    } else if typed.len() * 8 > width.bit_count() {
        Err(Refusal::TooWide)
    } else {
        Ok(codes_value(typed) as u64)
    }
}

/// The byte of `value` at position `position` of `count`, the most
/// significant first.
pub open spec fn byte_at(value: nat, count: nat, position: int) -> nat {
    (value / pow2((8 * (count - 1 - position)) as nat)) % 256
}

/// The `count` bytes of `value`, the most significant first.
pub open spec fn bytes_of(value: nat, count: nat) -> Seq<nat> {
    Seq::new(count, |position: int| byte_at(value, count, position))
}

/// `bytes` without the zero bytes it starts with.
pub open spec fn without_leading_zeros(bytes: Seq<nat>) -> Seq<nat>
    decreases bytes.len(),
{
    if bytes.len() == 0 {
        bytes
    } else {
        let before = without_leading_zeros(bytes.drop_last());
        if before.len() == 0 && bytes.last() == 0 {
            before
        } else {
            before.push(bytes.last())
        }
    }
}

/// Whether a byte is a character anyone can read: a printable ASCII
/// character or the space.
pub open spec fn is_printable(byte: nat) -> bool {
    0x20 <= byte <= 0x7e
}

/// A byte as the string shows it: itself when it can be read, `·` otherwise.
pub open spec fn shown_byte(byte: nat) -> char {
    if is_printable(byte) {
        byte as char
    } else {
        '\u{b7}'
    }
}

/// The bytes of `value` as characters, the most significant first and the
/// leading zero bytes left out.
pub open spec fn spelt_text(value: nat, width: Width) -> Seq<char> {
    without_leading_zeros(bytes_of(value, width.bit_count() / 8)).map_values(
        |byte: nat| shown_byte(byte),
    )
}

/// Whether a space is put before the digit at `index` of `count`: between
/// groups of four counted from the right.
pub open spec fn space_before(index: int, count: int) -> bool {
    index > 0 && (count - index) % 4 == 0
}

/// The first `length` digits of `digits`, grouped.
pub open spec fn grouped_prefix(digits: Seq<char>, length: int) -> Seq<char>
    decreases length,
{
    if length <= 0 {
        Seq::empty()
    } else {
        let before = grouped_prefix(digits, length - 1);
        let spaced = if space_before(length - 1, digits.len() as int) {
            before.push(' ')
        } else {
            before
        };
        spaced.push(digits[length - 1])
    }
}

/// A run of digits cut into groups of four, counted from the right.
pub open spec fn grouped_text(digits: Seq<char>) -> Seq<char> {
    grouped_prefix(digits, digits.len() as int)
}

/// A signed number written in decimal, with a minus sign when it is below
/// zero.
pub open spec fn signed_text(value: int) -> Seq<char> {
    if value < 0 {
        seq!['-'] + digits_of((-value) as nat, 10)
    } else {
        digits_of(value as nat, 10)
    }
}

impl Field {
    /// Every reading, in the order the window shows them.
    pub const ALL: [Field; 6] = [
        Field::Hexadecimal,
        Field::Decimal,
        Field::Signed,
        Field::Octal,
        Field::Binary,
        Field::Ascii,
    ];

    /// The bases the keys can type in: every reading that is a base, which
    /// leaves out the signed one — decimal read differently — and the string.
    pub const BASES: [Field; 4] = [Field::Hexadecimal, Field::Decimal, Field::Octal, Field::Binary];

    /// The base this field is written in, and zero for the string.
    pub open spec fn radix(self) -> nat {
        match self {
            Field::Hexadecimal => 16,
            Field::Decimal => 10,
            Field::Signed => 10,
            Field::Octal => 8,
            Field::Binary => 2,
            Field::Ascii => 0,
        }
    }

    /// The letter after `0` that the field's prefix carries, when it has one.
    pub open spec fn prefix_letter(self) -> Option<char> {
        match self {
            Field::Hexadecimal => Some('x'),
            Field::Octal => Some('o'),
            Field::Binary => Some('b'),
            _ => None,
        }
    }

    /// The prefix the field accepts before its digits.
    pub open spec fn prefix_text(self) -> Seq<char> {
        match self.prefix_letter() {
            Some(letter) => seq!['0', letter],
            None => Seq::empty(),
        }
    }

    /// The digits of what was typed, once the prefix is taken off — in either
    /// case, `0x` or `0X`.
    pub open spec fn digits_part(self, cleaned: Seq<char>) -> Seq<char> {
        match self.prefix_letter() {
            Some(letter) => if cleaned.len() >= 2 && cleaned[0] == '0' && (cleaned[1] == letter
                || cleaned[1] == upper_case(letter)) {
                cleaned.skip(2)
            } else {
                cleaned
            },
            None => cleaned,
        }
    }

    /// The three letters a calculator names this base with.
    pub open spec fn short_text(self) -> Seq<char> {
        match self {
            Field::Hexadecimal => seq!['H', 'E', 'X'],
            Field::Decimal => seq!['D', 'E', 'C'],
            Field::Signed => seq!['D', 'E', 'C'],
            Field::Octal => seq!['O', 'C', 'T'],
            Field::Binary => seq!['B', 'I', 'N'],
            Field::Ascii => seq!['T', 'X', 'T'],
        }
    }

    /// What is typed here, read as a value.
    pub open spec fn reading(self, typed: Seq<char>, width: Width) -> Result<u64, Refusal> {
        if self == Field::Ascii {
            spelling_value(typed, width)
        } else {
            let digits = self.digits_part(blank_free(typed));
            if digits.len() == 0 {
                Ok(0)
            } else if self == Field::Signed {
                signed_read(digits, width)
            } else if !all_digits(digits, self.radix()) {
                Err(Refusal::Unreadable)
            } else if value_of(digits, self.radix()) > width.top() {
                Err(Refusal::TooWide)
            } else {
                Ok(value_of(digits, self.radix()) as u64)
            }
        }
    }

    /// The value, written the way this field writes it.
    pub open spec fn writing(self, value: u64, width: Width) -> Seq<char> {
        let kept = width.kept(value as int);
        match self {
            Field::Hexadecimal => digits_of(kept, 16),
            Field::Decimal => digits_of(kept, 10),
            Field::Signed => signed_text(width.signed_reading(kept as int)),
            Field::Octal => digits_of(kept, 8),
            Field::Binary => grouped_text(digits_of(kept, 2)),
            Field::Ascii => spelt_text(kept, width),
        }
    }
}

impl Field {
    /// The base this field is written in, and the prefix it accepts.
    pub fn base(self) -> (base: Option<(u32, &'static str)>)
        ensures
            match base {
                Some((radix, prefix)) => self != Field::Ascii && radix == self.radix()
                    && prefix@ == self.prefix_text(),
                None => self == Field::Ascii,
            },
    {
        proof {
            reveal_strlit("0x");
            reveal_strlit("");
            reveal_strlit("0o");
            reveal_strlit("0b");
        }
        match self {
            Field::Hexadecimal => Some((16, "0x")),
            Field::Decimal => Some((10, "")),
            Field::Signed => Some((10, "")),
            Field::Octal => Some((8, "0o")),
            Field::Binary => Some((2, "0b")),
            Field::Ascii => None,
        }
    }

    /// The three letters a calculator names this base with, which read the
    /// same in every language.
    pub fn short(self) -> (short: &'static str)
        ensures
            short@ == self.short_text(),
    {
        proof {
            reveal_strlit("HEX");
            reveal_strlit("DEC");
            reveal_strlit("OCT");
            reveal_strlit("BIN");
            reveal_strlit("TXT");
        }
        match self {
            Field::Hexadecimal => "HEX",
            Field::Decimal => "DEC",
            Field::Signed => "DEC",
            Field::Octal => "OCT",
            Field::Binary => "BIN",
            Field::Ascii => "TXT",
        }
    }

    /// The value, written the way this field writes it.
    pub fn write(self, value: u64, width: Width) -> (written: String)
        ensures
            written@ == self.writing(value, width),
    {
        let value = width.keep(value);
        let characters = match self {
            Field::Hexadecimal => write_digits(value, 16),
            Field::Decimal => write_digits(value, 10),
            Field::Signed => signed_digits(width.signed(value)),
            Field::Octal => write_digits(value, 8),
            Field::Binary => grouped(&write_digits(value, 2)),
            Field::Ascii => spelt(value, width),
        };
        string_of(&characters)
    }

    /// What is typed here, read as a value.
    ///
    /// An empty field is zero rather than a refusal: clearing a field to type
    /// a new number must not paint the window red on the way.
    pub fn read(self, typed: &str, width: Width) -> (read: Result<u64, Refusal>)
        ensures
            read == self.reading(typed@, width),
            read matches Ok(value) ==> value <= width.top(),
    {
        let characters = chars_of(typed);
        let radix: u32 = match self.base() {
            None => return spell(&characters, width),
            Some((radix, _)) => radix,
        };
        let cleaned = without_blanks(&characters);
        let digits = self.strip_prefix(cleaned);
        if digits.len() == 0 {
            return Ok(0);
        }
        if self == Field::Signed {
            return signed(&digits, width);
        }
        if !every_digit(&digits, radix) {
            return Err(Refusal::Unreadable);
        }
        match parse_digits(&digits, radix as u64) {
            None => Err(Refusal::TooWide),
            Some(value) => if value <= width.mask() {
                Ok(value)
            } else {
                Err(Refusal::TooWide)
            },
        }
    }

    /// Takes the field's prefix off what was typed, in either case.
    fn strip_prefix(self, cleaned: Vec<char>) -> (digits: Vec<char>)
        ensures
            digits@ == self.digits_part(cleaned@),
    {
        let (lower, upper) = match self {
            Field::Hexadecimal => ('x', 'X'),
            Field::Octal => ('o', 'O'),
            Field::Binary => ('b', 'B'),
            _ => return cleaned,
        };
        if cleaned.len() >= 2 && cleaned[0] == '0' && (cleaned[1] == lower || cleaned[1] == upper) {
            tail(&cleaned, 2)
        } else {
            cleaned
        }
    }
}

/// What was typed, without the blanks that keep a long number readable.
fn without_blanks(typed: &Vec<char>) -> (cleaned: Vec<char>)
    ensures
        cleaned@ == blank_free(typed@),
{
    let mut cleaned: Vec<char> = Vec::new();
    let mut index: usize = 0;
    while index < typed.len()
        invariant
            index <= typed.len(),
            cleaned@ == blank_free(typed@.take(index as int)),
        decreases typed.len() - index,
    {
        let character = typed[index];
        let ghost before = typed@.take(index as int);
        let ghost after = typed@.take(index + 1);
        assert(after.drop_last() =~= before);
        if !(white_space(character) || character == '_') {
            cleaned.push(character);
        }
        index = index + 1;
    }
    assert(typed@.take(typed.len() as int) =~= typed@);
    cleaned
}

/// A signed number written in decimal.
fn signed_digits(value: i64) -> (digits: Vec<char>)
    ensures
        digits@ == signed_text(value as int),
{
    if value < 0 {
        let magnitude: u64 = (-(value + 1)) as u64 + 1;
        let mut digits: Vec<char> = Vec::new();
        digits.push('-');
        let more = write_digits(magnitude, 10);
        crate::text::extend(&mut digits, &more);
        assert(digits@ =~= seq!['-'] + more@);
        digits
    } else {
        write_digits(value as u64, 10)
    }
}

/// A run of digits cut into groups of four, counted from the right.
fn grouped(digits: &Vec<char>) -> (grouped: Vec<char>)
    ensures
        grouped@ == grouped_text(digits@),
{
    let mut grouped: Vec<char> = Vec::new();
    let mut index: usize = 0;
    while index < digits.len()
        invariant
            index <= digits.len(),
            grouped@ == grouped_prefix(digits@, index as int),
        decreases digits.len() - index,
    {
        if index > 0 && (digits.len() - index) % 4 == 0 {
            grouped.push(' ');
        }
        grouped.push(digits[index]);
        index = index + 1;
    }
    grouped
}

/// A byte as the string shows it.
fn shown(byte: u8) -> (shown: char)
    ensures
        shown == shown_byte(byte as nat),
{
    if 0x20 <= byte && byte <= 0x7e {
        byte as char
    } else {
        '\u{b7}'
    }
}

/// The byte of `value` that is `index` bytes up from the bottom.
pub(crate) fn byte_of(value: u64, index: u32) -> (byte: u8)
    requires
        index < 8,
    ensures
        byte == (value as nat / pow2((8 * index) as nat)) % 256,
{
    let shift: u64 = (index * 8) as u64;
    proof {
        vstd::bits::lemma_u64_shr_is_div(value, shift);
    }
    let shifted = value >> shift;
    assert(shifted & 0xff == shifted % 256) by (bit_vector);
    (shifted & 0xff) as u8
}

/// The bytes of `value` as characters, the most significant first.
///
/// Leading zero bytes are left out: `0x4142` spells `AB`. A byte that cannot
/// be printed is written `·`, which cannot be typed back.
fn spelt(value: u64, width: Width) -> (spelt: Vec<char>)
    ensures
        spelt@ == spelt_text(value as nat, width),
{
    let count = width.bits() / 8;
    let ghost bytes = bytes_of(value as nat, count as nat);
    let mut spelt: Vec<char> = Vec::new();
    let mut position: u32 = 0;
    while position < count
        invariant
            count == width.bit_count() / 8,
            1 <= count <= 8,
            position <= count,
            bytes == bytes_of(value as nat, count as nat),
            spelt@ == without_leading_zeros(bytes.take(position as int)).map_values(
                |byte: nat| shown_byte(byte),
            ),
        decreases count - position,
    {
        let byte = byte_of(value, count - 1 - position);
        let ghost before = bytes.take(position as int);
        let ghost after = bytes.take(position + 1);
        assert(after.drop_last() =~= before);
        assert(after.last() == byte as nat);
        if spelt.len() == 0 && byte == 0 {
        } else {
            spelt.push(shown(byte));
        }
        position = position + 1;
        assert(spelt@ =~= without_leading_zeros(after).map_values(|byte: nat| shown_byte(byte)));
    }
    assert(bytes.take(count as int) =~= bytes);
    spelt
}

/// The value a string of characters spells, the first character weighing most.
fn spell(typed: &Vec<char>, width: Width) -> (spelt: Result<u64, Refusal>)
    ensures
        spelt == spelling_value(typed@, width),
        spelt matches Ok(value) ==> value <= width.top(),
{
    if typed.len() == 0 {
        return Ok(0);
    }
    let mut index: usize = 0;
    while index < typed.len()
        invariant
            index <= typed.len(),
            forall|earlier: int| 0 <= earlier < index ==> ((#[trigger] typed@[earlier]) as u32) < 128,
        decreases typed.len() - index,
    {
        if typed[index] as u32 >= 128 {
            return Err(Refusal::Unreadable);
        }
        index = index + 1;
    }
    if typed.len() > (width.bits() / 8) as usize {
        return Err(Refusal::TooWide);
    }
    let mut value: u64 = 0;
    let mut index: usize = 0;
    proof {
        vstd::arithmetic::power2::lemma2_to64();
    }
    while index < typed.len()
        invariant
            index <= typed.len() <= 8,
            all_ascii(typed@),
            value == codes_value(typed@.take(index as int)),
            value < pow2((8 * index) as nat),
        decreases typed.len() - index,
    {
        let ghost before = typed@.take(index as int);
        let ghost after = typed@.take(index + 1);
        assert(after.drop_last() =~= before);
        let code = typed[index] as u32 as u64;
        assert(code < 128);
        proof {
            vstd::arithmetic::power2::lemma_pow2_adds((8 * index) as nat, 8);
            vstd::arithmetic::power2::lemma2_to64();
            if index < 7 {
                vstd::arithmetic::power2::lemma_pow2_strictly_increases((8 * index) as nat, 56);
            }
            vstd::arithmetic::power2::lemma2_to64_rest();
            assert(pow2(56) == 0x100_0000_0000_0000);
            assert(value < 0x100_0000_0000_0000);
            assert(value * 256 + code < pow2((8 * index) as nat) * 256) by (nonlinear_arith)
                requires
                    value < pow2((8 * index) as nat),
                    code < 256,
            ;
        }
        value = value * 256 + code;
        index = index + 1;
    }
    assert(typed@.take(typed.len() as int) =~= typed@);
    proof {
        crate::calculator::operation::lemma_limit_is_power(width);
        if 8 * typed.len() < width.bit_count() {
            vstd::arithmetic::power2::lemma_pow2_strictly_increases(
                (8 * typed.len()) as nat,
                width.bit_count(),
            );
        }
    }
    Ok(value)
}

/// A signed number, held to what the width can hold.
fn signed(digits: &Vec<char>, width: Width) -> (read: Result<u64, Refusal>)
    requires
        digits.len() > 0,
    ensures
        read == signed_read(digits@, width),
        read matches Ok(value) ==> value <= width.top(),
{
    let negative = digits[0] == '-';
    let unsigned = if negative || digits[0] == '+' {
        tail(digits, 1)
    } else {
        tail(digits, 0)
    };
    assert(digits@.skip(0) =~= digits@);
    if unsigned.len() == 0 || !every_digit(&unsigned, 10) {
        return Err(Refusal::Unreadable);
    }
    let magnitude = match parse_digits(&unsigned, 10) {
        None => return Err(Refusal::TooWide),
        Some(magnitude) => magnitude,
    };
    let mask = width.mask();
    let half = mask / 2 + 1;
    if negative {
        if magnitude == 0 {
            Ok(0)
        } else if magnitude <= half {
            Ok(mask - (magnitude - 1))
        } else {
            Err(Refusal::TooWide)
        }
    } else {
        if magnitude < half {
            Ok(magnitude)
        } else {
            Err(Refusal::TooWide)
        }
    }
}

/// The upper-case form of a prefix letter.
pub open spec fn upper_case(letter: char) -> char {
    if 'a' <= letter <= 'z' {
        ((letter as u32) - 32) as char
    } else {
        letter
    }
}

} // verus!
