//! The rules the listing is laid out by: which rows are jumps, where each
//! instruction stands once the section headings are counted, and how an
//! address and its bytes are written.

use vstd::prelude::*;
use crate::characters::{has_prefix, is, starts_with};
use crate::numerals::{digit_char, digit_character, digits_of, write_digits};
use crate::text::{chars_of, extend, string_of};

verus! {

/// What the reader asked of the disassembly this frame.
pub struct Action {
    /// An instruction whose bytes are to be edited.
    pub edit: Option<u64>,
    /// An instruction whose operand is to be explained.
    pub inspect: Option<u64>,
    /// Whether the reader asked for the current function to be handed to an
    /// assembler IDE.
    pub send_to_asm_studio: bool,
}

impl Default for Action {
    /// Nothing asked.
    fn default() -> (action: Self)
        ensures
            action.edit is None,
            action.inspect is None,
            !action.send_to_asm_studio,
    {
        Action { edit: None, inspect: None, send_to_asm_studio: false }
    }
}

/// What a click in the listing asked for, gathered as the rows are drawn.
pub struct Asked {
    /// An instruction whose operand is to be explained.
    pub inspect: Option<u64>,
    /// An address whose note is to be opened.
    pub annotate: Option<u64>,
    /// An address to mark, or to unmark.
    pub bookmark: Option<u64>,
    /// An address whose references are to be listed.
    pub references: Option<u64>,
    /// An address to look at byte by byte.
    pub follow: Option<u64>,
    /// An address to put a breakpoint on, or to take one off.
    pub breakpoint: Option<u64>,
    /// An address to run the emulation up to.
    pub run_to: Option<u64>,
}

/// The first of two answers that was given.
pub open spec fn earlier_or(first: Option<u64>, second: Option<u64>) -> Option<u64> {
    if first is Some {
        first
    } else {
        second
    }
}

/// The first of two answers that was given.
fn earlier_given(first: Option<u64>, second: Option<u64>) -> (given: Option<u64>)
    ensures
        given == earlier_or(first, second),
{
    match first {
        Some(address) => Some(address),
        None => second,
    }
}

impl Default for Asked {
    /// Nothing asked.
    fn default() -> (asked: Self)
        ensures
            asked.inspect is None,
            asked.annotate is None,
            asked.bookmark is None,
            asked.references is None,
            asked.follow is None,
            asked.breakpoint is None,
            asked.run_to is None,
    {
        Asked {
            inspect: None,
            annotate: None,
            bookmark: None,
            references: None,
            follow: None,
            breakpoint: None,
            run_to: None,
        }
    }
}

impl Asked {
    /// Takes in what one row asked, keeping whatever an earlier row asked
    /// first: only one menu can be open at a time.
    pub fn merge(&mut self, row: &Self)
        ensures
            final(self).inspect == earlier_or(old(self).inspect, row.inspect),
            final(self).annotate == earlier_or(old(self).annotate, row.annotate),
            final(self).bookmark == earlier_or(old(self).bookmark, row.bookmark),
            final(self).references == earlier_or(old(self).references, row.references),
            final(self).follow == earlier_or(old(self).follow, row.follow),
            final(self).breakpoint == earlier_or(old(self).breakpoint, row.breakpoint),
            final(self).run_to == earlier_or(old(self).run_to, row.run_to),
    {
        self.inspect = earlier_given(self.inspect, row.inspect);
        self.annotate = earlier_given(self.annotate, row.annotate);
        self.bookmark = earlier_given(self.bookmark, row.bookmark);
        self.references = earlier_given(self.references, row.references);
        self.follow = earlier_given(self.follow, row.follow);
        self.breakpoint = earlier_given(self.breakpoint, row.breakpoint);
        self.run_to = earlier_given(self.run_to, row.run_to);
    }
}

/// Whether a mnemonic branches within the listing: the x86 `j*` family, and
/// the ARM64 forms that jump without leaving a return address behind.
pub open spec fn branches(mnemonic: Seq<char>) -> bool {
    ||| starts_with(mnemonic, "j"@)
    ||| starts_with(mnemonic, "b."@)
    ||| mnemonic == "b"@
    ||| mnemonic == "cbz"@
    ||| mnemonic == "cbnz"@
    ||| mnemonic == "tbz"@
    ||| mnemonic == "tbnz"@
}

/// Whether a mnemonic branches within the listing. Calls are left out: they
/// leave the listing and come back.
pub fn is_jump(mnemonic: &str) -> (jump: bool)
    ensures
        jump == branches(mnemonic@),
{
    let mnemonic = chars_of(mnemonic);
    has_prefix(&mnemonic, "j") || has_prefix(&mnemonic, "b.") || is(&mnemonic, "b") || is(
        &mnemonic,
        "cbz",
    ) || is(&mnemonic, "cbnz") || is(&mnemonic, "tbz") || is(&mnemonic, "tbnz")
}

/// How many of `starts` are at or before `index`.
pub open spec fn headings_above(starts: Seq<usize>, index: usize) -> nat
    decreases starts.len(),
{
    if starts.len() == 0 {
        0
    } else {
        headings_above(starts.drop_last(), index) + if starts.last() <= index {
            1nat
        } else {
            0nat
        }
    }
}

/// Whether `starts` goes up, one section after another.
pub open spec fn ascending(starts: Seq<usize>) -> bool {
    forall|earlier: int, later: int|
        0 <= earlier < later < starts.len() ==> #[trigger] starts[earlier] < #[trigger] starts[later]
}

/// In a list that goes up, the entries at or before `index` are exactly those
/// before the point where the list passes it.
proof fn lemma_headings_above(starts: Seq<usize>, index: usize, point: int)
    requires
        ascending(starts),
        0 <= point <= starts.len(),
        forall|earlier: int| 0 <= earlier < point ==> #[trigger] starts[earlier] <= index,
        forall|later: int| point <= later < starts.len() ==> #[trigger] starts[later] > index,
    ensures
        headings_above(starts, index) == point,
    decreases starts.len(),
{
    if starts.len() > 0 {
        let shorter = starts.drop_last();
        if point == starts.len() {
            lemma_headings_above(shorter, index, point - 1);
            assert(starts[starts.len() - 1] <= index);
        } else {
            lemma_headings_above(shorter, index, point);
            assert(starts[starts.len() - 1] > index);
        }
    }
}

/// The row an instruction is drawn on, counting the headings above it: the
/// `leading` rows at the top, one row per instruction before it, and one
/// heading per section that starts at or before it.
pub fn row_of(sections: &[usize], leading: usize, index: usize) -> (row: usize)
    requires
        leading + index + sections@.len() <= usize::MAX,
    ensures
        ascending(sections@) ==> row == leading + index + headings_above(sections@, index),
        leading + index <= row <= leading + index + sections@.len(),
{
    let mut low: usize = 0;
    let mut high: usize = sections.len();
    while low < high
        invariant
            low <= high <= sections@.len(),
            ascending(sections@) ==> forall|earlier: int|
                0 <= earlier < low ==> #[trigger] sections@[earlier] <= index,
            ascending(sections@) ==> forall|later: int|
                high <= later < sections@.len() ==> #[trigger] sections@[later] > index,
        decreases high - low,
    {
        let middle = low + (high - low) / 2;
        if sections[middle] <= index {
            low = middle + 1;
        } else {
            high = middle;
        }
    }
    proof {
        if ascending(sections@) {
            lemma_headings_above(sections@, index, low as int);
        }
    }
    leading + index + low
}

/// The rows above the first instruction: the column titles.
pub const LEADING: usize = 1;

/// The row the instruction at `index` is drawn on, the headings counted.
pub open spec fn row_number(sections: Seq<usize>, leading: nat, index: nat) -> nat {
    leading + index + headings_above(sections, index as usize)
}

/// Fewer instructions have no more headings above them.
proof fn lemma_headings_grow(starts: Seq<usize>, first: usize, second: usize)
    requires
        first <= second,
    ensures
        headings_above(starts, first) <= headings_above(starts, second),
    decreases starts.len(),
{
    if starts.len() > 0 {
        lemma_headings_grow(starts.drop_last(), first, second);
    }
}

/// Each instruction is drawn on the row after the one before it, unless a
/// section starts at it: then its heading comes between them, and pushes it
/// and everything below it one row further down.
pub proof fn lemma_a_heading_pushes_the_rows_down(sections: Seq<usize>, leading: nat, index: usize)
    requires
        ascending(sections),
        index < usize::MAX,
    ensures
        row_number(sections, leading, (index + 1) as nat) == row_number(sections, leading, index as nat)
            + 1 + if sections.contains((index + 1) as usize) {
            1int
        } else {
            0int
        },
{
    lemma_one_more_heading(sections, index);
}

/// Moving one instruction down counts one more heading exactly when a
/// section starts at the instruction moved to.
proof fn lemma_one_more_heading(starts: Seq<usize>, index: usize)
    requires
        ascending(starts),
        index < usize::MAX,
    ensures
        headings_above(starts, (index + 1) as usize) == headings_above(starts, index) + if starts.contains(
            (index + 1) as usize,
        ) {
            1int
        } else {
            0int
        },
    decreases starts.len(),
{
    if starts.len() > 0 {
        let shorter = starts.drop_last();
        assert(ascending(shorter)) by {
            assert forall|earlier: int, later: int|
                0 <= earlier < later < shorter.len() implies #[trigger] shorter[earlier]
                < #[trigger] shorter[later] by {
                assert(starts[earlier] < starts[later]);
            }
        }
        lemma_one_more_heading(shorter, index);
        let next = (index + 1) as usize;
        if starts.last() == next {
            assert(starts.contains(next)) by {
                assert(starts[starts.len() - 1] == next);
            }
            assert(!shorter.contains(next)) by {
                if shorter.contains(next) {
                    let at = choose|at: int| 0 <= at < shorter.len() && shorter[at] == next;
                    assert(starts[at] < starts[starts.len() - 1]);
                }
            }
        } else {
            assert(starts.contains(next) == shorter.contains(next)) by {
                if starts.contains(next) {
                    let at = choose|at: int| 0 <= at < starts.len() && starts[at] == next;
                    assert(shorter[at] == next);
                }
                if shorter.contains(next) {
                    let at = choose|at: int| 0 <= at < shorter.len() && shorter[at] == next;
                    assert(starts[at] == next);
                }
            }
        }
    }
}

/// The first instruction at or below an overview row, found through the same
/// row map that lays out the listing: the first of the `count` instructions
/// drawn on `row` or further down, or the last one when all are drawn above
/// it; none when there are no instructions.
pub fn instruction_at_overview_row(
    count: usize,
    sections: &[usize],
    leading: usize,
    row: usize,
) -> (found: Option<usize>)
    requires
        leading + count + sections@.len() <= usize::MAX,
    ensures
        count == 0 <==> found is None,
        found matches Some(index) ==> index < count,
        ascending(sections@) ==> (found matches Some(index) ==> {
            &&& forall|earlier: nat|
                earlier < index ==> #[trigger] row_number(sections@, leading as nat, earlier) < row
            &&& (row_number(sections@, leading as nat, index as nat) >= row || index == count - 1)
        }),
{
    let mut low: usize = 0;
    let mut high: usize = count;
    while low < high
        invariant
            low <= high <= count,
            leading + count + sections@.len() <= usize::MAX,
            ascending(sections@) ==> forall|earlier: nat|
                earlier < low ==> #[trigger] row_number(sections@, leading as nat, earlier) < row,
            ascending(sections@) ==> forall|later: nat|
                high <= later < count ==> #[trigger] row_number(sections@, leading as nat, later)
                    >= row,
        decreases high - low,
    {
        let middle = low + (high - low) / 2;
        if row_of(sections, leading, middle) < row {
            proof {
                if ascending(sections@) {
                    assert forall|earlier: nat| earlier < middle + 1 implies #[trigger] row_number(
                        sections@,
                        leading as nat,
                        earlier,
                    ) < row by {
                        lemma_headings_grow(sections@, earlier as usize, middle);
                    }
                }
            }
            low = middle + 1;
        } else {
            proof {
                if ascending(sections@) {
                    assert forall|later: nat| middle <= later < count implies #[trigger] row_number(
                        sections@,
                        leading as nat,
                        later,
                    ) >= row by {
                        lemma_headings_grow(sections@, middle, later as usize);
                    }
                }
            }
            high = middle;
        }
    }
    if count == 0 {
        None
    } else if low < count {
        Some(low)
    } else {
        Some(count - 1)
    }
}

/// A character made lower case, when it is an ASCII capital.
pub open spec fn lowered(character: char) -> char {
    if 'A' <= character <= 'Z' {
        ((character as u32) + 32) as char
    } else {
        character
    }
}

/// `value` in lower-case hexadecimal.
pub open spec fn lower_hex(value: nat) -> Seq<char> {
    digits_of(value, 16).map_values(|character: char| lowered(character))
}

/// An address as the listing writes it: `0x`, then zeros enough to make
/// `width` characters in all, then the lower-case hexadecimal digits.
pub open spec fn address_line(width: nat, address: u64) -> Seq<char> {
    let digits = lower_hex(address as nat);
    let padding = if width > digits.len() + 2 {
        (width - digits.len() - 2) as nat
    } else {
        0
    };
    "0x"@ + Seq::new(padding, |index: int| '0') + digits
}

/// `characters` in lower case.
fn lower(characters: &Vec<char>) -> (lowered_characters: Vec<char>)
    ensures
        lowered_characters@ == characters@.map_values(|character: char| lowered(character)),
{
    let mut lowered_characters: Vec<char> = Vec::new();
    let mut index: usize = 0;
    while index < characters.len()
        invariant
            index <= characters.len(),
            lowered_characters@ == characters@.take(index as int).map_values(
                |character: char| lowered(character),
            ),
        decreases characters.len() - index,
    {
        let character = characters[index];
        let next = if 'A' <= character && character <= 'Z' {
            ((character as u32 + 32) as u8) as char
        } else {
            character
        };
        lowered_characters.push(next);
        index = index + 1;
        assert(lowered_characters@ =~= characters@.take(index as int).map_values(
            |character: char| lowered(character),
        ));
    }
    assert(characters@.take(characters.len() as int) =~= characters@);
    lowered_characters
}

/// An address as the listing writes it, `0x` included in `width`.
pub fn address_text(width: usize, address: u64) -> (text: String)
    ensures
        text@ == address_line(width as nat, address),
{
    let digits = lower(&write_digits(address, 16));
    let mut written = chars_of("0x");
    let ghost start = written@;
    let padding: usize = if width > digits.len() && width - digits.len() > 2 {
        width - digits.len() - 2
    } else {
        0
    };
    let mut count: usize = 0;
    while count < padding
        invariant
            count <= padding,
            start == "0x"@,
            written@ == start + Seq::new(count as nat, |index: int| '0'),
        decreases padding - count,
    {
        written.push('0');
        count = count + 1;
        assert(written@ =~= start + Seq::new(count as nat, |index: int| '0'));
    }
    extend(&mut written, &digits);
    string_of(&written)
}

/// A byte as two lower-case hexadecimal digits.
pub open spec fn byte_pair(byte: u8) -> Seq<char> {
    seq![lowered(digit_char((byte / 16) as nat)), lowered(digit_char((byte % 16) as nat))]
}

/// Bytes written as pairs of hexadecimal digits, a space between two.
pub open spec fn hex_line(bytes: Seq<u8>) -> Seq<char>
    decreases bytes.len(),
{
    if bytes.len() == 0 {
        Seq::empty()
    } else if bytes.len() == 1 {
        byte_pair(bytes[0])
    } else {
        hex_line(bytes.drop_last()) + seq![' '] + byte_pair(bytes.last())
    }
}

/// The lower-case form of one hexadecimal digit.
pub(crate) fn lower_digit(digit: u64) -> (character: char)
    requires
        digit < 16,
    ensures
        character == lowered(digit_char(digit as nat)),
{
    let character = digit_character(digit);
    if 'A' <= character && character <= 'Z' {
        ((character as u32 + 32) as u8) as char
    } else {
        character
    }
}

/// Bytes as the listing writes them: `55 48 89 e5`.
pub fn hex(bytes: &[u8]) -> (text: String)
    ensures
        text@ == hex_line(bytes@),
{
    let mut written: Vec<char> = Vec::new();
    let mut index: usize = 0;
    while index < bytes.len()
        invariant
            index <= bytes@.len(),
            written@ == hex_line(bytes@.take(index as int)),
        decreases bytes@.len() - index,
    {
        let byte = bytes[index];
        let ghost before = bytes@.take(index as int);
        let ghost after = bytes@.take(index + 1);
        assert(after.drop_last() =~= before);
        if index > 0 {
            written.push(' ');
        }
        written.push(lower_digit((byte / 16) as u64));
        written.push(lower_digit((byte % 16) as u64));
        index = index + 1;
        if index == 1 {
            assert(written@ =~= hex_line(after));
        } else {
            assert(written@ =~= hex_line(after));
        }
    }
    assert(bytes@.take(bytes@.len() as int) =~= bytes@);
    string_of(&written)
}

/// Whether the instruction at `index` opens a section: the first one, or one
/// in another section than the instruction before it.
pub open spec fn opens_section(sections: Seq<Seq<char>>, index: int) -> bool {
    index == 0 || sections[index] != sections[index - 1]
}

/// Where each section begins in the listing: one instruction index per
/// section, in listing order, given the section each instruction is in.
pub fn section_starts(sections: &[String]) -> (starts: Vec<usize>)
    ensures
        ascending(starts@),
        forall|position: int|
            0 <= position < starts@.len() ==> #[trigger] starts@[position] < sections@.len()
                && opens_section(sections@.map_values(|name: String| name@), starts@[position] as int),
        forall|index: int|
            0 <= index < sections@.len() && opens_section(
                sections@.map_values(|name: String| name@),
                index,
            ) ==> #[trigger] starts@.contains(index as usize),
{
    let ghost names = sections@.map_values(|name: String| name@);
    let mut starts: Vec<usize> = Vec::new();
    let mut index: usize = 0;
    while index < sections.len()
        invariant
            index <= sections@.len(),
            names == sections@.map_values(|name: String| name@),
            ascending(starts@),
            forall|position: int|
                0 <= position < starts@.len() ==> #[trigger] starts@[position] < index
                    && opens_section(names, starts@[position] as int),
            forall|earlier: int|
                0 <= earlier < index && opens_section(names, earlier) ==> #[trigger] starts@.contains(
                    earlier as usize,
                ),
        decreases sections@.len() - index,
    {
        let opens = index == 0 || sections[index] != sections[index - 1];
        proof {
            if index > 0 {
                assert(names[index as int] == sections@[index as int]@);
                assert(names[index - 1] == sections@[index - 1]@);
            }
        }
        if opens {
            let ghost before = starts@;
            starts.push(index);
            assert forall|earlier: int|
                0 <= earlier < index + 1 && opens_section(names, earlier) implies #[trigger] starts@.contains(
                earlier as usize,
            ) by {
                if earlier < index {
                    assert(before.contains(earlier as usize));
                    let position = choose|position: int|
                        0 <= position < before.len() && before[position] == earlier as usize;
                    assert(starts@[position] == earlier as usize);
                } else {
                    assert(starts@[before.len() as int] == earlier as usize);
                }
            }
        }
        index = index + 1;
    }
    starts
}

/// How many instructions are spelt a second time, in NASM's syntax, to
/// measure the instruction column for it: past them the widest line seen so
/// far stands, and the listing's scrollbar carries whatever a later one needs.
pub const MEASURED_IN_NASM: usize = 200000;

/// One instruction of the file, as the column widths read it.
pub struct Listed {
    /// Where it starts.
    pub address: u64,
    /// How many bytes it takes.
    pub bytes: usize,
    /// The name of the section it lies in.
    pub section: String,
    /// The decoder's text of it.
    pub text: String,
}

/// The width of each column of the listing, in characters, held to the
/// widest thing the whole file could put in it so that scrolling never moves
/// a column.
#[derive(Clone, Copy, Debug, Default, PartialEq, Eq, Structural)]
pub struct Columns {
    pub address: usize,
    pub bytes: usize,
    pub section: usize,
    pub stack: usize,
    /// The widest line of assembly the file holds, as the decoder spells it.
    pub instruction: usize,
    /// The same, as NASM spells it.
    pub instruction_nasm: usize,
}

/// The larger of `floor` and every one of `values`.
pub open spec fn widest(floor: int, values: Seq<int>) -> int
    decreases values.len(),
{
    if values.len() == 0 {
        floor
    } else {
        let before = widest(floor, values.drop_last());
        if values.last() > before {
            values.last()
        } else {
            before
        }
    }
}

/// How many hexadecimal digits `value` is written in.
pub open spec fn hex_width(value: u64) -> int {
    digits_of(value as nat, 16).len() as int
}

/// The address the file's last instruction starts at, or zero.
pub open spec fn highest_address(listing: Seq<Listed>) -> u64 {
    if listing.len() == 0 {
        0
    } else {
        listing.last().address
    }
}

/// The digits an address takes in the listing: as many as the highest one
/// needs, eight at the least, and an even number of them.
pub open spec fn address_digits(highest: u64) -> int {
    let digits = if hex_width(highest) > 8 {
        hex_width(highest)
    } else {
        8
    };
    digits + digits % 2
}

/// The characters an instruction's NASM spelling takes, where there is one.
pub open spec fn spelt_width(spelt: Option<String>) -> int {
    match spelt {
        Some(text) => text@.len() as int,
        None => 0,
    }
}

/// The characters a stack depth takes, written in hexadecimal after `0x`.
pub open spec fn depth_width(depth: Option<u64>) -> int {
    match depth {
        Some(depth) => 2 + hex_width(depth),
        None => 0,
    }
}

/// The byte counts of a listing.
pub open spec fn byte_counts(listing: Seq<Listed>) -> Seq<int> {
    listing.map_values(|listed: Listed| listed.bytes as int)
}

/// The lengths of the section names of a listing.
pub open spec fn section_lengths(listing: Seq<Listed>) -> Seq<int> {
    listing.map_values(|listed: Listed| listed.section@.len() as int)
}

/// The lengths of the decoder's texts of a listing.
pub open spec fn text_lengths(listing: Seq<Listed>) -> Seq<int> {
    listing.map_values(|listed: Listed| listed.text@.len() as int)
}

/// The lengths of the NASM spellings measured: at most the first
/// [`MEASURED_IN_NASM`] of them.
pub open spec fn spelt_lengths(spelt: Seq<Option<String>>) -> Seq<int> {
    let measured = if spelt.len() < MEASURED_IN_NASM {
        spelt.len() as int
    } else {
        MEASURED_IN_NASM as int
    };
    spelt.take(measured).map_values(|spelt: Option<String>| spelt_width(spelt))
}

/// The widths the stack depths take.
pub open spec fn depth_widths(depths: Seq<Option<u64>>) -> Seq<int> {
    depths.map_values(|depth: Option<u64>| depth_width(depth))
}

/// Sixteen to the `count`.
spec fn sixteen_to(count: nat) -> nat
    decreases count,
{
    if count == 0 {
        1
    } else {
        16 * sixteen_to((count - 1) as nat)
    }
}

/// A value below sixteen to the `count` takes at most `count` hexadecimal
/// digits.
proof fn lemma_hex_digits_below(value: nat, count: nat)
    requires
        1 <= count,
        value < sixteen_to(count),
    ensures
        1 <= digits_of(value, 16).len() <= count,
    decreases count,
{
    if value >= 16 {
        let below = sixteen_to((count - 1) as nat);
        assert(count >= 2) by {
            if count == 1 {
                assert(sixteen_to(0) == 1);
            }
        }
        assert(value / 16 < below) by (nonlinear_arith)
            requires
                value < 16 * below,
        ;
        lemma_hex_digits_below(value / 16, (count - 1) as nat);
    }
}

/// A 64-bit value takes between one and sixteen hexadecimal digits.
proof fn lemma_digit_count(value: nat)
    requires
        value <= u64::MAX,
    ensures
        1 <= digits_of(value, 16).len() <= 16,
{
    reveal_with_fuel(sixteen_to, 17);
    assert(sixteen_to(16) == 0x1_0000_0000_0000_0000);
    lemma_hex_digits_below(value, 16);
}

/// One more value taken into `widest`.
proof fn lemma_widest_step(floor: int, values: Seq<int>, count: int)
    requires
        0 <= count < values.len(),
    ensures
        values.take(count + 1).drop_last() == values.take(count),
        values.take(count + 1).last() == values[count],
        widest(floor, values.take(count + 1)) == if values[count] > widest(
            floor,
            values.take(count),
        ) {
            values[count]
        } else {
            widest(floor, values.take(count))
        },
{
    assert(values.take(count + 1).drop_last() =~= values.take(count));
}

impl Columns {
    /// The widths one file calls for.
    ///
    /// `listing` is the file's instructions in address order; `spelt` is each
    /// one spelt in NASM's syntax, where the architecture has a speller at all
    /// (`None` where it has none, and `None` in place of an instruction it
    /// could not spell); `depths` is the stack depth before each instruction,
    /// where it is known.
    pub fn of(
        listing: &[Listed],
        spelt: Option<&[Option<String>]>,
        depths: &[Option<u64>],
    ) -> (columns: Columns)
        requires
            forall|index: int|
                0 <= index < listing@.len() ==> #[trigger] listing@[index].bytes < usize::MAX / 3,
        ensures
            columns.address == address_digits(highest_address(listing@)) + 2,
            columns.bytes == 3 * widest(1, byte_counts(listing@)) + 1,
            columns.section == widest(1, section_lengths(listing@)),
            columns.instruction == widest(1, text_lengths(listing@)),
            columns.instruction_nasm == match spelt {
                Some(spelt) => widest(columns.instruction as int, spelt_lengths(spelt@)),
                None => columns.instruction as int,
            },
            columns.stack == widest(1, depth_widths(depths@)),
    {
        let highest = if listing.len() == 0 {
            0
        } else {
            listing[listing.len() - 1].address
        };
        let hex_digits = write_digits(highest, 16).len();
        let digits = if hex_digits > 8 {
            hex_digits
        } else {
            8
        };
        proof {
            lemma_digit_count(highest as nat);
        }
        let address = digits + digits % 2 + 2;
        let mut bytes: usize = 1;
        let mut section: usize = 1;
        let mut instruction: usize = 1;
        let mut index: usize = 0;
        while index < listing.len()
            invariant
                index <= listing@.len(),
                forall|other: int|
                    0 <= other < listing@.len() ==> #[trigger] listing@[other].bytes < usize::MAX
                        / 3,
                bytes == widest(1, byte_counts(listing@).take(index as int)),
                section == widest(1, section_lengths(listing@).take(index as int)),
                instruction == widest(1, text_lengths(listing@).take(index as int)),
                1 <= bytes < usize::MAX / 3,
            decreases listing@.len() - index,
        {
            let listed = &listing[index];
            proof {
                lemma_widest_step(1, byte_counts(listing@), index as int);
                lemma_widest_step(1, section_lengths(listing@), index as int);
                lemma_widest_step(1, text_lengths(listing@), index as int);
            }
            if listed.bytes > bytes {
                bytes = listed.bytes;
            }
            let section_length = listed.section.unicode_len();
            if section_length > section {
                section = section_length;
            }
            let text_length = listed.text.unicode_len();
            if text_length > instruction {
                instruction = text_length;
            }
            index = index + 1;
        }
        assert(byte_counts(listing@).take(listing@.len() as int) =~= byte_counts(listing@));
        assert(section_lengths(listing@).take(listing@.len() as int) =~= section_lengths(listing@));
        assert(text_lengths(listing@).take(listing@.len() as int) =~= text_lengths(listing@));
        let mut instruction_nasm = instruction;
        if let Some(spelt) = spelt {
            let measured = if spelt.len() < MEASURED_IN_NASM {
                spelt.len()
            } else {
                MEASURED_IN_NASM
            };
            let ghost lengths = spelt_lengths(spelt@);
            let mut index: usize = 0;
            while index < measured
                invariant
                    measured <= spelt@.len(),
                    lengths == spelt_lengths(spelt@),
                    lengths.len() == measured,
                    index <= measured,
                    instruction_nasm == widest(instruction as int, lengths.take(index as int)),
                decreases measured - index,
            {
                proof {
                    lemma_widest_step(instruction as int, lengths, index as int);
                }
                if let Some(text) = &spelt[index] {
                    let length = text.unicode_len();
                    if length > instruction_nasm {
                        instruction_nasm = length;
                    }
                }
                index = index + 1;
            }
            assert(lengths.take(measured as int) =~= lengths);
        }
        let mut stack: usize = 1;
        let mut index: usize = 0;
        while index < depths.len()
            invariant
                index <= depths@.len(),
                stack == widest(1, depth_widths(depths@).take(index as int)),
            decreases depths@.len() - index,
        {
            proof {
                lemma_widest_step(1, depth_widths(depths@), index as int);
            }
            if let Some(depth) = depths[index] {
                let written = write_digits(depth, 16).len();
                proof {
                    lemma_digit_count(depth as nat);
                }
                if written + 2 > stack {
                    stack = written + 2;
                }
            }
            index = index + 1;
        }
        assert(depth_widths(depths@).take(depths@.len() as int) =~= depth_widths(depths@));
        Columns {
            address,
            bytes: bytes * 3 - 1 + 2,
            section,
            stack,
            instruction,
            instruction_nasm,
        }
    }
}

} // verus!
