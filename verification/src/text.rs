//! Text as the views hold it: a sequence of characters, taken out of a `str`
//! and written back into a `String`.

use vstd::prelude::*;

verus! {

/// Appends one character to a `String`.
///
/// Trusted: `String::push` appends the character it is given to the end of
/// the string, which is all this states.
#[verifier::external_body]
pub(crate) fn push_char(text: &mut String, character: char)
    ensures
        final(text)@ == old(text)@.push(character),
{
    text.push(character);
}

/// The characters of `text`, in order.
pub fn chars_of(text: &str) -> (characters: Vec<char>)
    ensures
        characters@ == text@,
{
    let count = text.unicode_len();
    let mut characters: Vec<char> = Vec::new();
    let mut index: usize = 0;
    while index < count
        invariant
            count == text@.len(),
            index <= count,
            characters@ == text@.take(index as int),
        decreases count - index,
    {
        let character = text.get_char(index);
        characters.push(character);
        index = index + 1;
        assert(characters@ =~= text@.take(index as int));
    }
    assert(characters@ =~= text@);
    characters
}

/// A `String` holding exactly `characters`.
pub fn string_of(characters: &Vec<char>) -> (text: String)
    ensures
        text@ == characters@,
{
    let mut text = String::new();
    let mut index: usize = 0;
    while index < characters.len()
        invariant
            index <= characters.len(),
            text@ == characters@.take(index as int),
        decreases characters.len() - index,
    {
        push_char(&mut text, characters[index]);
        index = index + 1;
        assert(text@ =~= characters@.take(index as int));
    }
    assert(characters@.take(characters.len() as int) =~= characters@);
    text
}

/// Appends every character of `more` to `characters`.
pub fn extend(characters: &mut Vec<char>, more: &Vec<char>)
    ensures
        final(characters)@ == old(characters)@ + more@,
{
    let mut index: usize = 0;
    while index < more.len()
        invariant
            index <= more.len(),
            characters@ == old(characters)@ + more@.take(index as int),
        decreases more.len() - index,
    {
        characters.push(more[index]);
        index = index + 1;
        assert(characters@ =~= old(characters)@ + more@.take(index as int));
    }
    assert(more@.take(more.len() as int) =~= more@);
}

/// Appends every character of `more` to `characters`.
pub fn extend_str(characters: &mut Vec<char>, more: &str)
    ensures
        final(characters)@ == old(characters)@ + more@,
{
    let more = chars_of(more);
    extend(characters, &more);
}

/// The characters of `characters` from `from` on.
pub fn tail(characters: &Vec<char>, from: usize) -> (rest: Vec<char>)
    requires
        from <= characters.len(),
    ensures
        rest@ == characters@.skip(from as int),
{
    let mut rest: Vec<char> = Vec::new();
    let mut index = from;
    while index < characters.len()
        invariant
            from <= index <= characters.len(),
            rest@ == characters@.subrange(from as int, index as int),
        decreases characters.len() - index,
    {
        rest.push(characters[index]);
        index = index + 1;
        assert(rest@ =~= characters@.subrange(from as int, index as int));
    }
    assert(rest@ =~= characters@.skip(from as int));
    rest
}

/// Whether `character` has the Unicode `White_Space` property, which is what
/// `char::is_whitespace` answers.
pub open spec fn is_white_space(character: char) -> bool {
    let code = character as u32;
    ||| 0x09 <= code <= 0x0d
    ||| code == 0x20
    ||| code == 0x85
    ||| code == 0xa0
    ||| code == 0x1680
    ||| 0x2000 <= code <= 0x200a
    ||| code == 0x2028
    ||| code == 0x2029
    ||| code == 0x202f
    ||| code == 0x205f
    ||| code == 0x3000
}

pub fn white_space(character: char) -> (white: bool)
    ensures
        white == is_white_space(character),
{
    let code = character as u32;
    (0x09 <= code && code <= 0x0d) || code == 0x20 || code == 0x85 || code == 0xa0 || code
        == 0x1680 || (0x2000 <= code && code <= 0x200a) || code == 0x2028 || code == 0x2029
        || code == 0x202f || code == 0x205f || code == 0x3000
}

} // verus!
