//! What the views do to runs of characters: find, trim, split and replace.

use vstd::prelude::*;
use crate::text::{is_white_space, white_space};

verus! {

/// Where the first white space of `text` is, or its length when it has none.
pub open spec fn first_white(text: Seq<char>) -> nat
    decreases text.len(),
{
    if text.len() == 0 || is_white_space(text[0]) {
        0
    } else {
        1 + first_white(text.skip(1))
    }
}

/// Where the first `wanted` of `text` is, or its length when it has none.
pub open spec fn first_of(text: Seq<char>, wanted: char) -> nat
    decreases text.len(),
{
    if text.len() == 0 || text[0] == wanted {
        0
    } else {
        1 + first_of(text.skip(1), wanted)
    }
}

/// `text` without the white space it starts with.
pub open spec fn trim_start(text: Seq<char>) -> Seq<char>
    decreases text.len(),
{
    if text.len() > 0 && is_white_space(text[0]) {
        trim_start(text.skip(1))
    } else {
        text
    }
}

/// `text` without the white space it ends with.
pub open spec fn trim_end(text: Seq<char>) -> Seq<char>
    decreases text.len(),
{
    if text.len() > 0 && is_white_space(text.last()) {
        trim_end(text.drop_last())
    } else {
        text
    }
}

/// `text` without white space at either end, which is what `str::trim` gives.
pub open spec fn trimmed(text: Seq<char>) -> Seq<char> {
    trim_end(trim_start(text))
}

/// `text` without the run of `unwanted` it starts with, which is what
/// `str::trim_start_matches` gives for one character.
pub open spec fn without_leading(text: Seq<char>, unwanted: char) -> Seq<char>
    decreases text.len(),
{
    if text.len() > 0 && text[0] == unwanted {
        without_leading(text.skip(1), unwanted)
    } else {
        text
    }
}

/// `text` with every `unwanted` taken out.
pub open spec fn without_any(text: Seq<char>, unwanted: char) -> Seq<char>
    decreases text.len(),
{
    if text.len() == 0 {
        text
    } else if text.last() == unwanted {
        without_any(text.drop_last(), unwanted)
    } else {
        without_any(text.drop_last(), unwanted).push(text.last())
    }
}

/// Whether `text` starts with `prefix`.
pub open spec fn starts_with(text: Seq<char>, prefix: Seq<char>) -> bool {
    text.len() >= prefix.len() && text.take(prefix.len() as int) == prefix
}

proof fn lemma_first_white(text: Seq<char>, index: int)
    requires
        0 <= index <= text.len(),
        forall|earlier: int| 0 <= earlier < index ==> !is_white_space(#[trigger] text[earlier]),
        index == text.len() || is_white_space(text[index]),
    ensures
        first_white(text) == index,
    decreases index,
{
    if index > 0 {
        let rest = text.skip(1);
        assert forall|earlier: int| 0 <= earlier < index - 1 implies !is_white_space(
            #[trigger] rest[earlier],
        ) by {
            assert(rest[earlier] == text[earlier + 1]);
        }
        if index < text.len() {
            assert(rest[index - 1] == text[index]);
        }
        lemma_first_white(rest, index - 1);
        assert(!is_white_space(text[0]));
    }
}

proof fn lemma_first_of(text: Seq<char>, wanted: char, index: int)
    requires
        0 <= index <= text.len(),
        forall|earlier: int| 0 <= earlier < index ==> #[trigger] text[earlier] != wanted,
        index == text.len() || text[index] == wanted,
    ensures
        first_of(text, wanted) == index,
    decreases index,
{
    if index > 0 {
        let rest = text.skip(1);
        assert forall|earlier: int| 0 <= earlier < index - 1 implies #[trigger] rest[earlier]
            != wanted by {
            assert(rest[earlier] == text[earlier + 1]);
        }
        if index < text.len() {
            assert(rest[index - 1] == text[index]);
        }
        lemma_first_of(rest, wanted, index - 1);
        assert(text[0] != wanted);
    }
}

proof fn lemma_trim_start(text: Seq<char>, index: int)
    requires
        0 <= index <= text.len(),
        forall|earlier: int| 0 <= earlier < index ==> is_white_space(#[trigger] text[earlier]),
        index == text.len() || !is_white_space(text[index]),
    ensures
        trim_start(text) == text.skip(index),
    decreases index,
{
    if index > 0 {
        let rest = text.skip(1);
        assert forall|earlier: int| 0 <= earlier < index - 1 implies is_white_space(
            #[trigger] rest[earlier],
        ) by {
            assert(rest[earlier] == text[earlier + 1]);
        }
        if index < text.len() {
            assert(rest[index - 1] == text[index]);
        }
        lemma_trim_start(rest, index - 1);
        assert(is_white_space(text[0]));
        assert(rest.skip(index - 1) =~= text.skip(index));
    } else {
        assert(text.skip(0) =~= text);
    }
}

proof fn lemma_trim_end(text: Seq<char>, index: int)
    requires
        0 <= index <= text.len(),
        forall|later: int| index <= later < text.len() ==> is_white_space(#[trigger] text[later]),
        index == 0 || !is_white_space(text[index - 1]),
    ensures
        trim_end(text) == text.take(index),
    decreases text.len() - index,
{
    if index < text.len() {
        let rest = text.drop_last();
        assert forall|later: int| index <= later < rest.len() implies is_white_space(
            #[trigger] rest[later],
        ) by {
            assert(rest[later] == text[later]);
        }
        if index > 0 {
            assert(rest[index - 1] == text[index - 1]);
        }
        lemma_trim_end(rest, index);
        assert(is_white_space(text[text.len() - 1]));
        assert(rest.take(index) =~= text.take(index));
    } else {
        assert(text.take(index) =~= text);
    }
}

proof fn lemma_without_leading(text: Seq<char>, unwanted: char, index: int)
    requires
        0 <= index <= text.len(),
        forall|earlier: int| 0 <= earlier < index ==> #[trigger] text[earlier] == unwanted,
        index == text.len() || text[index] != unwanted,
    ensures
        without_leading(text, unwanted) == text.skip(index),
    decreases index,
{
    if index > 0 {
        let rest = text.skip(1);
        assert forall|earlier: int| 0 <= earlier < index - 1 implies #[trigger] rest[earlier]
            == unwanted by {
            assert(rest[earlier] == text[earlier + 1]);
        }
        if index < text.len() {
            assert(rest[index - 1] == text[index]);
        }
        lemma_without_leading(rest, unwanted, index - 1);
        assert(text[0] == unwanted);
        assert(rest.skip(index - 1) =~= text.skip(index));
    } else {
        assert(text.skip(0) =~= text);
    }
}

/// Where the first white space of `text` is, or its length.
pub fn find_white(text: &Vec<char>) -> (index: usize)
    ensures
        index == first_white(text@),
        index <= text.len(),
{
    let mut index: usize = 0;
    while index < text.len() && !white_space(text[index])
        invariant
            index <= text.len(),
            forall|earlier: int| 0 <= earlier < index ==> !is_white_space(#[trigger] text@[earlier]),
        decreases text.len() - index,
    {
        index = index + 1;
    }
    proof {
        lemma_first_white(text@, index as int);
    }
    index
}

/// Where the first `wanted` of `text` is, or its length.
pub fn find(text: &Vec<char>, wanted: char) -> (index: usize)
    ensures
        index == first_of(text@, wanted),
        index <= text.len(),
{
    let mut index: usize = 0;
    while index < text.len() && text[index] != wanted
        invariant
            index <= text.len(),
            forall|earlier: int| 0 <= earlier < index ==> #[trigger] text@[earlier] != wanted,
        decreases text.len() - index,
    {
        index = index + 1;
    }
    proof {
        lemma_first_of(text@, wanted, index as int);
    }
    index
}

/// The characters of `text` from `from` up to `to`.
pub fn slice(text: &Vec<char>, from: usize, to: usize) -> (part: Vec<char>)
    requires
        from <= to <= text.len(),
    ensures
        part@ == text@.subrange(from as int, to as int),
{
    let mut part: Vec<char> = Vec::new();
    let mut index = from;
    while index < to
        invariant
            from <= index <= to <= text.len(),
            part@ == text@.subrange(from as int, index as int),
        decreases to - index,
    {
        part.push(text[index]);
        index = index + 1;
        assert(part@ =~= text@.subrange(from as int, index as int));
    }
    part
}

/// `text` without white space at either end.
pub fn trim(text: &Vec<char>) -> (trimmed_text: Vec<char>)
    ensures
        trimmed_text@ == trimmed(text@),
{
    let mut start: usize = 0;
    while start < text.len() && white_space(text[start])
        invariant
            start <= text.len(),
            forall|earlier: int| 0 <= earlier < start ==> is_white_space(#[trigger] text@[earlier]),
        decreases text.len() - start,
    {
        start = start + 1;
    }
    proof {
        lemma_trim_start(text@, start as int);
    }
    let rest = slice(text, start, text.len());
    assert(rest@ =~= text@.skip(start as int));
    let mut end: usize = rest.len();
    while end > 0 && white_space(rest[end - 1])
        invariant
            end <= rest.len(),
            forall|later: int| end <= later < rest.len() ==> is_white_space(#[trigger] rest@[later]),
        decreases end,
    {
        end = end - 1;
    }
    proof {
        lemma_trim_end(rest@, end as int);
    }
    let trimmed_text = slice(&rest, 0, end);
    assert(trimmed_text@ =~= rest@.take(end as int));
    trimmed_text
}

/// `text` without the run of `unwanted` it starts with.
pub fn strip_leading(text: &Vec<char>, unwanted: char) -> (stripped: Vec<char>)
    ensures
        stripped@ == without_leading(text@, unwanted),
{
    let mut start: usize = 0;
    while start < text.len() && text[start] == unwanted
        invariant
            start <= text.len(),
            forall|earlier: int| 0 <= earlier < start ==> #[trigger] text@[earlier] == unwanted,
        decreases text.len() - start,
    {
        start = start + 1;
    }
    proof {
        lemma_without_leading(text@, unwanted, start as int);
    }
    let stripped = slice(text, start, text.len());
    assert(stripped@ =~= text@.skip(start as int));
    stripped
}

/// `text` with every `unwanted` taken out.
pub fn remove_all(text: &Vec<char>, unwanted: char) -> (kept: Vec<char>)
    ensures
        kept@ == without_any(text@, unwanted),
{
    let mut kept: Vec<char> = Vec::new();
    let mut index: usize = 0;
    while index < text.len()
        invariant
            index <= text.len(),
            kept@ == without_any(text@.take(index as int), unwanted),
        decreases text.len() - index,
    {
        let ghost before = text@.take(index as int);
        let ghost after = text@.take(index + 1);
        assert(after.drop_last() =~= before);
        if text[index] != unwanted {
            kept.push(text[index]);
        }
        index = index + 1;
    }
    assert(text@.take(text.len() as int) =~= text@);
    kept
}

/// Whether `text` starts with `prefix`.
pub fn has_prefix(text: &Vec<char>, prefix: &str) -> (has: bool)
    ensures
        has == starts_with(text@, prefix@),
{
    let wanted = crate::text::chars_of(prefix);
    if text.len() < wanted.len() {
        return false;
    }
    let mut index: usize = 0;
    while index < wanted.len()
        invariant
            wanted.len() <= text.len(),
            wanted@ == prefix@,
            index <= wanted.len(),
            forall|earlier: int| 0 <= earlier < index ==> #[trigger] text@[earlier] == wanted@[earlier],
        decreases wanted.len() - index,
    {
        if text[index] != wanted[index] {
            assert(text@.take(wanted.len() as int)[index as int] != wanted@[index as int]);
            return false;
        }
        index = index + 1;
    }
    assert(text@.take(wanted.len() as int) =~= wanted@);
    true
}

/// Whether `text` is exactly `other`.
pub fn is(text: &Vec<char>, other: &str) -> (same: bool)
    ensures
        same == (text@ == other@),
{
    let other_len = other.unicode_len();
    if text.len() != other_len {
        return false;
    }
    assert(text@.take(other@.len() as int) =~= text@);
    has_prefix(text, other)
}

} // verus!
