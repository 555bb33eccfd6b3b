//! Editing the descriptions the reader wrote themselves.

use vstd::prelude::*;
use crate::text::{chars_of, extend_str, push_char, string_of};

verus! {

/// The file as it is being edited, and what went wrong writing it.
pub struct Draft {
    /// The text in the box.
    pub text: String,
    /// Why the file could not be written, when it could not. Kept on screen:
    /// the reader still has unsaved work in the box.
    pub refused: Option<String>,
}

impl Default for Draft {
    /// An empty box, nothing refused.
    fn default() -> (draft: Self)
        ensures
            draft.text@ == Seq::<char>::empty(),
            draft.refused is None,
    {
        Draft { text: String::new(), refused: None }
    }
}

/// The file's text with a line started for `name`, when nothing in it
/// describes that library yet: `name = ` on a line of its own, so the reader
/// is left with only the sentence to write.
pub open spec fn started_line(text: Seq<char>, name: Seq<char>, described: bool) -> Seq<char> {
    if described {
        text
    } else {
        let ended = if text.len() > 0 && text.last() != '\n' {
            text.push('\n')
        } else {
            text
        };
        ended + name + " = "@
    }
}

/// Starts the line for a library the file does not describe yet.
pub fn start_line(text: String, name: &str, described: bool) -> (started: String)
    ensures
        started@ == started_line(text@, name@, described),
{
    if described {
        return text;
    }
    let mut characters = chars_of(text.as_str());
    if characters.len() > 0 && characters[characters.len() - 1] != '\n' {
        characters.push('\n');
    }
    extend_str(&mut characters, name);
    extend_str(&mut characters, " = ");
    string_of(&characters)
}

/// Puts the file as it stands into the box, with nothing refused.
pub fn open(draft: &mut Draft, file: String)
    ensures
        final(draft).text@ == file@,
        final(draft).refused is None,
{
    open_for(draft, file, None);
}

/// The same, started on a library: `library` is its name as the file writes
/// it, and whether something in the file already describes it. The reader who
/// just read that nothing describes it should not have to type its name back
/// in.
pub fn open_for(draft: &mut Draft, file: String, library: Option<(&str, bool)>)
    ensures
        final(draft).text@ == match library {
            Some((name, described)) => started_line(file@, name@, described),
            None => file@,
        },
        final(draft).refused is None,
{
    let text = match library {
        Some((name, described)) => start_line(file, name, described),
        None => file,
    };
    draft.text = text;
    draft.refused = None;
}

} // verus!
