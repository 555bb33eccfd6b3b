//! The reader's own arithmetic over the machine's state: what is written in
//! the window.

use vstd::prelude::*;
use crate::characters::{is, trim, trimmed};
use crate::text::{chars_of, string_of};

verus! {

/// What is written in the window, and why it could not be read.
pub struct State {
    /// What the reader has typed.
    pub source: String,
    /// Why the last thing typed could not be read, when it could not.
    pub refused: Option<String>,
}

impl Default for State {
    /// Nothing typed, nothing refused.
    fn default() -> (state: Self)
        ensures
            state.source@ == Seq::<char>::empty(),
            state.refused is None,
    {
        State { source: String::new(), refused: None }
    }
}

/// What pressing "watch" adds: what is typed, trimmed, unless that is
/// nothing or is watched already; the same expression twice is one watch.
///
/// Whether the text reads as an expression is for the expression language to
/// say, and is asked of what this returns.
pub fn new_watch(typed: &str, watched: &[String]) -> (source: Option<String>)
    ensures
        match source {
            Some(source) => {
                &&& source@ == trimmed(typed@)
                &&& source@.len() > 0
                &&& forall|index: int| 0 <= index < watched@.len() ==> #[trigger] watched@[index]@ != source@
            },
            None => trimmed(typed@).len() == 0 || exists|index: int|
                0 <= index < watched@.len() && #[trigger] watched@[index]@ == trimmed(typed@),
        },
{
    let characters = chars_of(typed);
    let text = trim(&characters);
    if text.len() == 0 {
        return None;
    }
    let mut index: usize = 0;
    while index < watched.len()
        invariant
            text@ == trimmed(typed@),
            index <= watched@.len(),
            forall|earlier: int| 0 <= earlier < index ==> #[trigger] watched@[earlier]@ != text@,
        decreases watched@.len() - index,
    {
        if is(&text, watched[index].as_str()) {
            return None;
        }
        index = index + 1;
    }
    Some(string_of(&text))
}

} // verus!
