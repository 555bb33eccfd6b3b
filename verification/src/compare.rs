//! The comparison with another file: what the reader asked of it.

use vstd::prelude::*;

verus! {

/// What the reader asked of the comparison.
pub struct Action {
    /// Open the file dialog for the other binary.
    pub choose_other: bool,
    /// Forget the other file and its comparison.
    pub forget: bool,
    /// An address in the open file the reader asked to see in the listing —
    /// only ever one of the open file's own addresses.
    pub go_to: Option<u64>,
}

impl Default for Action {
    /// Nothing asked.
    fn default() -> (action: Self)
        ensures
            !action.choose_other,
            !action.forget,
            action.go_to is None,
    {
        Action { choose_other: false, forget: false, go_to: None }
    }
}

} // verus!
