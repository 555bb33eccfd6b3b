//! The classes view: what it asks of the workspace.

use vstd::prelude::*;

verus! {

/// What the view asks of the workspace: an address to bring into the listing.
pub struct Action {
    pub go_to: Option<u64>,
}

impl Default for Action {
    /// Nothing asked.
    fn default() -> (action: Self)
        ensures
            action.go_to is None,
    {
        Action { go_to: None }
    }
}

} // verus!
