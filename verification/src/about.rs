//! What the About window says of the program.

use vstd::prelude::*;
use crate::text::{chars_of, extend_str, string_of};

verus! {

/// The released version, next to the build it was produced from: `v`, the
/// version, a middle dot, the build. The line holds no word, so it reads the
/// same in every language.
pub fn version_line(version: &str, build: &str) -> (line: String)
    ensures
        line@ == "v"@ + version@ + " \u{b7} "@ + build@,
{
    let mut line = chars_of("v");
    extend_str(&mut line, version);
    extend_str(&mut line, " \u{b7} ");
    extend_str(&mut line, build);
    string_of(&line)
}

} // verus!
