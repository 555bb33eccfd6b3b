//! The expert view's reading of the libraries a file loads.

use vstd::prelude::*;
use crate::disassembly::lowered;
use crate::text::chars_of;

verus! {

/// Whether `name`, its ASCII letters taken in either case, is `wanted`.
pub open spec fn same_ignoring_case(name: Seq<char>, wanted: Seq<char>) -> bool {
    name.map_values(|character: char| lowered(character)) == wanted
}

/// Whether this is Windows' own lowest-level library, whatever case the file
/// spells it in.
pub fn is_the_native_api(library: &str) -> (native: bool)
    ensures
        native == (same_ignoring_case(library@, "ntdll.dll"@) || same_ignoring_case(
            library@,
            "ntdll"@,
        )),
{
    let name = chars_of(library);
    equal_ignoring_case(&name, "ntdll.dll") || equal_ignoring_case(&name, "ntdll")
}

/// Whether `name` is `wanted` once its capitals are made lower case.
fn equal_ignoring_case(name: &Vec<char>, wanted: &str) -> (same: bool)
    ensures
        same == same_ignoring_case(name@, wanted@),
{
    let wanted_characters = chars_of(wanted);
    if name.len() != wanted_characters.len() {
        return false;
    }
    let mut index: usize = 0;
    while index < name.len()
        invariant
            index <= name.len() == wanted_characters.len(),
            wanted_characters@ == wanted@,
            forall|earlier: int|
                0 <= earlier < index ==> lowered(#[trigger] name@[earlier]) == wanted@[earlier],
        decreases name.len() - index,
    {
        let character = name[index];
        let lower = if 'A' <= character && character <= 'Z' {
            ((character as u32 + 32) as u8) as char
        } else {
            character
        };
        if lower != wanted_characters[index] {
            assert(name@.map_values(|character: char| lowered(character))[index as int]
                != wanted@[index as int]);
            return false;
        }
        index = index + 1;
    }
    assert(name@.map_values(|character: char| lowered(character)) =~= wanted@);
    true
}

} // verus!
