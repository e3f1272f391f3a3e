//! The answer to the yes/no question asked before removing anything.
use vstd::prelude::*;

verus! {

/// The first byte of an answer agrees: an empty answer (just the newline,
/// byte 10), `y` (121) or `Y` (89).
pub open spec fn is_yes(code: u8) -> bool {
    code == 10 || code == 121 || code == 89
}

/// Whether the answer whose first byte is `code` agrees.
pub fn confirms(code: u8) -> (r: bool)
    ensures
        r == is_yes(code),
{
    code == 10 || code == 121 || code == 89
}

} // verus!
