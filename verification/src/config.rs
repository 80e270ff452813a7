//! Configuration handed down by the caller.

use vstd::prelude::*;

verus! {

/// The synthesis core reads a single flag: whether non-ASCII scalars are
/// rendered as escape sequences, which affects how many characters a
/// grapheme counts as.
pub struct RegExpConfig {
    pub is_non_ascii_char_escaped: bool,
}

impl RegExpConfig {
    pub fn new() -> (r: RegExpConfig)
        ensures
            !r.is_non_ascii_char_escaped,
    {
        RegExpConfig { is_non_ascii_char_escaped: false }
    }
}

} // verus!
