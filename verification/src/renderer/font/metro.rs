//! SMuFL metronome marks (U+ECA0–U+ECBF), meant for inline text such as the
//! note value in a tempo mark.
use vstd::prelude::*;

verus! {

pub const WHOLE: char = '\u{ECA2}';
pub const HALF: char = '\u{ECA3}';
pub const QUARTER: char = '\u{ECA5}';
pub const EIGHTH: char = '\u{ECA7}';
pub const SIXTEENTH: char = '\u{ECA9}';
pub const THIRTY_SECOND: char = '\u{ECAB}';
pub const DOT: char = '\u{ECB7}';

} // verus!
