//! SMuFL accidentals (U+E260–U+E262).
use vstd::prelude::*;

verus! {

pub const SHARP: char = '\u{E262}';
pub const FLAT: char = '\u{E260}';
pub const NATURAL: char = '\u{E261}';

} // verus!
