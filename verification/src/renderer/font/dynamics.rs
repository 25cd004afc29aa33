//! SMuFL dynamics (U+E520–U+E54F): single letters at U+E520–U+E526, combined
//! marks at U+E527–U+E53D.
use vstd::prelude::*;

verus! {

pub const P: char = '\u{E520}';
pub const M: char = '\u{E521}';
pub const F: char = '\u{E522}';
pub const R: char = '\u{E523}';
pub const S: char = '\u{E524}';
pub const Z: char = '\u{E525}';
pub const N: char = '\u{E526}';
pub const PP: char = '\u{E52B}';
pub const MP: char = '\u{E52C}';
pub const MF: char = '\u{E52D}';
pub const PF: char = '\u{E52E}';
pub const FF: char = '\u{E52F}';
pub const FFF: char = '\u{E530}';
pub const FFFF: char = '\u{E531}';
pub const FP: char = '\u{E534}';
pub const FZ: char = '\u{E535}';
pub const SF: char = '\u{E536}';
pub const SFP: char = '\u{E537}';
pub const SFPP: char = '\u{E538}';
pub const SFZ: char = '\u{E539}';
pub const SFZP: char = '\u{E53A}';
pub const SFFZ: char = '\u{E53B}';
pub const RF: char = '\u{E53C}';
pub const RFZ: char = '\u{E53D}';

} // verus!
