//! SMuFL time-signature digits 0–9 (from U+E080).
use vstd::prelude::*;

use crate::text::{char_from_u32, is_scalar_value};

verus! {

/// The time-signature glyph for `n`.
pub open spec fn glyph(n: u8) -> char {
    ((0xE080 + n as u32) as u32) as char
}

/// The time-signature glyph for `n`: U+E080 plus `n`.
pub fn digit(n: u8) -> (c: char)
    ensures
        c as u32 == 0xE080 + n as u32,
        c == glyph(n),
{
    let v: u32 = 0xE080 + n as u32;
    match char_from_u32(v) {
        Some(c) => c,
        None => {
            proof {
                assert(is_scalar_value(v));
            }
            '\u{E080}'
        },
    }
}

} // verus!
