//! Glyph tables of the music font (SMuFL code points), the character
//! classes that choose a text font, and reading a font face from its bytes.
pub mod accidental;
pub mod dynamics;
pub mod face;
pub mod metro;
pub mod table;
pub mod time_sig;

pub use table::{char_class, dynamics_char, icon_to_smufl, CharClass, REPEAT_DOT};
