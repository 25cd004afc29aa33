//! Name-to-glyph tables.
use vstd::prelude::*;

use crate::renderer::font::{accidental, dynamics, metro};
use vstd::string::*;

use crate::parser::model::Accidental;
use crate::text::{chars_eq_str, decimal, str_chars};

verus! {

/// The repeat-sign dot.
pub const REPEAT_DOT: char = '\u{E044}';

/// The SMuFL characters that `#icon<name>` stands for (a dotted note value
/// is the note and a dot).
pub open spec fn icon_table(name: Seq<char>) -> Option<Seq<char>> {
    if name == "note_1"@ || name == "whole"@ {
        Some(seq![metro::WHOLE])
    } else if name == "note_2"@ || name == "half"@ {
        Some(seq![metro::HALF])
    } else if name == "note_4"@ || name == "quarter"@ {
        Some(seq![metro::QUARTER])
    } else if name == "note_8"@ || name == "eighth"@ {
        Some(seq![metro::EIGHTH])
    } else if name == "note_16"@ || name == "sixteenth"@ {
        Some(seq![metro::SIXTEENTH])
    } else if name == "note_32"@ || name == "thirtysecond"@ {
        Some(seq![metro::THIRTY_SECOND])
    } else if name == "note_4d"@ || name == "dotted_quarter"@ {
        Some(seq![metro::QUARTER, metro::DOT])
    } else if name == "note_8d"@ || name == "dotted_eighth"@ {
        Some(seq![metro::EIGHTH, metro::DOT])
    } else if name == "note_16d"@ || name == "dotted_sixteenth"@ {
        Some(seq![metro::SIXTEENTH, metro::DOT])
    } else if name == "note_2d"@ || name == "dotted_half"@ {
        Some(seq![metro::HALF, metro::DOT])
    } else if name == "sharp"@ {
        Some(seq![accidental::SHARP])
    } else if name == "flat"@ {
        Some(seq![accidental::FLAT])
    } else if name == "natural"@ || name == "nat"@ {
        Some(seq![accidental::NATURAL])
    } else {
        None
    }
}

pub open spec fn opt_chars(r: Option<&'static [char]>) -> Option<Seq<char>> {
    match r {
        Some(v) => Some(v@),
        None => None,
    }
}

/// The SMuFL characters for an icon name (used by `#icon<name>`).
pub fn icon_chars(name: &Vec<char>) -> (r: Option<&'static [char]>)
    ensures
        opt_chars(r) == icon_table(name@),
{
    if chars_eq_str(name, "note_1") || chars_eq_str(name, "whole") {
        Some(&[metro::WHOLE])
    } else if chars_eq_str(name, "note_2") || chars_eq_str(name, "half") {
        Some(&[metro::HALF])
    } else if chars_eq_str(name, "note_4") || chars_eq_str(name, "quarter") {
        Some(&[metro::QUARTER])
    } else if chars_eq_str(name, "note_8") || chars_eq_str(name, "eighth") {
        Some(&[metro::EIGHTH])
    } else if chars_eq_str(name, "note_16") || chars_eq_str(name, "sixteenth") {
        Some(&[metro::SIXTEENTH])
    } else if chars_eq_str(name, "note_32") || chars_eq_str(name, "thirtysecond") {
        Some(&[metro::THIRTY_SECOND])
    } else if chars_eq_str(name, "note_4d") || chars_eq_str(name, "dotted_quarter") {
        Some(&[metro::QUARTER, metro::DOT])
    } else if chars_eq_str(name, "note_8d") || chars_eq_str(name, "dotted_eighth") {
        Some(&[metro::EIGHTH, metro::DOT])
    } else if chars_eq_str(name, "note_16d") || chars_eq_str(name, "dotted_sixteenth") {
        Some(&[metro::SIXTEENTH, metro::DOT])
    } else if chars_eq_str(name, "note_2d") || chars_eq_str(name, "dotted_half") {
        Some(&[metro::HALF, metro::DOT])
    } else if chars_eq_str(name, "sharp") {
        Some(&[accidental::SHARP])
    } else if chars_eq_str(name, "flat") {
        Some(&[accidental::FLAT])
    } else if chars_eq_str(name, "natural") || chars_eq_str(name, "nat") {
        Some(&[accidental::NATURAL])
    } else {
        None
    }
}

/// Maps an icon name to its SMuFL characters (for `#icon<name>`); a dotted
/// note value gives the note and then the dot.
pub fn icon_to_smufl(name: &str) -> (r: Option<&'static [char]>)
    ensures
        opt_chars(r) == icon_table(name@),
{
    let v = str_chars(name);
    icon_chars(&v)
}

/// `s` equals `t` once ASCII capitals of `s` are lowered.
pub open spec fn lower_eq(s: Seq<char>, t: Seq<char>) -> bool {
    &&& s.len() == t.len()
    &&& forall|i: int|
        0 <= i < s.len() ==> #[trigger] s[i] == t[i] || ('A' <= s[i] && s[i] <= 'Z' && (s[i] as u32)
            + 32 == (t[i] as u32))
}

/// The SMuFL dynamic mark for a dynamic marking, letter case aside.
pub open spec fn dynamics_table(s: Seq<char>) -> Option<char> {
    if lower_eq(s, "pp"@) {
        Some(dynamics::PP)
    } else if lower_eq(s, "p"@) {
        Some(dynamics::P)
    } else if lower_eq(s, "mp"@) {
        Some(dynamics::MP)
    } else if lower_eq(s, "mf"@) {
        Some(dynamics::MF)
    } else if lower_eq(s, "pf"@) {
        Some(dynamics::PF)
    } else if lower_eq(s, "f"@) {
        Some(dynamics::F)
    } else if lower_eq(s, "ff"@) {
        Some(dynamics::FF)
    } else if lower_eq(s, "fff"@) {
        Some(dynamics::FFF)
    } else if lower_eq(s, "ffff"@) {
        Some(dynamics::FFFF)
    } else if lower_eq(s, "fp"@) {
        Some(dynamics::FP)
    } else if lower_eq(s, "fz"@) {
        Some(dynamics::FZ)
    } else if lower_eq(s, "sf"@) {
        Some(dynamics::SF)
    } else if lower_eq(s, "sfp"@) {
        Some(dynamics::SFP)
    } else if lower_eq(s, "sfpp"@) {
        Some(dynamics::SFPP)
    } else if lower_eq(s, "sfz"@) {
        Some(dynamics::SFZ)
    } else if lower_eq(s, "sfzp"@) {
        Some(dynamics::SFZP)
    } else if lower_eq(s, "sffz"@) {
        Some(dynamics::SFFZ)
    } else if lower_eq(s, "rf"@) {
        Some(dynamics::RF)
    } else if lower_eq(s, "rfz"@) {
        Some(dynamics::RFZ)
    } else {
        None
    }
}

fn eq_ignore_case(v: &Vec<char>, t: &str) -> (r: bool)
    ensures
        r == lower_eq(v@, t@),
{
    let n = t.unicode_len();
    if v.len() != n {
        return false;
    }
    let mut i: usize = 0;
    while i < n
        invariant
            n == v@.len(),
            n == t@.len(),
            i <= n,
            forall|j: int|
                0 <= j < i ==> #[trigger] v@[j] == t@[j] || ('A' <= v@[j] && v@[j] <= 'Z' && (v@[j] as u32)
                    + 32 == (t@[j] as u32)),
        decreases n - i,
    {
        let a = v[i];
        let b = t.get_char(i);
        if !(a == b || ('A' <= a && a <= 'Z' && (a as u32) + 32 == (b as u32))) {
            return false;
        }
        i = i + 1;
    }
    true
}

/// Maps a dynamic marking to its SMuFL glyph, ignoring letter case. Every
/// entry of the table is ASCII, so folding ASCII capitals decides the lookup
/// exactly as full Unicode lower-casing would.
pub fn dynamics_char(s: &str) -> (r: Option<char>)
    ensures
        r == dynamics_table(s@),
{
    let v = str_chars(s);
    if eq_ignore_case(&v, "pp") {
        Some(dynamics::PP)
    } else if eq_ignore_case(&v, "p") {
        Some(dynamics::P)
    } else if eq_ignore_case(&v, "mp") {
        Some(dynamics::MP)
    } else if eq_ignore_case(&v, "mf") {
        Some(dynamics::MF)
    } else if eq_ignore_case(&v, "pf") {
        Some(dynamics::PF)
    } else if eq_ignore_case(&v, "f") {
        Some(dynamics::F)
    } else if eq_ignore_case(&v, "ff") {
        Some(dynamics::FF)
    } else if eq_ignore_case(&v, "fff") {
        Some(dynamics::FFF)
    } else if eq_ignore_case(&v, "ffff") {
        Some(dynamics::FFFF)
    } else if eq_ignore_case(&v, "fp") {
        Some(dynamics::FP)
    } else if eq_ignore_case(&v, "fz") {
        Some(dynamics::FZ)
    } else if eq_ignore_case(&v, "sf") {
        Some(dynamics::SF)
    } else if eq_ignore_case(&v, "sfp") {
        Some(dynamics::SFP)
    } else if eq_ignore_case(&v, "sfpp") {
        Some(dynamics::SFPP)
    } else if eq_ignore_case(&v, "sfz") {
        Some(dynamics::SFZ)
    } else if eq_ignore_case(&v, "sfzp") {
        Some(dynamics::SFZP)
    } else if eq_ignore_case(&v, "sffz") {
        Some(dynamics::SFFZ)
    } else if eq_ignore_case(&v, "rf") {
        Some(dynamics::RF)
    } else if eq_ignore_case(&v, "rfz") {
        Some(dynamics::RFZ)
    } else {
        None
    }
}

/// Character class, which decides the text font.
#[derive(Debug, Clone, Copy, PartialEq, Eq, Structural)]
pub enum CharClass {
    /// Inside ASCII (letters, digits, punctuation).
    Ascii,
    /// Outside ASCII (mostly CJK).
    NonAscii,
}

pub fn char_class(c: char) -> (r: CharClass)
    ensures
        r == (if (c as u32) < 0x80 {
            CharClass::Ascii
        } else {
            CharClass::NonAscii
        }),
{
    if (c as u32) < 0x80 {
        CharClass::Ascii
    } else {
        CharClass::NonAscii
    }
}


// ------------------------------------------------------------------
// What the tables mean
// ------------------------------------------------------------------

/// The dynamic marking that SMuFL draws with glyph `c` (its dynamics range,
/// U+E520 to U+E53D), for the glyphs the dynamics table uses.
pub open spec fn dynamics_mark(c: char) -> Option<Seq<char>> {
    let u = c as u32;
    if u == 0xE520 {
        Some("p"@)
    } else if u == 0xE522 {
        Some("f"@)
    } else if u == 0xE52B {
        Some("pp"@)
    } else if u == 0xE52C {
        Some("mp"@)
    } else if u == 0xE52D {
        Some("mf"@)
    } else if u == 0xE52E {
        Some("pf"@)
    } else if u == 0xE52F {
        Some("ff"@)
    } else if u == 0xE530 {
        Some("fff"@)
    } else if u == 0xE531 {
        Some("ffff"@)
    } else if u == 0xE534 {
        Some("fp"@)
    } else if u == 0xE535 {
        Some("fz"@)
    } else if u == 0xE536 {
        Some("sf"@)
    } else if u == 0xE537 {
        Some("sfp"@)
    } else if u == 0xE538 {
        Some("sfpp"@)
    } else if u == 0xE539 {
        Some("sfz"@)
    } else if u == 0xE53A {
        Some("sfzp"@)
    } else if u == 0xE53B {
        Some("sffz"@)
    } else if u == 0xE53C {
        Some("rf"@)
    } else if u == 0xE53D {
        Some("rfz"@)
    } else {
        None
    }
}

/// A dynamic marking is drawn with the SMuFL glyph of that very marking:
/// reading the marking back from the glyph gives the marking written, in
/// lower case. So distinct markings get distinct glyphs.
pub proof fn lemma_dynamics_read_back(s: Seq<char>)
    ensures
        dynamics_table(s) matches Some(c) ==> dynamics_mark(c) matches Some(m) && lower_eq(s, m),
{
}

/// Two markings drawn with one glyph are one marking, letter case aside.
pub proof fn lemma_dynamics_distinct(s: Seq<char>, t: Seq<char>)
    requires
        dynamics_table(s) is Some,
        dynamics_table(s) == dynamics_table(t),
    ensures
        exists|m: Seq<char>| lower_eq(s, m) && lower_eq(t, m),
{
    lemma_dynamics_read_back(s);
    lemma_dynamics_read_back(t);
    let m = dynamics_mark(dynamics_table(s)->0)->0;
    assert(lower_eq(s, m) && lower_eq(t, m));
}

/// Only lower-case ASCII letters.
pub open spec fn lowercase(t: Seq<char>) -> bool {
    forall|i: int| 0 <= i < t.len() ==> 'a' <= #[trigger] t[i] && t[i] <= 'z'
}

/// A text matches at most one lower-case word, letter case aside.
proof fn lemma_lower_eq_unique(s: Seq<char>, t: Seq<char>, u: Seq<char>)
    requires
        lower_eq(s, t),
        lower_eq(s, u),
        lowercase(t),
        lowercase(u),
    ensures
        t == u,
{
    assert forall|i: int| 0 <= i < t.len() implies t[i] == u[i] by {
        assert(s[i] == t[i] || ('A' <= s[i] && s[i] <= 'Z' && (s[i] as u32) + 32 == (t[i] as u32)));
        assert(s[i] == u[i] || ('A' <= s[i] && s[i] <= 'Z' && (s[i] as u32) + 32 == (u[i] as u32)));
        assert('a' <= t[i] && t[i] <= 'z');
        assert('a' <= u[i] && u[i] <= 'z');
    }
    assert(t =~= u);
}

/// Every marking that SMuFL has a dynamics glyph for is recognised, in any
/// letter case, and drawn with that glyph.
pub proof fn lemma_dynamics_recognised(c: char, s: Seq<char>)
    requires
        dynamics_mark(c) matches Some(m) && lower_eq(s, m),
    ensures
        dynamics_table(s) == Some(c),
{
    reveal_strlit("pp");
    assert("pp"@.len() == 2 && "pp"@[0] == 'p' && "pp"@[1] == 'p');
    reveal_strlit("p");
    assert("p"@.len() == 1 && "p"@[0] == 'p');
    reveal_strlit("mp");
    assert("mp"@.len() == 2 && "mp"@[0] == 'm' && "mp"@[1] == 'p');
    reveal_strlit("mf");
    assert("mf"@.len() == 2 && "mf"@[0] == 'm' && "mf"@[1] == 'f');
    reveal_strlit("pf");
    assert("pf"@.len() == 2 && "pf"@[0] == 'p' && "pf"@[1] == 'f');
    reveal_strlit("f");
    assert("f"@.len() == 1 && "f"@[0] == 'f');
    reveal_strlit("ff");
    assert("ff"@.len() == 2 && "ff"@[0] == 'f' && "ff"@[1] == 'f');
    reveal_strlit("fff");
    assert("fff"@.len() == 3 && "fff"@[0] == 'f' && "fff"@[1] == 'f' && "fff"@[2] == 'f');
    reveal_strlit("ffff");
    assert("ffff"@.len() == 4 && "ffff"@[0] == 'f' && "ffff"@[1] == 'f' && "ffff"@[2] == 'f' && "ffff"@[3] == 'f');
    reveal_strlit("fp");
    assert("fp"@.len() == 2 && "fp"@[0] == 'f' && "fp"@[1] == 'p');
    reveal_strlit("fz");
    assert("fz"@.len() == 2 && "fz"@[0] == 'f' && "fz"@[1] == 'z');
    reveal_strlit("sf");
    assert("sf"@.len() == 2 && "sf"@[0] == 's' && "sf"@[1] == 'f');
    reveal_strlit("sfp");
    assert("sfp"@.len() == 3 && "sfp"@[0] == 's' && "sfp"@[1] == 'f' && "sfp"@[2] == 'p');
    reveal_strlit("sfpp");
    assert("sfpp"@.len() == 4 && "sfpp"@[0] == 's' && "sfpp"@[1] == 'f' && "sfpp"@[2] == 'p' && "sfpp"@[3] == 'p');
    reveal_strlit("sfz");
    assert("sfz"@.len() == 3 && "sfz"@[0] == 's' && "sfz"@[1] == 'f' && "sfz"@[2] == 'z');
    reveal_strlit("sfzp");
    assert("sfzp"@.len() == 4 && "sfzp"@[0] == 's' && "sfzp"@[1] == 'f' && "sfzp"@[2] == 'z' && "sfzp"@[3] == 'p');
    reveal_strlit("sffz");
    assert("sffz"@.len() == 4 && "sffz"@[0] == 's' && "sffz"@[1] == 'f' && "sffz"@[2] == 'f' && "sffz"@[3] == 'z');
    reveal_strlit("rf");
    assert("rf"@.len() == 2 && "rf"@[0] == 'r' && "rf"@[1] == 'f');
    reveal_strlit("rfz");
    assert("rfz"@.len() == 3 && "rfz"@[0] == 'r' && "rfz"@[1] == 'f' && "rfz"@[2] == 'z');
    let m = dynamics_mark(c)->0;
    assert(lowercase(m));
    if lower_eq(s, "pp"@) {
        assert(lowercase("pp"@));
        lemma_lower_eq_unique(s, "pp"@, m);
    }
    if lower_eq(s, "p"@) {
        assert(lowercase("p"@));
        lemma_lower_eq_unique(s, "p"@, m);
    }
    if lower_eq(s, "mp"@) {
        assert(lowercase("mp"@));
        lemma_lower_eq_unique(s, "mp"@, m);
    }
    if lower_eq(s, "mf"@) {
        assert(lowercase("mf"@));
        lemma_lower_eq_unique(s, "mf"@, m);
    }
    if lower_eq(s, "pf"@) {
        assert(lowercase("pf"@));
        lemma_lower_eq_unique(s, "pf"@, m);
    }
    if lower_eq(s, "f"@) {
        assert(lowercase("f"@));
        lemma_lower_eq_unique(s, "f"@, m);
    }
    if lower_eq(s, "ff"@) {
        assert(lowercase("ff"@));
        lemma_lower_eq_unique(s, "ff"@, m);
    }
    if lower_eq(s, "fff"@) {
        assert(lowercase("fff"@));
        lemma_lower_eq_unique(s, "fff"@, m);
    }
    if lower_eq(s, "ffff"@) {
        assert(lowercase("ffff"@));
        lemma_lower_eq_unique(s, "ffff"@, m);
    }
    if lower_eq(s, "fp"@) {
        assert(lowercase("fp"@));
        lemma_lower_eq_unique(s, "fp"@, m);
    }
    if lower_eq(s, "fz"@) {
        assert(lowercase("fz"@));
        lemma_lower_eq_unique(s, "fz"@, m);
    }
    if lower_eq(s, "sf"@) {
        assert(lowercase("sf"@));
        lemma_lower_eq_unique(s, "sf"@, m);
    }
    if lower_eq(s, "sfp"@) {
        assert(lowercase("sfp"@));
        lemma_lower_eq_unique(s, "sfp"@, m);
    }
    if lower_eq(s, "sfpp"@) {
        assert(lowercase("sfpp"@));
        lemma_lower_eq_unique(s, "sfpp"@, m);
    }
    if lower_eq(s, "sfz"@) {
        assert(lowercase("sfz"@));
        lemma_lower_eq_unique(s, "sfz"@, m);
    }
    if lower_eq(s, "sfzp"@) {
        assert(lowercase("sfzp"@));
        lemma_lower_eq_unique(s, "sfzp"@, m);
    }
    if lower_eq(s, "sffz"@) {
        assert(lowercase("sffz"@));
        lemma_lower_eq_unique(s, "sffz"@, m);
    }
    if lower_eq(s, "rf"@) {
        assert(lowercase("rf"@));
        lemma_lower_eq_unique(s, "rf"@, m);
    }
    if lower_eq(s, "rfz"@) {
        assert(lowercase("rfz"@));
        lemma_lower_eq_unique(s, "rfz"@, m);
    }
}

/// The denominator of the note value `1 / 2^k`.
pub open spec fn denominator(k: nat) -> nat
    decreases k,
{
    if k == 0 {
        1
    } else {
        2 * denominator((k - 1) as nat)
    }
}

/// SMuFL's metronome glyph (stem up) for the note value `1 / 2^k`: U+ECA2 for
/// a whole note, then U+ECA3, U+ECA5, ... two apart.
pub open spec fn metronome_note(k: nat) -> char {
    if k == 0 {
        '\u{ECA2}'
    } else {
        (0xECA1 + 2 * k) as char
    }
}

/// SMuFL's metronome augmentation dot.
pub open spec fn metronome_dot() -> char {
    '\u{ECB7}'
}

/// What the table gives for each icon name.
proof fn lemma_icon_entries()
    ensures
        icon_table("note_1"@) == Some(seq![metro::WHOLE]),
        icon_table("whole"@) == Some(seq![metro::WHOLE]),
        icon_table("note_2"@) == Some(seq![metro::HALF]),
        icon_table("half"@) == Some(seq![metro::HALF]),
        icon_table("note_4"@) == Some(seq![metro::QUARTER]),
        icon_table("quarter"@) == Some(seq![metro::QUARTER]),
        icon_table("note_8"@) == Some(seq![metro::EIGHTH]),
        icon_table("eighth"@) == Some(seq![metro::EIGHTH]),
        icon_table("note_16"@) == Some(seq![metro::SIXTEENTH]),
        icon_table("sixteenth"@) == Some(seq![metro::SIXTEENTH]),
        icon_table("note_32"@) == Some(seq![metro::THIRTY_SECOND]),
        icon_table("thirtysecond"@) == Some(seq![metro::THIRTY_SECOND]),
        icon_table("note_4d"@) == Some(seq![metro::QUARTER, metro::DOT]),
        icon_table("dotted_quarter"@) == Some(seq![metro::QUARTER, metro::DOT]),
        icon_table("note_8d"@) == Some(seq![metro::EIGHTH, metro::DOT]),
        icon_table("dotted_eighth"@) == Some(seq![metro::EIGHTH, metro::DOT]),
        icon_table("note_16d"@) == Some(seq![metro::SIXTEENTH, metro::DOT]),
        icon_table("dotted_sixteenth"@) == Some(seq![metro::SIXTEENTH, metro::DOT]),
        icon_table("note_2d"@) == Some(seq![metro::HALF, metro::DOT]),
        icon_table("dotted_half"@) == Some(seq![metro::HALF, metro::DOT]),
        icon_table("natural"@) == Some(seq![accidental::NATURAL]),
        icon_table("nat"@) == Some(seq![accidental::NATURAL]),
        icon_table("sharp"@) == Some(seq![accidental::SHARP]),
        icon_table("flat"@) == Some(seq![accidental::FLAT]),
{
    reveal_strlit("note_1");
    reveal_strlit("note_2");
    reveal_strlit("note_4");
    reveal_strlit("note_8");
    reveal_strlit("note_16");
    reveal_strlit("note_32");
    reveal_strlit("note_4d");
    reveal_strlit("note_8d");
    reveal_strlit("note_16d");
    reveal_strlit("note_2d");
    reveal_strlit("whole");
    reveal_strlit("half");
    reveal_strlit("quarter");
    reveal_strlit("eighth");
    reveal_strlit("sixteenth");
    reveal_strlit("thirtysecond");
    reveal_strlit("dotted_quarter");
    reveal_strlit("dotted_eighth");
    reveal_strlit("dotted_sixteenth");
    reveal_strlit("dotted_half");
    reveal_strlit("sharp");
    reveal_strlit("flat");
    reveal_strlit("natural");
    reveal_strlit("nat");
    reveal_strlit("note_");
    reveal_strlit("d");
    assert("note_1"@.len() == 6 && "note_1"@[0] == 'n' && "note_1"@[5] == '1');
    assert("whole"@.len() == 5 && "whole"@[0] == 'w');
    assert("note_2"@.len() == 6 && "note_2"@[0] == 'n' && "note_2"@[5] == '2');
    assert("half"@.len() == 4 && "half"@[0] == 'h');
    assert("note_4"@.len() == 6 && "note_4"@[0] == 'n' && "note_4"@[5] == '4');
    assert("quarter"@.len() == 7 && "quarter"@[0] == 'q' && "quarter"@[5] == 'e');
    assert("note_8"@.len() == 6 && "note_8"@[0] == 'n' && "note_8"@[5] == '8');
    assert("eighth"@.len() == 6 && "eighth"@[0] == 'e' && "eighth"@[5] == 'h');
    assert("note_16"@.len() == 7 && "note_16"@[0] == 'n' && "note_16"@[5] == '1');
    assert("sixteenth"@.len() == 9 && "sixteenth"@[0] == 's' && "sixteenth"@[5] == 'e');
    assert("note_32"@.len() == 7 && "note_32"@[0] == 'n' && "note_32"@[5] == '3');
    assert("thirtysecond"@.len() == 12 && "thirtysecond"@[0] == 't' && "thirtysecond"@[5] == 'y');
    assert("note_4d"@.len() == 7 && "note_4d"@[0] == 'n' && "note_4d"@[5] == '4');
    assert("dotted_quarter"@.len() == 14 && "dotted_quarter"@[0] == 'd' && "dotted_quarter"@[5] == 'd');
    assert("note_8d"@.len() == 7 && "note_8d"@[0] == 'n' && "note_8d"@[5] == '8');
    assert("dotted_eighth"@.len() == 13 && "dotted_eighth"@[0] == 'd' && "dotted_eighth"@[5] == 'd');
    assert("note_16d"@.len() == 8 && "note_16d"@[0] == 'n' && "note_16d"@[5] == '1');
    assert("dotted_sixteenth"@.len() == 16 && "dotted_sixteenth"@[0] == 'd' && "dotted_sixteenth"@[5] == 'd');
    assert("note_2d"@.len() == 7 && "note_2d"@[0] == 'n' && "note_2d"@[5] == '2');
    assert("dotted_half"@.len() == 11 && "dotted_half"@[0] == 'd' && "dotted_half"@[5] == 'd');
    assert("sharp"@.len() == 5 && "sharp"@[0] == 's');
    assert("flat"@.len() == 4 && "flat"@[0] == 'f');
    assert("natural"@.len() == 7 && "natural"@[0] == 'n' && "natural"@[5] == 'a');
    assert("nat"@.len() == 3 && "nat"@[0] == 'n');
    assert(icon_table("note_1"@) == Some(seq![metro::WHOLE]));
    assert(icon_table("whole"@) == Some(seq![metro::WHOLE]));
    assert(icon_table("note_2"@) == Some(seq![metro::HALF]));
    assert(icon_table("half"@) == Some(seq![metro::HALF]));
    assert(icon_table("note_4"@) == Some(seq![metro::QUARTER]));
    assert(icon_table("quarter"@) == Some(seq![metro::QUARTER]));
    assert(icon_table("note_8"@) == Some(seq![metro::EIGHTH]));
    assert(icon_table("eighth"@) == Some(seq![metro::EIGHTH]));
    assert(icon_table("note_16"@) == Some(seq![metro::SIXTEENTH]));
    assert(icon_table("sixteenth"@) == Some(seq![metro::SIXTEENTH]));
    assert(icon_table("note_32"@) == Some(seq![metro::THIRTY_SECOND]));
    assert(icon_table("thirtysecond"@) == Some(seq![metro::THIRTY_SECOND]));
    assert(icon_table("note_4d"@) == Some(seq![metro::QUARTER, metro::DOT]));
    assert(icon_table("dotted_quarter"@) == Some(seq![metro::QUARTER, metro::DOT]));
    assert(icon_table("note_8d"@) == Some(seq![metro::EIGHTH, metro::DOT]));
    assert(icon_table("dotted_eighth"@) == Some(seq![metro::EIGHTH, metro::DOT]));
    assert(icon_table("note_16d"@) == Some(seq![metro::SIXTEENTH, metro::DOT]));
    assert(icon_table("dotted_sixteenth"@) == Some(seq![metro::SIXTEENTH, metro::DOT]));
    assert(icon_table("note_2d"@) == Some(seq![metro::HALF, metro::DOT]));
    assert(icon_table("dotted_half"@) == Some(seq![metro::HALF, metro::DOT]));
    assert(icon_table("natural"@) == Some(seq![accidental::NATURAL]));
    assert(icon_table("nat"@) == Some(seq![accidental::NATURAL]));
    assert(icon_table("sharp"@) == Some(seq![accidental::SHARP]));
    assert(icon_table("flat"@) == Some(seq![accidental::FLAT]));
}

/// `note_N` for `N = 2^k`, as written in a tempo mark.
pub open spec fn note_icon_name(k: nat) -> Seq<char> {
    "note_"@ + decimal(denominator(k))
}

proof fn lemma_note_icon_name(k: nat)
    requires
        k <= 5,
    ensures
        k == 0 ==> note_icon_name(k) == "note_1"@,
        k == 1 ==> note_icon_name(k) == "note_2"@,
        k == 2 ==> note_icon_name(k) == "note_4"@,
        k == 3 ==> note_icon_name(k) == "note_8"@,
        k == 4 ==> note_icon_name(k) == "note_16"@,
        k == 5 ==> note_icon_name(k) == "note_32"@,
{
    reveal_strlit("note_");
    reveal_strlit("note_1");
    reveal_strlit("note_2");
    reveal_strlit("note_4");
    reveal_strlit("note_8");
    reveal_strlit("note_16");
    reveal_strlit("note_32");
    reveal_with_fuel(denominator, 6);
    assert(denominator(0) == 1);
    assert(denominator(5) == 32);
    assert(1int as char == '\u{1}');
    if k == 0 {
        assert(decimal(1) == seq!['1']);
        assert(note_icon_name(k) =~= "note_1"@);
    } else if k == 1 {
        assert(decimal(2) == seq!['2']);
        assert(note_icon_name(k) =~= "note_2"@);
    } else if k == 2 {
        assert(decimal(4) == seq!['4']);
        assert(note_icon_name(k) =~= "note_4"@);
    } else if k == 3 {
        assert(decimal(8) == seq!['8']);
        assert(note_icon_name(k) =~= "note_8"@);
    } else if k == 4 {
        assert(decimal(1) == seq!['1']);
        assert(decimal(16) =~= seq!['1', '6']);
        assert(note_icon_name(k) =~= "note_16"@);
    } else {
        assert(decimal(3) == seq!['3']);
        assert(decimal(32) =~= seq!['3', '2']);
        assert(note_icon_name(k) =~= "note_32"@);
    }
}

/// `#icon<note_N>` for the note value `1/N`, `N = 2^k` from a whole note to a
/// thirty-second, is SMuFL's metronome glyph of that very value, and the
/// dotted `note_Nd`, from a half to a sixteenth, is that glyph and the dot.
pub proof fn lemma_icon_note_values(k: nat)
    requires
        k <= 5,
    ensures
        icon_table(note_icon_name(k)) == Some(seq![metronome_note(k)]),
        1 <= k <= 4 ==> icon_table(note_icon_name(k) + "d"@) == Some(
            seq![metronome_note(k), metronome_dot()],
        ),
{
    lemma_icon_entries();
    lemma_note_icon_name(k);
    reveal_strlit("d");
    reveal_strlit("note_2");
    reveal_strlit("note_4");
    reveal_strlit("note_8");
    reveal_strlit("note_16");
    reveal_strlit("note_2d");
    reveal_strlit("note_4d");
    reveal_strlit("note_8d");
    reveal_strlit("note_16d");
    if k == 1 {
        assert(note_icon_name(k) + "d"@ =~= "note_2d"@);
    } else if k == 2 {
        assert(note_icon_name(k) + "d"@ =~= "note_4d"@);
    } else if k == 3 {
        assert(note_icon_name(k) + "d"@ =~= "note_8d"@);
    } else if k == 4 {
        assert(note_icon_name(k) + "d"@ =~= "note_16d"@);
    }
}

/// The English names of the note values draw what the `note_N` names draw.
pub proof fn lemma_icon_aliases()
    ensures
        icon_table("whole"@) == icon_table("note_1"@),
        icon_table("half"@) == icon_table("note_2"@),
        icon_table("quarter"@) == icon_table("note_4"@),
        icon_table("eighth"@) == icon_table("note_8"@),
        icon_table("sixteenth"@) == icon_table("note_16"@),
        icon_table("thirtysecond"@) == icon_table("note_32"@),
        icon_table("dotted_half"@) == icon_table("note_2d"@),
        icon_table("dotted_quarter"@) == icon_table("note_4d"@),
        icon_table("dotted_eighth"@) == icon_table("note_8d"@),
        icon_table("dotted_sixteenth"@) == icon_table("note_16d"@),
        icon_table("nat"@) == icon_table("natural"@),
{
    lemma_icon_entries();
}

/// SMuFL's glyph for an accidental: flat U+E260, natural U+E261, sharp
/// U+E262.
pub open spec fn accidental_glyph(a: Accidental) -> char {
    match a {
        Accidental::Flat => '\u{E260}',
        Accidental::Natural => '\u{E261}',
        Accidental::Sharp => '\u{E262}',
    }
}

/// The icon name of an accidental, as the accidental controls spell it.
pub open spec fn accidental_icon_name(a: Accidental) -> Seq<char> {
    match a {
        Accidental::Flat => "flat"@,
        Accidental::Natural => "natural"@,
        Accidental::Sharp => "sharp"@,
    }
}

/// `#icon<sharp>`, `#icon<flat>` and `#icon<natural>` draw SMuFL's glyph of
/// that very accidental.
pub proof fn lemma_icon_accidentals(a: Accidental)
    ensures
        icon_table(accidental_icon_name(a)) == Some(seq![accidental_glyph(a)]),
{
    lemma_icon_entries();
}

} // verus!
