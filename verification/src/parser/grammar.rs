//! The score grammar: a PEG over the characters of a score, stated as spec
//! functions, and the recursive-descent parser that follows it.
//!
//! ```text
//! file      = WS* (item WS*)* EOI
//! item      = barline | "-" | control | bracket | tie | chord
//!           | note(loose) | octave | "."
//! barline   = "|||" | "||:" | "||" | "|" | ":||"
//! note      = DIGIT octave? "."?          (loose: WS* allowed before octave and dot)
//! octave    = "^" (("+" | "-" | "=") DIGIT*)?
//! control   = "#" ALPHA (ALNUM | "_")* ("<" param ">")?
//! param     = (WS | item | any char but ">")*
//! bracket   = "[" elem* "]"      tie = "(" elem* ")"
//! elem      = WS | note(tight) | bracket | control | "." | chord | tie
//! chord     = "{" celem* "}"     celem = WS | note(tight) | chord | "."
//! ```
use vstd::prelude::*;

use crate::parser::model::BarlineType;
use crate::text::{copy_range, trim, trimmed_range};

verus! {

// ------------------------------------------------------------------
// Syntax trees
// ------------------------------------------------------------------

/// A node of the syntax tree that the parser builds.
#[derive(Debug)]
pub enum Syntax {
    Note { pitch: u8, octave: i8, dotted: bool },
    Chord(Vec<Syntax>),
    Bracket(Vec<Syntax>),
    Tie(Vec<Syntax>),
    /// `name` and the trimmed parameter text; `param` holds the items parsed
    /// inside the parameter.
    Control { name: Vec<char>, value: Vec<char>, param: Vec<Syntax> },
    Barline(BarlineType),
    Extend,
    /// An octave mark that follows no note.
    OctaveChange,
    /// White space inside a bracket, a tie or a chord.
    Space,
    /// A dot that belongs to no note.
    Dot,
}

/// The mathematical value of a syntax node.
pub enum Tree {
    Note { pitch: u8, octave: i8, dotted: bool },
    Chord(Seq<Tree>),
    Bracket(Seq<Tree>),
    Tie(Seq<Tree>),
    Control { name: Seq<char>, value: Seq<char>, param: Seq<Tree> },
    Barline(BarlineType),
    Extend,
    OctaveChange,
    Space,
    Dot,
}

pub open spec fn tree_of(x: Syntax) -> Tree
    decreases x,
{
    match x {
        Syntax::Note { pitch, octave, dotted } => Tree::Note { pitch, octave, dotted },
        Syntax::Chord(v) => Tree::Chord(trees_of(v@)),
        Syntax::Bracket(v) => Tree::Bracket(trees_of(v@)),
        Syntax::Tie(v) => Tree::Tie(trees_of(v@)),
        Syntax::Control { name, value, param } => Tree::Control {
            name: name@,
            value: value@,
            param: trees_of(param@),
        },
        Syntax::Barline(b) => Tree::Barline(b),
        Syntax::Extend => Tree::Extend,
        Syntax::OctaveChange => Tree::OctaveChange,
        Syntax::Space => Tree::Space,
        Syntax::Dot => Tree::Dot,
    }
}

pub open spec fn trees_of(s: Seq<Syntax>) -> Seq<Tree>
    decreases s,
{
    Seq::new(s.len(), |i: int| if 0 <= i < s.len() { tree_of(s[i]) } else { Tree::Dot })
}

impl View for Syntax {
    type V = Tree;

    open spec fn view(&self) -> Tree {
        tree_of(*self)
    }
}

pub open spec fn opt_tree(r: Option<(Syntax, usize)>) -> Option<(Tree, int)> {
    match r {
        Some((t, q)) => Some((tree_of(t), q as int)),
        None => None,
    }
}

// ------------------------------------------------------------------
// Character classes and spans
// ------------------------------------------------------------------

/// Character classes that the grammar scans over.
pub enum Class {
    Space,
    Digit,
    Ident,
}

pub open spec fn is_ws(c: char) -> bool {
    c == ' ' || c == '\t' || c == '\r' || c == '\n'
}

pub open spec fn is_digit(c: char) -> bool {
    '0' <= c && c <= '9'
}

pub open spec fn is_alpha(c: char) -> bool {
    ('a' <= c && c <= 'z') || ('A' <= c && c <= 'Z')
}

pub open spec fn in_class(c: char, k: Class) -> bool {
    match k {
        Class::Space => is_ws(c),
        Class::Digit => is_digit(c),
        Class::Ident => is_alpha(c) || is_digit(c) || c == '_',
    }
}

pub open spec fn char_at(s: Seq<char>, i: int, c: char) -> bool {
    0 <= i < s.len() && s[i] == c
}

/// The end of the run of class-`k` characters that starts at `p`.
pub open spec fn span_end(s: Seq<char>, p: int, k: Class) -> int
    decreases s.len() - p,
{
    if 0 <= p < s.len() && in_class(s[p], k) {
        span_end(s, p + 1, k)
    } else {
        p
    }
}

pub proof fn lemma_span_end(s: Seq<char>, p: int, k: Class)
    requires
        0 <= p <= s.len(),
    ensures
        p <= span_end(s, p, k) <= s.len(),
    decreases s.len() - p,
{
    if 0 <= p < s.len() && in_class(s[p], k) {
        lemma_span_end(s, p + 1, k);
    }
}

fn class_has(c: char, k: &Class) -> (r: bool)
    ensures
        r == in_class(c, *k),
{
    match k {
        Class::Space => c == ' ' || c == '\t' || c == '\r' || c == '\n',
        Class::Digit => '0' <= c && c <= '9',
        Class::Ident => ('a' <= c && c <= 'z') || ('A' <= c && c <= 'Z') || ('0' <= c && c <= '9')
            || c == '_',
    }
}

fn scan(s: &Vec<char>, p: usize, k: Class) -> (r: usize)
    requires
        p <= s@.len(),
    ensures
        r as int == span_end(s@, p as int, k),
        p <= r <= s@.len(),
{
    let mut i = p;
    while i < s.len() && class_has(s[i], &k)
        invariant
            p <= i <= s@.len(),
            span_end(s@, p as int, k) == span_end(s@, i as int, k),
        decreases s@.len() - i,
    {
        i = i + 1;
    }
    i
}

fn at(s: &Vec<char>, i: usize, c: char) -> (r: bool)
    ensures
        r == char_at(s@, i as int, c),
{
    i < s.len() && s[i] == c
}

// ------------------------------------------------------------------
// Octave marks and notes
// ------------------------------------------------------------------

/// The value of a string of decimal digits.
pub open spec fn digits_value(d: Seq<char>) -> nat
    decreases d.len(),
{
    if d.len() == 0 {
        0
    } else {
        digits_value(d.drop_last()) * 10 + (d.last() as nat - 48) as nat
    }
}

/// The count of an octave mark: 1 without digits, and the digits' value when
/// it fits an `i8`, else 1.
pub open spec fn octave_count(d: Seq<char>) -> i8 {
    if d.len() == 0 {
        1
    } else if digits_value(d) <= 127 {
        digits_value(d) as i8
    } else {
        1
    }
}

/// The octave shift of `^` followed by `sign` and digits `d`.
pub open spec fn octave_of(sign: char, d: Seq<char>) -> i8 {
    if sign == '-' {
        (-(octave_count(d) as int)) as i8
    } else {
        octave_count(d)
    }
}

/// `octave = "^" (("+" | "-" | "=") DIGIT*)?`: its shift and its end.
pub open spec fn parse_octave(s: Seq<char>, p: int) -> Option<(i8, int)> {
    if char_at(s, p, '^') {
        if 0 <= p + 1 < s.len() && (s[p + 1] == '+' || s[p + 1] == '-' || s[p + 1] == '=') {
            let e = span_end(s, p + 2, Class::Digit);
            Some((octave_of(s[p + 1], s.subrange(p + 2, e)), e))
        } else {
            Some((1i8, p + 1))
        }
    } else {
        None
    }
}

/// `note = DIGIT octave? "."?`; a loose note admits white space before the
/// octave mark and before the dot.
pub open spec fn parse_note(s: Seq<char>, p: int, loose: bool) -> Option<(Tree, int)> {
    if 0 <= p < s.len() && is_digit(s[p]) {
        let pitch = (s[p] as int - 48) as u8;
        let q = if loose {
            span_end(s, p + 1, Class::Space)
        } else {
            p + 1
        };
        let (octave, q2) = match parse_octave(s, q) {
            Some((o, e)) => (o, e),
            None => (0i8, p + 1),
        };
        let r = if loose {
            span_end(s, q2, Class::Space)
        } else {
            q2
        };
        if char_at(s, r, '.') {
            Some((Tree::Note { pitch, octave, dotted: true }, r + 1))
        } else {
            Some((Tree::Note { pitch, octave, dotted: false }, q2))
        }
    } else {
        None
    }
}

pub open spec fn parse_barline(s: Seq<char>, p: int) -> Option<(BarlineType, int)> {
    if char_at(s, p, '|') {
        if char_at(s, p + 1, '|') {
            if char_at(s, p + 2, '|') {
                Some((BarlineType::Final, p + 3))
            } else if char_at(s, p + 2, ':') {
                Some((BarlineType::RepeatStart, p + 3))
            } else {
                Some((BarlineType::Double, p + 2))
            }
        } else {
            Some((BarlineType::Single, p + 1))
        }
    } else if char_at(s, p, ':') && char_at(s, p + 1, '|') && char_at(s, p + 2, '|') {
        Some((BarlineType::RepeatEnd, p + 3))
    } else {
        None
    }
}

/// The value of the digits `s[lo..hi]` as an octave count.
fn octave_count_exec(s: &Vec<char>, lo: usize, hi: usize) -> (r: i8)
    requires
        lo <= hi <= s@.len(),
        forall|i: int| lo <= i < hi ==> is_digit(#[trigger] s@[i]),
    ensures
        r == octave_count(s@.subrange(lo as int, hi as int)),
{
    if lo == hi {
        return 1;
    }
    let mut v: u32 = 0;
    let mut i = lo;
    while i < hi
        invariant
            lo <= i <= hi <= s@.len(),
            forall|j: int| lo <= j < hi ==> is_digit(#[trigger] s@[j]),
            v <= 1279,
            digits_value(s@.subrange(lo as int, i as int)) <= 127 ==> v == digits_value(
                s@.subrange(lo as int, i as int),
            ),
            digits_value(s@.subrange(lo as int, i as int)) > 127 ==> v > 127,
        decreases hi - i,
    {
        let c = s[i];
        assert(is_digit(s@[i as int]));
        let d: u32 = (c as u32) - 48;
        proof {
            assert(s@.subrange(lo as int, i + 1).drop_last() =~= s@.subrange(lo as int, i as int));
            assert(s@.subrange(lo as int, i + 1).last() == c);
        }
        if v <= 127 {
            v = v * 10 + d;
        }
        i = i + 1;
    }
    if v <= 127 {
        v as i8
    } else {
        1
    }
}

fn parse_octave_exec(s: &Vec<char>, p: usize) -> (r: Option<(i8, usize)>)
    requires
        p <= s@.len(),
    ensures
        match r {
            Some((o, e)) => parse_octave(s@, p as int) == Some((o, e as int)) && p < e <= s@.len(),
            None => parse_octave(s@, p as int) is None,
        },
{
    if !at(s, p, '^') {
        return None;
    }
    let len = s.len();
    if p + 1 < s.len() && (s[p + 1] == '+' || s[p + 1] == '-' || s[p + 1] == '=') {
        let e = scan(s, p + 2, Class::Digit);
        proof {
            assert forall|i: int| p + 2 <= i < e implies is_digit(#[trigger] s@[i]) by {
                lemma_span_digits(s@, p + 2, i);
            }
        }
        let n = octave_count_exec(s, p + 2, e);
        let o: i8 = if s[p + 1] == '-' {
            -n
        } else {
            n
        };
        Some((o, e))
    } else {
        Some((1, p + 1))
    }
}

/// Every character before the end of a digit run is a digit.
proof fn lemma_span_digits(s: Seq<char>, p: int, i: int)
    requires
        0 <= p <= i < span_end(s, p, Class::Digit),
    ensures
        is_digit(s[i]),
    decreases i - p,
{
    if i > p {
        lemma_span_digits(s, p + 1, i);
    }
}

fn parse_note_exec(s: &Vec<char>, p: usize, loose: bool) -> (r: Option<(Syntax, usize)>)
    requires
        p <= s@.len(),
    ensures
        opt_tree(r) == parse_note(s@, p as int, loose),
        r matches Some((_, q)) ==> p < q <= s@.len(),
{
    if !(p < s.len() && '0' <= s[p] && s[p] <= '9') {
        return None;
    }
    let pitch: u8 = ((s[p] as u32) - 48) as u8;
    let q = if loose {
        scan(s, p + 1, Class::Space)
    } else {
        p + 1
    };
    let (octave, q2) = match parse_octave_exec(s, q) {
        Some((o, e)) => (o, e),
        None => (0i8, p + 1),
    };
    let r = if loose {
        scan(s, q2, Class::Space)
    } else {
        q2
    };
    if at(s, r, '.') {
        Some((Syntax::Note { pitch, octave, dotted: true }, r + 1))
    } else {
        Some((Syntax::Note { pitch, octave, dotted: false }, q2))
    }
}

fn parse_barline_exec(s: &Vec<char>, p: usize) -> (r: Option<(BarlineType, usize)>)
    requires
        p <= s@.len(),
    ensures
        match r {
            Some((b, e)) => parse_barline(s@, p as int) == Some((b, e as int)) && p < e
                <= s@.len(),
            None => parse_barline(s@, p as int) is None,
        },
{
    let len = s.len();
    if at(s, p, '|') {
        if at(s, p + 1, '|') {
            if at(s, p + 2, '|') {
                Some((BarlineType::Final, p + 3))
            } else if at(s, p + 2, ':') {
                Some((BarlineType::RepeatStart, p + 3))
            } else {
                Some((BarlineType::Double, p + 2))
            }
        } else {
            Some((BarlineType::Single, p + 1))
        }
    } else if at(s, p, ':') && at(s, p + 1, '|') && at(s, p + 2, '|') {
        Some((BarlineType::RepeatEnd, p + 3))
    } else {
        None
    }
}

// ------------------------------------------------------------------
// Groups, controls, items
// ------------------------------------------------------------------

/// Bracket (beam), tie (slur) and chord groups.
pub enum GroupKind {
    Bracket,
    Tie,
    Chord,
}

pub open spec fn group_open(k: GroupKind) -> char {
    match k {
        GroupKind::Bracket => '[',
        GroupKind::Tie => '(',
        GroupKind::Chord => '{',
    }
}

pub open spec fn group_close(k: GroupKind) -> char {
    match k {
        GroupKind::Bracket => ']',
        GroupKind::Tie => ')',
        GroupKind::Chord => '}',
    }
}

pub open spec fn group_tree(k: GroupKind, els: Seq<Tree>) -> Tree {
    match k {
        GroupKind::Bracket => Tree::Bracket(els),
        GroupKind::Tie => Tree::Tie(els),
        GroupKind::Chord => Tree::Chord(els),
    }
}

pub open spec fn is_chord(k: GroupKind) -> bool {
    k is Chord
}

/// `bracket`, `tie` or `chord` at `p`.
pub open spec fn parse_group(s: Seq<char>, p: int, k: GroupKind) -> Option<(Tree, int)>
    decreases s.len() - p, 2int,
{
    if 0 <= p < s.len() && s[p] == group_open(k) {
        let (els, q) = parse_elems(s, p + 1, is_chord(k));
        if char_at(s, q, group_close(k)) {
            Some((group_tree(k, els), q + 1))
        } else {
            None
        }
    } else {
        None
    }
}

/// The longest run of group elements from `p`, and where it ends.
pub open spec fn parse_elems(s: Seq<char>, p: int, chord: bool) -> (Seq<Tree>, int)
    decreases s.len() - p, 4int,
{
    if 0 <= p < s.len() {
        match parse_elem(s, p, chord) {
            Some((t, q)) => if p < q <= s.len() {
                let (rest, e) = parse_elems(s, q, chord);
                (seq![t] + rest, e)
            } else {
                (seq![], p)
            },
            None => (seq![], p),
        }
    } else {
        (seq![], p)
    }
}

/// One element of a bracket or tie (`chord == false`), or of a chord.
pub open spec fn parse_elem(s: Seq<char>, p: int, chord: bool) -> Option<(Tree, int)>
    decreases s.len() - p, 3int,
{
    if !(0 <= p < s.len()) {
        None
    } else if is_ws(s[p]) {
        Some((Tree::Space, p + 1))
    } else if parse_note(s, p, false) is Some {
        parse_note(s, p, false)
    } else if chord {
        if parse_group(s, p, GroupKind::Chord) is Some {
            parse_group(s, p, GroupKind::Chord)
        } else if s[p] == '.' {
            Some((Tree::Dot, p + 1))
        } else {
            None
        }
    } else if parse_group(s, p, GroupKind::Bracket) is Some {
        parse_group(s, p, GroupKind::Bracket)
    } else if parse_control(s, p) is Some {
        parse_control(s, p)
    } else if s[p] == '.' {
        Some((Tree::Dot, p + 1))
    } else if parse_group(s, p, GroupKind::Chord) is Some {
        parse_group(s, p, GroupKind::Chord)
    } else {
        parse_group(s, p, GroupKind::Tie)
    }
}

/// `control = "#" ALPHA (ALNUM | "_")* ("<" param ">")?`.
pub open spec fn parse_control(s: Seq<char>, p: int) -> Option<(Tree, int)>
    decreases s.len() - p, 2int,
{
    if char_at(s, p, '#') && 0 <= p + 1 < s.len() && is_alpha(s[p + 1]) {
        let e = span_end(s, p + 2, Class::Ident);
        let name = s.subrange(p + 1, e);
        proof {
            lemma_span_end(s, p + 2, Class::Ident);
        }
        if char_at(s, e, '<') {
            let (items, q) = parse_param(s, e + 1);
            if char_at(s, q, '>') {
                Some(
                    (
                        Tree::Control {
                            name,
                            value: trim(s.subrange(e + 1, q)),
                            param: items,
                        },
                        q + 1,
                    ),
                )
            } else {
                Some((Tree::Control { name, value: seq![], param: seq![] }, e))
            }
        } else {
            Some((Tree::Control { name, value: seq![], param: seq![] }, e))
        }
    } else {
        None
    }
}

/// The items of a control parameter up to the closing `>` (or the end):
/// white space and characters that start no item are passed over as text.
pub open spec fn parse_param(s: Seq<char>, p: int) -> (Seq<Tree>, int)
    decreases s.len() - p, 4int,
{
    if !(0 <= p < s.len()) || s[p] == '>' {
        (seq![], p)
    } else if is_ws(s[p]) {
        parse_param(s, p + 1)
    } else {
        match parse_item(s, p) {
            Some((t, q)) => if p < q <= s.len() {
                let (rest, e) = parse_param(s, q);
                (seq![t] + rest, e)
            } else {
                parse_param(s, p + 1)
            },
            None => parse_param(s, p + 1),
        }
    }
}

/// One item of the score or of a control parameter.
pub open spec fn parse_item(s: Seq<char>, p: int) -> Option<(Tree, int)>
    decreases s.len() - p, 3int,
{
    if !(0 <= p < s.len()) {
        None
    } else if parse_barline(s, p) is Some {
        match parse_barline(s, p) {
            Some((b, e)) => Some((Tree::Barline(b), e)),
            None => None,
        }
    } else if s[p] == '-' {
        Some((Tree::Extend, p + 1))
    } else if parse_control(s, p) is Some {
        parse_control(s, p)
    } else if parse_group(s, p, GroupKind::Bracket) is Some {
        parse_group(s, p, GroupKind::Bracket)
    } else if parse_group(s, p, GroupKind::Tie) is Some {
        parse_group(s, p, GroupKind::Tie)
    } else if parse_group(s, p, GroupKind::Chord) is Some {
        parse_group(s, p, GroupKind::Chord)
    } else if parse_note(s, p, true) is Some {
        parse_note(s, p, true)
    } else if parse_octave(s, p) is Some {
        match parse_octave(s, p) {
            Some((_, e)) => Some((Tree::OctaveChange, e)),
            None => None,
        }
    } else if s[p] == '.' {
        Some((Tree::Dot, p + 1))
    } else {
        None
    }
}

/// The larger of two positions.
pub open spec fn later(a: int, b: int) -> int {
    if a >= b {
        a
    } else {
        b
    }
}

/// A run of group elements ends at or after its start.
pub proof fn lemma_elems_end(s: Seq<char>, p: int, chord: bool)
    requires
        0 <= p <= s.len(),
    ensures
        p <= parse_elems(s, p, chord).1 <= s.len(),
    decreases s.len() - p,
{
    if 0 <= p < s.len() {
        match parse_elem(s, p, chord) {
            Some((t, q)) => {
                if p < q <= s.len() {
                    lemma_elems_end(s, q, chord);
                }
            },
            None => {},
        }
    }
}

/// The start of the run of identifier characters that ends at `q`.
pub open spec fn ident_start(s: Seq<char>, q: int) -> int
    decreases q,
{
    if 0 < q <= s.len() && in_class(s[q - 1], Class::Ident) {
        ident_start(s, q - 1)
    } else {
        q
    }
}

/// Whether a control name `#name` ends right at `q`.
pub open spec fn control_name_ends(s: Seq<char>, q: int) -> bool {
    let b = ident_start(s, q);
    1 <= b < q <= s.len() && s[b - 1] == '#' && is_alpha(s[b])
}

/// How far the grammar got at `p` when a control name ends there and a `<`
/// follows that no `>` closes: through the parameter, to where it stopped.
pub open spec fn param_reach(s: Seq<char>, p: int) -> int {
    if char_at(s, p, '<') && control_name_ends(s, p) {
        parse_param(s, p + 1).1
    } else {
        p
    }
}

/// How far the grammar got into a bracket, tie or chord that opens at `p`
/// and does not close there: past its elements, and into the element at
/// which they stopped.
pub open spec fn group_reach(s: Seq<char>, p: int, k: GroupKind) -> int
    decreases s.len() - p, 0int,
{
    if 0 <= p < s.len() && s[p] == group_open(k) {
        let q = parse_elems(s, p + 1, is_chord(k)).1;
        proof {
            lemma_elems_end(s, p + 1, is_chord(k));
        }
        elem_reach(s, q, is_chord(k))
    } else {
        p
    }
}

/// How far the grammar got at `p`, where no group element starts: into any
/// group that opens there.
pub open spec fn elem_reach(s: Seq<char>, p: int, chord: bool) -> int
    decreases s.len() - p, 1int,
{
    if !(0 <= p < s.len()) {
        p
    } else if chord {
        later(p, group_reach(s, p, GroupKind::Chord))
    } else {
        later(
            param_reach(s, p),
            later(
                group_reach(s, p, GroupKind::Bracket),
                later(group_reach(s, p, GroupKind::Chord), group_reach(s, p, GroupKind::Tie)),
            ),
        )
    }
}

/// How far the grammar got at `p`, where no item starts: the furthest
/// position it reached in an unclosed control parameter that starts there
/// or in any group that opens there, else `p`.
pub open spec fn item_reach(s: Seq<char>, p: int) -> int {
    later(
        param_reach(s, p),
        later(
            group_reach(s, p, GroupKind::Bracket),
            later(group_reach(s, p, GroupKind::Tie), group_reach(s, p, GroupKind::Chord)),
        ),
    )
}

/// The items of a whole score from `p`: `Ok` with them when the rest of the
/// input is items and white space, else `Err` with the furthest position the
/// grammar reached in the item that failed.
pub open spec fn parse_top(s: Seq<char>, p: int) -> Result<Seq<Tree>, int>
    decreases s.len() - p,
{
    let q = span_end(s, p, Class::Space);
    if !(0 <= p <= q <= s.len()) || q == s.len() {
        Ok(seq![])
    } else {
        match parse_item(s, q) {
            Some((t, r)) => if q < r <= s.len() {
                match parse_top(s, r) {
                    Ok(ts) => Ok(seq![t] + ts),
                    Err(e) => Err(e),
                }
            } else {
                Err(q)
            },
            None => Err(item_reach(s, q)),
        }
    }
}

/// `file = WS* (item WS*)* EOI`.
pub open spec fn parse_file(s: Seq<char>) -> Result<Seq<Tree>, int> {
    parse_top(s, 0)
}

// ------------------------------------------------------------------
// The parser
// ------------------------------------------------------------------

proof fn lemma_trees_push(v: Seq<Syntax>, x: Syntax)
    ensures
        trees_of(v.push(x)) == trees_of(v).push(tree_of(x)),
{
    assert(trees_of(v.push(x)) =~= trees_of(v).push(tree_of(x)));
}

proof fn lemma_trees_empty()
    ensures
        trees_of(Seq::<Syntax>::empty()) == Seq::<Tree>::empty(),
{
    assert(trees_of(Seq::<Syntax>::empty()) =~= Seq::<Tree>::empty());
}

fn parse_group_exec(s: &Vec<char>, p: usize, k: GroupKind) -> (r: Option<(Syntax, usize)>)
    requires
        p <= s@.len(),
    ensures
        opt_tree(r) == parse_group(s@, p as int, k),
        r matches Some((_, q)) ==> p < q <= s@.len(),
    decreases s@.len() - p, 2int,
{
    let len = s.len();
    let open = match k {
        GroupKind::Bracket => '[',
        GroupKind::Tie => '(',
        GroupKind::Chord => '{',
    };
    let close = match k {
        GroupKind::Bracket => ']',
        GroupKind::Tie => ')',
        GroupKind::Chord => '}',
    };
    let chord = match k {
        GroupKind::Chord => true,
        _ => false,
    };
    if !(p < len && s[p] == open) {
        return None;
    }
    let (els, q) = parse_elems_exec(s, p + 1, chord);
    if at(s, q, close) {
        let node = match k {
            GroupKind::Bracket => Syntax::Bracket(els),
            GroupKind::Tie => Syntax::Tie(els),
            GroupKind::Chord => Syntax::Chord(els),
        };
        Some((node, q + 1))
    } else {
        None
    }
}

fn parse_elems_exec(s: &Vec<char>, p0: usize, chord: bool) -> (r: (Vec<Syntax>, usize))
    requires
        p0 <= s@.len(),
    ensures
        (trees_of(r.0@), r.1 as int) == parse_elems(s@, p0 as int, chord),
        p0 <= r.1 <= s@.len(),
    decreases s@.len() - p0, 4int,
{
    let len = s.len();
    let mut acc: Vec<Syntax> = Vec::new();
    let mut p = p0;
    proof {
        lemma_trees_empty();
        assert(Seq::<Tree>::empty() + parse_elems(s@, p as int, chord).0 =~= parse_elems(
            s@,
            p as int,
            chord,
        ).0);
    }
    loop
        invariant
            p0 <= p <= len,
            len == s@.len(),
            parse_elems(s@, p0 as int, chord) == (trees_of(acc@) + parse_elems(
                s@,
                p as int,
                chord,
            ).0, parse_elems(s@, p as int, chord).1),
        ensures
            p0 <= p <= len,
            parse_elems(s@, p0 as int, chord) == (trees_of(acc@), p as int),
        decreases len - p,
    {
        if p >= len {
            proof {
                assert(parse_elems(s@, p as int, chord) == (Seq::<Tree>::empty(), p as int));
                assert(trees_of(acc@) + Seq::<Tree>::empty() =~= trees_of(acc@));
            }
            break;
        }
        match parse_elem_exec(s, p, chord) {
            Some((t, q)) => {
                proof {
                    lemma_trees_push(acc@, t);
                    let rest = parse_elems(s@, q as int, chord);
                    assert(parse_elems(s@, p as int, chord) == (seq![tree_of(t)] + rest.0, rest.1));
                    assert(trees_of(acc@) + (seq![tree_of(t)] + rest.0) =~= trees_of(acc@).push(
                        tree_of(t),
                    ) + rest.0);
                }
                acc.push(t);
                p = q;
            },
            None => {
                proof {
                    assert(parse_elems(s@, p as int, chord) == (Seq::<Tree>::empty(), p as int));
                    assert(trees_of(acc@) + Seq::<Tree>::empty() =~= trees_of(acc@));
                }
                break;
            },
        }
    }
    proof {
        assert(trees_of(acc@) + Seq::<Tree>::empty() =~= trees_of(acc@));
    }
    (acc, p)
}

fn parse_elem_exec(s: &Vec<char>, p: usize, chord: bool) -> (r: Option<(Syntax, usize)>)
    requires
        p <= s@.len(),
    ensures
        opt_tree(r) == parse_elem(s@, p as int, chord),
        r matches Some((_, q)) ==> p < q <= s@.len(),
    decreases s@.len() - p, 3int,
{
    let len = s.len();
    if p >= len {
        return None;
    }
    let c = s[p];
    if c == ' ' || c == '\t' || c == '\r' || c == '\n' {
        return Some((Syntax::Space, p + 1));
    }
    let note = parse_note_exec(s, p, false);
    if note.is_some() {
        return note;
    }
    if chord {
        let g = parse_group_exec(s, p, GroupKind::Chord);
        if g.is_some() {
            return g;
        }
        if c == '.' {
            return Some((Syntax::Dot, p + 1));
        }
        return None;
    }
    let g = parse_group_exec(s, p, GroupKind::Bracket);
    if g.is_some() {
        return g;
    }
    let ctl = parse_control_exec(s, p);
    if ctl.is_some() {
        return ctl;
    }
    if c == '.' {
        return Some((Syntax::Dot, p + 1));
    }
    let g = parse_group_exec(s, p, GroupKind::Chord);
    if g.is_some() {
        return g;
    }
    parse_group_exec(s, p, GroupKind::Tie)
}

fn parse_control_exec(s: &Vec<char>, p: usize) -> (r: Option<(Syntax, usize)>)
    requires
        p <= s@.len(),
    ensures
        opt_tree(r) == parse_control(s@, p as int),
        r matches Some((_, q)) ==> p < q <= s@.len(),
    decreases s@.len() - p, 2int,
{
    let len = s.len();
    if !(at(s, p, '#') && p + 1 < len && (('a' <= s[p + 1] && s[p + 1] <= 'z') || ('A' <= s[p
        + 1] && s[p + 1] <= 'Z'))) {
        return None;
    }
    let e = scan(s, p + 2, Class::Ident);
    let name = copy_range(s, p + 1, e);
    proof {
        lemma_trees_empty();
    }
    if at(s, e, '<') {
        let (items, q) = parse_param_exec(s, e + 1);
        if at(s, q, '>') {
            let value = trimmed_range(s, e + 1, q);
            return Some((Syntax::Control { name, value, param: items }, q + 1));
        }
    }
    let value: Vec<char> = Vec::new();
    let param: Vec<Syntax> = Vec::new();
    proof {
        assert(value@ =~= Seq::<char>::empty());
    }
    Some((Syntax::Control { name, value, param }, e))
}

fn parse_param_exec(s: &Vec<char>, p0: usize) -> (r: (Vec<Syntax>, usize))
    requires
        p0 <= s@.len(),
    ensures
        (trees_of(r.0@), r.1 as int) == parse_param(s@, p0 as int),
        p0 <= r.1 <= s@.len(),
    decreases s@.len() - p0, 4int,
{
    let len = s.len();
    let mut acc: Vec<Syntax> = Vec::new();
    let mut p = p0;
    proof {
        lemma_trees_empty();
        assert(Seq::<Tree>::empty() + parse_param(s@, p as int).0 =~= parse_param(
            s@,
            p as int,
        ).0);
    }
    loop
        invariant
            p0 <= p <= len,
            len == s@.len(),
            parse_param(s@, p0 as int) == (trees_of(acc@) + parse_param(s@, p as int).0,
            parse_param(s@, p as int).1),
        ensures
            p0 <= p <= len,
            parse_param(s@, p0 as int) == (trees_of(acc@), p as int),
        decreases len - p,
    {
        if p >= len || s[p] == '>' {
            proof {
                assert(parse_param(s@, p as int) == (Seq::<Tree>::empty(), p as int));
                assert(trees_of(acc@) + Seq::<Tree>::empty() =~= trees_of(acc@));
            }
            break;
        }
        let c = s[p];
        if c == ' ' || c == '\t' || c == '\r' || c == '\n' {
            p = p + 1;
        } else {
            match parse_item_exec(s, p) {
                Some((t, q)) => {
                    proof {
                        lemma_trees_push(acc@, t);
                        let rest = parse_param(s@, q as int);
                        assert(parse_param(s@, p as int) == (seq![tree_of(t)] + rest.0, rest.1));
                        assert(trees_of(acc@) + (seq![tree_of(t)] + rest.0) =~= trees_of(
                            acc@,
                        ).push(tree_of(t)) + rest.0);
                    }
                    acc.push(t);
                    p = q;
                },
                None => {
                    p = p + 1;
                },
            }
        }
    }
    proof {
        assert(trees_of(acc@) + Seq::<Tree>::empty() =~= trees_of(acc@));
    }
    (acc, p)
}

fn parse_item_exec(s: &Vec<char>, p: usize) -> (r: Option<(Syntax, usize)>)
    requires
        p <= s@.len(),
    ensures
        opt_tree(r) == parse_item(s@, p as int),
        r matches Some((_, q)) ==> p < q <= s@.len(),
    decreases s@.len() - p, 3int,
{
    let len = s.len();
    if p >= len {
        return None;
    }
    if let Some((b, e)) = parse_barline_exec(s, p) {
        return Some((Syntax::Barline(b), e));
    }
    let c = s[p];
    if c == '-' {
        return Some((Syntax::Extend, p + 1));
    }
    let ctl = parse_control_exec(s, p);
    if ctl.is_some() {
        return ctl;
    }
    let g = parse_group_exec(s, p, GroupKind::Bracket);
    if g.is_some() {
        return g;
    }
    let g = parse_group_exec(s, p, GroupKind::Tie);
    if g.is_some() {
        return g;
    }
    let g = parse_group_exec(s, p, GroupKind::Chord);
    if g.is_some() {
        return g;
    }
    let note = parse_note_exec(s, p, true);
    if note.is_some() {
        return note;
    }
    if let Some((_, e)) = parse_octave_exec(s, p) {
        return Some((Syntax::OctaveChange, e));
    }
    if c == '.' {
        return Some((Syntax::Dot, p + 1));
    }
    None
}

fn ident_start_exec(s: &Vec<char>, q: usize) -> (r: usize)
    requires
        q <= s@.len(),
    ensures
        r as int == ident_start(s@, q as int),
        r <= q,
{
    let mut b = q;
    while b > 0 && class_has(s[b - 1], &Class::Ident)
        invariant
            b <= q <= s@.len(),
            ident_start(s@, q as int) == ident_start(s@, b as int),
        decreases b,
    {
        b = b - 1;
    }
    b
}

fn param_reach_exec(s: &Vec<char>, p: usize) -> (r: usize)
    requires
        p <= s@.len(),
    ensures
        r as int == param_reach(s@, p as int),
        p <= r <= s@.len(),
{
    if !(p < s.len() && s[p] == '<') {
        return p;
    }
    let b = ident_start_exec(s, p);
    if 1 <= b && b < p && s[b - 1] == '#' && (('a' <= s[b] && s[b] <= 'z') || ('A' <= s[b]
        && s[b] <= 'Z')) {
        let (_, q) = parse_param_exec(s, p + 1);
        q
    } else {
        p
    }
}

fn group_reach_exec(s: &Vec<char>, p: usize, k: GroupKind) -> (r: usize)
    requires
        p <= s@.len(),
    ensures
        r as int == group_reach(s@, p as int, k),
        p <= r <= s@.len(),
    decreases s@.len() - p, 0int,
{
    let (open, chord) = match k {
        GroupKind::Bracket => ('[', false),
        GroupKind::Tie => ('(', false),
        GroupKind::Chord => ('{', true),
    };
    if !(p < s.len() && s[p] == open) {
        return p;
    }
    let (_, q) = parse_elems_exec(s, p + 1, chord);
    elem_reach_exec(s, q, chord)
}

fn elem_reach_exec(s: &Vec<char>, p: usize, chord: bool) -> (r: usize)
    requires
        p <= s@.len(),
    ensures
        r as int == elem_reach(s@, p as int, chord),
        p <= r <= s@.len(),
    decreases s@.len() - p, 1int,
{
    if p >= s.len() {
        return p;
    }
    let mut r = p;
    if chord {
        let g = group_reach_exec(s, p, GroupKind::Chord);
        if g > r {
            r = g;
        }
    } else {
        let b = group_reach_exec(s, p, GroupKind::Bracket);
        let c = group_reach_exec(s, p, GroupKind::Chord);
        let t = group_reach_exec(s, p, GroupKind::Tie);
        let ct = if c >= t {
            c
        } else {
            t
        };
        let bct = if b >= ct {
            b
        } else {
            ct
        };
        r = param_reach_exec(s, p);
        if bct > r {
            r = bct;
        }
    }
    r
}

fn item_reach_exec(s: &Vec<char>, p: usize) -> (r: usize)
    requires
        p <= s@.len(),
    ensures
        r as int == item_reach(s@, p as int),
        p <= r <= s@.len(),
{
    let b = group_reach_exec(s, p, GroupKind::Bracket);
    let t = group_reach_exec(s, p, GroupKind::Tie);
    let c = group_reach_exec(s, p, GroupKind::Chord);
    let tc = if t >= c {
        t
    } else {
        c
    };
    let btc = if b >= tc {
        b
    } else {
        tc
    };
    let a = param_reach_exec(s, p);
    if btc > a {
        btc
    } else {
        a
    }
}

pub open spec fn result_trees(r: Result<Vec<Syntax>, usize>) -> Result<Seq<Tree>, int> {
    match r {
        Ok(v) => Ok(trees_of(v@)),
        Err(e) => Err(e as int),
    }
}

/// The parser of the score grammar.
pub struct MusicParser;

impl MusicParser {
    /// Parses a whole score: its items when the grammar accepts it, else the
    /// (0-based) furthest position that the grammar reached in the item that
    /// failed: where no item starts, or further on inside a bracket, tie,
    /// chord or control parameter that opens there and does not close.
    pub fn parse(s: &Vec<char>) -> (r: Result<Vec<Syntax>, usize>)
        ensures
            result_trees(r) == parse_file(s@),
            r matches Err(e) ==> e <= s@.len(),
    {
        let len = s.len();
        let mut acc: Vec<Syntax> = Vec::new();
        let mut p: usize = 0;
        proof {
            lemma_trees_empty();
        }
        loop
            invariant
                p <= len,
                len == s@.len(),
                parse_file(s@) == match parse_top(s@, p as int) {
                    Ok(ts) => Ok(trees_of(acc@) + ts),
                    Err(e) => Err(e),
                },
            decreases len - p,
        {
            let q = scan(s, p, Class::Space);
            if q == len {
                proof {
                    assert(trees_of(acc@) + Seq::<Tree>::empty() =~= trees_of(acc@));
                }
                return Ok(acc);
            }
            match parse_item_exec(s, q) {
                Some((t, r)) => {
                    proof {
                        lemma_trees_push(acc@, t);
                        match parse_top(s@, r as int) {
                            Ok(ts) => {
                                assert(trees_of(acc@) + (seq![tree_of(t)] + ts) =~= trees_of(
                                    acc@,
                                ).push(tree_of(t)) + ts);
                            },
                            Err(_) => {},
                        }
                    }
                    acc.push(t);
                    p = r;
                },
                None => {
                    return Err(item_reach_exec(s, q));
                },
            }
        }
    }
}

} // verus!
