//! The score model: notes, beam groups and score events, with their
//! mathematical views and their textual form.
use vstd::prelude::*;

use crate::text::{decimal, push_char, push_decimal, push_str};

verus! {

/// A jianpu note: scale degree (`0` is a rest), octave shift, duration as the
/// denominator of a whole note, augmentation dot and an attached accidental.
#[derive(Debug, Clone, Copy)]
pub struct Note {
    pub pitch: u8,
    pub octave: i8,
    pub duration: u32,
    pub dotted: bool,
    /// Sharp, flat or natural merged from `#sharp`/`#flat`/`#nat`; drawn right
    /// before the note.
    pub accidental: Option<Accidental>,
}

impl Note {
    /// A note with pitch 0 is a rest.
    pub fn is_rest(&self) -> (r: bool)
        ensures
            r == (self.pitch == 0),
    {
        self.pitch == 0
    }
}

/// Kinds of bar lines.
#[derive(Debug, Clone, Copy, PartialEq, Eq, Structural)]
pub enum BarlineType {
    Single,
    Double,
    Final,
    RepeatStart,
    RepeatEnd,
}

/// Sharp, flat, natural.
#[derive(Debug, Clone, Copy, PartialEq, Eq, Structural)]
pub enum Accidental {
    Sharp,
    Flat,
    Natural,
}

/// An element of a beam group: a note or a nested group. The flag is `true`
/// when no space separates the element from the one before it.
#[derive(Debug)]
pub enum BeamElement {
    Note(Note, bool),
    Nested(Vec<BeamElement>, bool),
}

/// A copy of a beam group, element by element.
pub fn copy_beam(elements: &Vec<BeamElement>) -> (r: Vec<BeamElement>)
    ensures
        beams_view(r@) == beams_view(elements@),
    decreases elements@,
{
    let mut r: Vec<BeamElement> = Vec::new();
    let mut i: usize = 0;
    while i < elements.len()
        invariant
            i <= elements@.len(),
            r@.len() == i,
            forall|j: int| 0 <= j < i ==> beam_view(#[trigger] r@[j]) == beam_view(elements@[j]),
        decreases elements@.len() - i,
    {
        let e = match &elements[i] {
            BeamElement::Note(n, t) => BeamElement::Note(*n, *t),
            BeamElement::Nested(inner, t) => {
                proof {
                    assert(decreases_to!(elements@ => elements@[i as int]));
                }
                BeamElement::Nested(copy_beam(inner), *t)
            },
        };
        r.push(e);
        i = i + 1;
    }
    proof {
        assert(beams_view(r@) =~= beams_view(elements@));
    }
    r
}

impl Clone for BeamElement {
    fn clone(&self) -> (r: Self)
        ensures
            r@ == self@,
    {
        match self {
            BeamElement::Note(n, t) => BeamElement::Note(*n, *t),
            BeamElement::Nested(inner, t) => BeamElement::Nested(copy_beam(inner), *t),
        }
    }
}

impl BeamElement {
    /// Whether the element is written right after the previous one.
    pub fn is_tight(&self) -> (r: bool)
        ensures
            r == beam_tight(self@),
    {
        match self {
            BeamElement::Note(_, t) => *t,
            BeamElement::Nested(_, t) => *t,
        }
    }
}

/// One event of a score.
#[derive(Debug, Clone)]
pub enum ScoreEvent {
    Note(Note),
    Chord(Vec<Note>),
    /// A beam group; nested groups add a further beam.
    Beam(Vec<BeamElement>),
    /// Notes under a slur; durations unchanged.
    Slur(Vec<Note>),
    /// Grace notes before a main note; the beam structure is kept.
    Grace(Vec<BeamElement>),
    Control(String, String),
    Barline(BarlineType),
    /// Holds the previous note one beat longer.
    Extend,
}

// ------------------------------------------------------------------
// Views
// ------------------------------------------------------------------

/// The mathematical value of a beam element.
pub enum BeamView {
    Note(Note, bool),
    Nested(Seq<BeamView>, bool),
}

pub open spec fn beam_view(e: BeamElement) -> BeamView
    decreases e,
{
    match e {
        BeamElement::Note(n, t) => BeamView::Note(n, t),
        BeamElement::Nested(v, t) => BeamView::Nested(beams_view(v@), t),
    }
}

pub open spec fn beams_view(s: Seq<BeamElement>) -> Seq<BeamView>
    decreases s,
{
    Seq::new(
        s.len(),
        |i: int|
            if 0 <= i < s.len() {
                beam_view(s[i])
            } else {
                BeamView::Note(Note { pitch: 0, octave: 0, duration: 0, dotted: false, accidental: None }, false)
            },
    )
}

impl View for BeamElement {
    type V = BeamView;

    open spec fn view(&self) -> BeamView {
        beam_view(*self)
    }
}

pub open spec fn beam_tight(e: BeamView) -> bool {
    match e {
        BeamView::Note(_, t) => t,
        BeamView::Nested(_, t) => t,
    }
}

/// The mathematical value of a score event: vectors become sequences and
/// strings their characters.
pub enum EventView {
    Note(Note),
    Chord(Seq<Note>),
    Beam(Seq<BeamView>),
    Slur(Seq<Note>),
    Grace(Seq<BeamView>),
    Control(Seq<char>, Seq<char>),
    Barline(BarlineType),
    Extend,
}

impl View for ScoreEvent {
    type V = EventView;

    open spec fn view(&self) -> EventView {
        match self {
            ScoreEvent::Note(n) => EventView::Note(*n),
            ScoreEvent::Chord(v) => EventView::Chord(v@),
            ScoreEvent::Beam(v) => EventView::Beam(beams_view(v@)),
            ScoreEvent::Slur(v) => EventView::Slur(v@),
            ScoreEvent::Grace(v) => EventView::Grace(beams_view(v@)),
            ScoreEvent::Control(a, b) => EventView::Control(a@, b@),
            ScoreEvent::Barline(b) => EventView::Barline(*b),
            ScoreEvent::Extend => EventView::Extend,
        }
    }
}

/// The views of a sequence of events.
pub open spec fn events_view(s: Seq<ScoreEvent>) -> Seq<EventView> {
    Seq::new(s.len(), |i: int| s[i]@)
}

/// A copy of a list of notes.
pub fn copy_notes(v: &Vec<Note>) -> (r: Vec<Note>)
    ensures
        r@ == v@,
{
    let mut r: Vec<Note> = Vec::new();
    let mut i: usize = 0;
    while i < v.len()
        invariant
            i <= v@.len(),
            r@ == v@.take(i as int),
        decreases v@.len() - i,
    {
        r.push(v[i]);
        i = i + 1;
        proof {
            assert(r@ =~= v@.take(i as int));
        }
    }
    proof {
        assert(v@.take(i as int) =~= v@);
    }
    r
}

/// A copy of an event.
pub fn copy_event(e: &ScoreEvent) -> (r: ScoreEvent)
    ensures
        r@ == e@,
{
    match e {
        ScoreEvent::Note(n) => ScoreEvent::Note(*n),
        ScoreEvent::Chord(v) => ScoreEvent::Chord(copy_notes(v)),
        ScoreEvent::Beam(v) => ScoreEvent::Beam(copy_beam(v)),
        ScoreEvent::Slur(v) => ScoreEvent::Slur(copy_notes(v)),
        ScoreEvent::Grace(v) => ScoreEvent::Grace(copy_beam(v)),
        ScoreEvent::Control(a, b) => ScoreEvent::Control(a.clone(), b.clone()),
        ScoreEvent::Barline(b) => ScoreEvent::Barline(*b),
        ScoreEvent::Extend => ScoreEvent::Extend,
    }
}

// ------------------------------------------------------------------
// Flattening beam groups
// ------------------------------------------------------------------

/// The notes of a beam group in order, nested groups unwrapped.
pub open spec fn flatten(s: Seq<BeamView>) -> Seq<Note>
    decreases s,
{
    if s.len() == 0 {
        seq![]
    } else {
        flatten(s.drop_last()) + match s.last() {
            BeamView::Note(n, _) => seq![n],
            BeamView::Nested(inner, _) => flatten(inner),
        }
    }
}

/// Flattening distributes over concatenation.
pub proof fn lemma_flatten_concat(a: Seq<BeamView>, b: Seq<BeamView>)
    ensures
        flatten(a + b) == flatten(a) + flatten(b),
    decreases b.len(),
{
    if b.len() == 0 {
        assert(a + b =~= a);
        assert(flatten(b) =~= seq![]);
        assert(flatten(a) + flatten(b) =~= flatten(a));
    } else {
        lemma_flatten_concat(a, b.drop_last());
        assert((a + b).drop_last() =~= a + b.drop_last());
        assert((a + b).last() == b.last());
        assert(flatten(a + b) =~= flatten(a) + flatten(b));
    }
}

/// Collects the notes of a beam group in order, unwrapping nested groups
/// (used for display and for sizing grace notes).
pub fn flatten_beam(elements: &[BeamElement]) -> (notes: Vec<Note>)
    ensures
        notes@ == flatten(beams_view(elements@)),
    decreases elements@,
{
    let mut notes: Vec<Note> = Vec::new();
    let mut i: usize = 0;
    while i < elements.len()
        invariant
            i <= elements@.len(),
            notes@ == flatten(beams_view(elements@).take(i as int)),
        decreases elements@.len() - i,
    {
        let ghost bv = beams_view(elements@);
        proof {
            assert(bv.take(i + 1).drop_last() =~= bv.take(i as int));
            assert(bv.take(i + 1).last() == beam_view(elements@[i as int]));
        }
        match &elements[i] {
            BeamElement::Note(n, _) => {
                notes.push(*n);
            },
            BeamElement::Nested(inner, _) => {
                proof {
                    assert(decreases_to!(elements@ => elements@[i as int]));
                }
                let mut sub = flatten_beam(inner.as_slice());
                notes.append(&mut sub);
            },
        }
        i = i + 1;
        proof {
            assert(notes@ =~= flatten(bv.take(i as int)));
        }
    }
    proof {
        assert(beams_view(elements@).take(i as int) =~= beams_view(elements@));
    }
    notes
}

// ------------------------------------------------------------------
// Text form
// ------------------------------------------------------------------

/// `k` copies of `c`.
pub open spec fn repeat(c: char, k: nat) -> Seq<char> {
    Seq::new(k, |i: int| c)
}

pub open spec fn dot_text(dotted: bool) -> Seq<char> {
    if dotted {
        seq!['.']
    } else {
        seq![]
    }
}

pub open spec fn accidental_text(a: Option<Accidental>) -> Seq<char> {
    match a {
        Some(Accidental::Sharp) => seq!['#'],
        Some(Accidental::Flat) => seq!['b'],
        Some(Accidental::Natural) => seq!['n'],
        None => seq![],
    }
}

pub open spec fn octave_text(o: i8) -> Seq<char> {
    if o > 0 {
        seq!['^'] + repeat('+', o as nat)
    } else if o < 0 {
        repeat('-', (-o) as nat)
    } else {
        seq![]
    }
}

/// The textual form of a note: a rest is `0` (with its dot); otherwise the
/// accidental, the degree, `^` and one `+` per octave up or one `-` per
/// octave down, and the dot.
pub open spec fn note_text(n: Note) -> Seq<char> {
    if n.pitch == 0 {
        seq!['0'] + dot_text(n.dotted)
    } else {
        accidental_text(n.accidental) + decimal(n.pitch as nat) + octave_text(n.octave)
            + dot_text(n.dotted)
    }
}

/// A note can be written out unless it is a pitched note whose octave is
/// `i8::MIN`, whose negation overflows; a rest is written without its octave.
pub open spec fn note_printable(n: Note) -> bool {
    n.pitch == 0 || n.octave != i8::MIN
}

/// Appends `k` copies of `c`.
fn push_repeat(s: &mut String, c: char, k: u8)
    ensures
        final(s)@ == old(s)@ + repeat(c, k as nat),
{
    let mut i: u8 = 0;
    while i < k
        invariant
            i <= k,
            s@ == old(s)@ + repeat(c, i as nat),
        decreases k - i,
    {
        push_char(s, c);
        i = i + 1;
        proof {
            assert(s@ =~= old(s)@ + repeat(c, i as nat));
        }
    }
}

/// Appends the textual form of `n`.
fn push_note_text(s: &mut String, n: &Note)
    requires
        note_printable(*n),
    ensures
        final(s)@ == old(s)@ + note_text(*n),
{
    if n.pitch == 0 {
        push_char(s, '0');
        if n.dotted {
            push_char(s, '.');
        }
        proof {
            assert(s@ =~= old(s)@ + note_text(*n));
        }
        return ;
    }
    match n.accidental {
        Some(Accidental::Sharp) => push_char(s, '#'),
        Some(Accidental::Flat) => push_char(s, 'b'),
        Some(Accidental::Natural) => push_char(s, 'n'),
        None => {},
    }
    let ghost s1 = s@;
    proof {
        assert(s1 =~= old(s)@ + accidental_text(n.accidental));
    }
    push_decimal(s, n.pitch as u64);
    let ghost s2 = s@;
    if n.octave > 0 {
        push_char(s, '^');
        push_repeat(s, '+', n.octave as u8);
    } else if n.octave < 0 {
        let k: i8 = -n.octave;
        push_repeat(s, '-', k as u8);
    }
    proof {
        assert(s@ =~= s2 + octave_text(n.octave));
    }
    if n.dotted {
        push_char(s, '.');
    }
    proof {
        assert(s@ =~= old(s)@ + note_text(*n));
    }
}

impl Note {
    /// The textual form of the note, e.g. `1^+` or `b2--.`.
    pub fn to_string(&self) -> (r: String)
        requires
            note_printable(*self),
        ensures
            r@ == note_text(*self),
    {
        let mut s = String::new();
        push_note_text(&mut s, self);
        proof {
            assert(s@ =~= note_text(*self));
        }
        s
    }
}

/// Note texts joined by `, `.
pub open spec fn join_notes(ns: Seq<Note>) -> Seq<char>
    decreases ns.len(),
{
    if ns.len() == 0 {
        seq![]
    } else if ns.len() == 1 {
        note_text(ns[0])
    } else {
        join_notes(ns.drop_last()) + ", "@ + note_text(ns.last())
    }
}

/// The duration shown for a group: that of its first note, or 4.
pub open spec fn group_duration(ns: Seq<Note>) -> u32 {
    if ns.len() > 0 {
        ns[0].duration
    } else {
        4
    }
}

pub open spec fn group_text(tag: Seq<char>, ns: Seq<Note>) -> Seq<char> {
    tag + seq!['['] + join_notes(ns) + "] (1/"@ + decimal(group_duration(ns) as nat) + seq![')']
}

pub open spec fn barline_text(b: BarlineType) -> Seq<char> {
    match b {
        BarlineType::Single => "|"@,
        BarlineType::Double => "||"@,
        BarlineType::Final => "|||"@,
        BarlineType::RepeatStart => "||:"@,
        BarlineType::RepeatEnd => ":||"@,
    }
}

/// The one-line textual form of an event, as the parse listing shows it.
pub open spec fn event_text(e: EventView) -> Seq<char> {
    match e {
        EventView::Note(n) => (if n.pitch == 0 {
            "[REST] "@
        } else {
            "[NOTE] "@
        }) + note_text(n) + " (1/"@ + decimal(n.duration as nat) + seq![')'],
        EventView::Chord(ns) => group_text("[CHORD] "@, ns),
        EventView::Beam(els) => group_text("[BEAM] "@, flatten(els)),
        EventView::Slur(ns) => group_text("[SLUR] "@, ns),
        EventView::Grace(els) => group_text("[GRACE] "@, flatten(els)),
        EventView::Control(name, value) => "[CONTROL] #"@ + name + seq!['<'] + value + seq!['>'],
        EventView::Barline(b) => "[BARLINE] "@ + barline_text(b),
        EventView::Extend => "[EXTEND] -"@,
    }
}

pub open spec fn notes_printable(ns: Seq<Note>) -> bool {
    forall|i: int| 0 <= i < ns.len() ==> note_printable(#[trigger] ns[i])
}

/// Whether every note of the event can be written out.
pub open spec fn event_printable(e: EventView) -> bool {
    match e {
        EventView::Note(n) => note_printable(n),
        EventView::Chord(ns) => notes_printable(ns),
        EventView::Beam(els) => notes_printable(flatten(els)),
        EventView::Slur(ns) => notes_printable(ns),
        EventView::Grace(els) => notes_printable(flatten(els)),
        _ => true,
    }
}

/// Appends the note texts of `ns` joined by `, `.
fn push_joined(s: &mut String, ns: &Vec<Note>)
    requires
        notes_printable(ns@),
    ensures
        final(s)@ == old(s)@ + join_notes(ns@),
{
    let mut i: usize = 0;
    while i < ns.len()
        invariant
            i <= ns@.len(),
            notes_printable(ns@),
            s@ == old(s)@ + join_notes(ns@.take(i as int)),
        decreases ns@.len() - i,
    {
        proof {
            assert(ns@.take(i + 1).drop_last() =~= ns@.take(i as int));
            assert(note_printable(ns@[i as int]));
        }
        if i > 0 {
            push_str(s, ", ");
        }
        push_note_text(s, &ns[i]);
        i = i + 1;
        proof {
            if i == 1 {
                assert(join_notes(ns@.take(1)) == note_text(ns@[0]));
            }
            assert(s@ =~= old(s)@ + join_notes(ns@.take(i as int)));
        }
    }
    proof {
        assert(ns@.take(i as int) =~= ns@);
    }
}

/// Appends the form shared by chords, beams, slurs and grace groups.
fn push_group_text(s: &mut String, tag: &str, ns: &Vec<Note>)
    requires
        notes_printable(ns@),
    ensures
        final(s)@ == old(s)@ + group_text(tag@, ns@),
{
    push_str(s, tag);
    push_char(s, '[');
    push_joined(s, ns);
    push_str(s, "] (1/");
    let d: u32 = if ns.len() > 0 {
        ns[0].duration
    } else {
        4
    };
    push_decimal(s, d as u64);
    push_char(s, ')');
    proof {
        assert(s@ =~= old(s)@ + group_text(tag@, ns@));
    }
}

impl ScoreEvent {
    /// The one-line textual form of the event, e.g. `[NOTE] 1 (1/4)`.
    pub fn to_string(&self) -> (r: String)
        requires
            event_printable(self@),
        ensures
            r@ == event_text(self@),
    {
        let mut s = String::new();
        match self {
            ScoreEvent::Note(n) => {
                if n.is_rest() {
                    push_str(&mut s, "[REST] ");
                } else {
                    push_str(&mut s, "[NOTE] ");
                }
                push_note_text(&mut s, n);
                push_str(&mut s, " (1/");
                push_decimal(&mut s, n.duration as u64);
                push_char(&mut s, ')');
            },
            ScoreEvent::Chord(ns) => {
                push_group_text(&mut s, "[CHORD] ", ns);
            },
            ScoreEvent::Beam(els) => {
                let ns = flatten_beam(els.as_slice());
                push_group_text(&mut s, "[BEAM] ", &ns);
            },
            ScoreEvent::Slur(ns) => {
                push_group_text(&mut s, "[SLUR] ", ns);
            },
            ScoreEvent::Grace(els) => {
                let ns = flatten_beam(els.as_slice());
                push_group_text(&mut s, "[GRACE] ", &ns);
            },
            ScoreEvent::Control(name, value) => {
                push_str(&mut s, "[CONTROL] #");
                push_str(&mut s, name.as_str());
                push_char(&mut s, '<');
                push_str(&mut s, value.as_str());
                push_char(&mut s, '>');
            },
            ScoreEvent::Barline(b) => {
                push_str(&mut s, "[BARLINE] ");
                match b {
                    BarlineType::Single => push_str(&mut s, "|"),
                    BarlineType::Double => push_str(&mut s, "||"),
                    BarlineType::Final => push_str(&mut s, "|||"),
                    BarlineType::RepeatStart => push_str(&mut s, "||:"),
                    BarlineType::RepeatEnd => push_str(&mut s, ":||"),
                }
            },
            ScoreEvent::Extend => {
                push_str(&mut s, "[EXTEND] -");
            },
        }
        proof {
            assert(s@ =~= event_text(self@));
        }
        s
    }
}

} // verus!
