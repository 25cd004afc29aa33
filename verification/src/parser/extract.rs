//! From syntax trees to score events: what each construct of the grammar
//! contributes to the event list, stated over trees and views, and the code
//! that computes it.
use vstd::prelude::*;

use crate::parser::grammar::{Syntax, Tree, tree_of, trees_of};
use crate::parser::model::{
    Accidental, BeamElement, BeamView, EventView, Note, ScoreEvent, beam_view, beams_view,
    copy_beam, events_view, flatten,
};
use crate::text::{chars_eq_str, decimal, decimal_string, string_from_chars};

verus! {

// ------------------------------------------------------------------
// Notes and accidentals
// ------------------------------------------------------------------

/// The note that a note of the grammar stands for, at duration `d`.
pub open spec fn mk_note(pitch: u8, octave: i8, dotted: bool, d: nat) -> Note {
    Note { pitch, octave, duration: d as u32, dotted, accidental: None }
}

/// `n` carrying accidental `a`.
pub open spec fn with_acc(n: Note, a: Accidental) -> Note {
    Note {
        pitch: n.pitch,
        octave: n.octave,
        duration: n.duration,
        dotted: n.dotted,
        accidental: Some(a),
    }
}

/// The accidental that a control name stands for: `sharp`, `flat`, and
/// `nat` or `natural`.
pub open spec fn accidental_of(name: Seq<char>) -> Option<Accidental> {
    if name == "sharp"@ {
        Some(Accidental::Sharp)
    } else if name == "flat"@ {
        Some(Accidental::Flat)
    } else if name == "nat"@ || name == "natural"@ {
        Some(Accidental::Natural)
    } else {
        None
    }
}

/// Controls whose parameter is read as music.
pub open spec fn reads_param(name: Seq<char>) -> bool {
    accidental_of(name) is Some || name == "cresc"@ || name == "dim"@ || name == "grace"@
}

/// Puts `a` on the first note of a beam group, searching nested groups in
/// order; `None` when the group holds no note.
pub open spec fn attach_beam(s: Seq<BeamView>, a: Accidental) -> Option<Seq<BeamView>>
    decreases s,
{
    if s.len() == 0 {
        None
    } else {
        match s[0] {
            BeamView::Note(n, t) => Some(s.update(0, BeamView::Note(with_acc(n, a), t))),
            BeamView::Nested(inner, t) => {
                proof {
                    assert(decreases_to!(s => s[0]));
                }
                match attach_beam(inner, a) {
                    Some(i2) => Some(s.update(0, BeamView::Nested(i2, t))),
                    None => match attach_beam(s.drop_first(), a) {
                        Some(r) => Some(seq![s[0]] + r),
                        None => None,
                    },
                }
            },
        }
    }
}

/// One step of putting an accidental on the first note-bearing event.
pub open spec fn attach_one(e: EventView, a: Accidental, attached: bool) -> (EventView, bool) {
    if attached {
        (e, true)
    } else {
        match e {
            EventView::Note(n) => (EventView::Note(with_acc(n, a)), true),
            EventView::Chord(ns) => if ns.len() > 0 {
                (EventView::Chord(ns.update(0, with_acc(ns[0], a))), true)
            } else {
                (e, false)
            },
            EventView::Beam(els) => match attach_beam(els, a) {
                Some(e2) => (EventView::Beam(e2), true),
                None => (e, false),
            },
            EventView::Slur(ns) => if ns.len() > 0 {
                (EventView::Slur(ns.update(0, with_acc(ns[0], a))), true)
            } else {
                (e, false)
            },
            _ => (e, false),
        }
    }
}

/// The events of `#sharp<..>`/`#flat<..>`/`#nat<..>`: the parameter's events
/// with the accidental on the first note of the first event that has one.
pub open spec fn attach_fold(pe: Seq<EventView>, a: Accidental) -> (Seq<EventView>, bool)
    decreases pe.len(),
{
    if pe.len() == 0 {
        (seq![], false)
    } else {
        let (prev, attached) = attach_fold(pe.drop_last(), a);
        let (e, b) = attach_one(pe.last(), a, attached);
        (prev.push(e), b)
    }
}

/// Marks every element of a group as tight except the first, at every depth.
pub open spec fn compact(s: Seq<BeamView>) -> Seq<BeamView>
    decreases s,
{
    Seq::new(
        s.len(),
        |i: int|
            if 0 <= i < s.len() {
                compact_elem(s[i], i > 0)
            } else {
                s[0]
            },
    )
}

pub open spec fn compact_elem(e: BeamView, tight: bool) -> BeamView
    decreases e,
{
    match e {
        BeamView::Note(n, _) => BeamView::Note(n, tight),
        BeamView::Nested(inner, _) => BeamView::Nested(compact(inner), tight),
    }
}

/// The grace group of `#grace<..>`: the parameter's notes and beams, each
/// loose, the beams compacted.
pub open spec fn grace_fold(pe: Seq<EventView>) -> Seq<BeamView>
    decreases pe.len(),
{
    if pe.len() == 0 {
        seq![]
    } else {
        grace_fold(pe.drop_last()) + match pe.last() {
            EventView::Note(n) => seq![BeamView::Note(n, false)],
            EventView::Beam(inner) => seq![BeamView::Nested(compact(inner), false)],
            _ => seq![],
        }
    }
}

/// The number of notes, chords, beams and slurs (what a hairpin spans).
pub open spec fn count_music(pe: Seq<EventView>) -> nat
    decreases pe.len(),
{
    if pe.len() == 0 {
        0
    } else {
        count_music(pe.drop_last()) + match pe.last() {
            EventView::Note(_) | EventView::Chord(_) | EventView::Beam(_) | EventView::Slur(
                _,
            ) => 1nat,
            _ => 0nat,
        }
    }
}

/// The events that a control stands for, given the events of its parameter.
pub open spec fn control_events(name: Seq<char>, value: Seq<char>, pe: Seq<EventView>) -> Seq<
    EventView,
> {
    match accidental_of(name) {
        Some(a) => attach_fold(pe, a).0,
        None => if name == "cresc"@ || name == "dim"@ {
            seq![EventView::Control(name, decimal(count_music(pe)))] + pe
        } else if name == "grace"@ {
            let g = grace_fold(pe);
            if g.len() > 0 {
                seq![EventView::Grace(g)]
            } else {
                seq![]
            }
        } else {
            seq![EventView::Control(name, value)]
        },
    }
}

// ------------------------------------------------------------------
// Chords and slurs
// ------------------------------------------------------------------

/// All notes of a chord, nested chords included, at duration `d`.
pub open spec fn chord_notes(ch: Seq<Tree>, d: nat) -> Seq<Note>
    decreases ch,
{
    if ch.len() == 0 {
        seq![]
    } else {
        chord_notes(ch.drop_last(), d) + match ch.last() {
            Tree::Note { pitch, octave, dotted } => seq![mk_note(pitch, octave, dotted, d)],
            Tree::Chord(inner) => chord_notes(inner, d),
            _ => seq![],
        }
    }
}

/// The notes of a tie when it holds only notes, white space and dots.
pub open spec fn slur_notes(ch: Seq<Tree>, d: nat) -> Option<Seq<Note>>
    decreases ch.len(),
{
    if ch.len() == 0 {
        Some(seq![])
    } else {
        match slur_notes(ch.drop_last(), d) {
            None => None,
            Some(ns) => match ch.last() {
                Tree::Note { pitch, octave, dotted } => Some(ns.push(mk_note(pitch, octave, dotted, d))),
                Tree::Space | Tree::Dot => Some(ns),
                _ => None,
            },
        }
    }
}

// ------------------------------------------------------------------
// Beams
// ------------------------------------------------------------------

/// The beam elements that an accidental control inside a bracket adds: its
/// parameter's notes and beams, the first carrying the accidental and the
/// control's tightness, the others loose.
pub open spec fn acc_elements(pe: Seq<EventView>, a: Accidental, tight: bool) -> (Seq<BeamView>, bool)
    decreases pe.len(),
{
    if pe.len() == 0 {
        (seq![], false)
    } else {
        let (prev, attached) = acc_elements(pe.drop_last(), a, tight);
        match pe.last() {
            EventView::Note(n) => (
                prev.push(
                    BeamView::Note(
                        if !attached {
                            with_acc(n, a)
                        } else {
                            n
                        },
                        !attached && tight,
                    ),
                ),
                true,
            ),
            EventView::Beam(nested) => (
                prev.push(
                    BeamView::Nested(
                        if !attached {
                            match attach_beam(nested, a) {
                                Some(x) => x,
                                None => nested,
                            }
                        } else {
                            nested
                        },
                        !attached && tight,
                    ),
                ),
                true,
            ),
            _ => (prev, attached),
        }
    }
}

/// Reading a bracket's children as a beam group at duration `d`, left to
/// right: whether the last child read was white space, and the elements so
/// far; `None` once a child cannot belong to a beam.
pub open spec fn beam_fold(ch: Seq<Tree>, d: nat) -> Option<(bool, Seq<BeamView>)>
    decreases ch,
{
    if ch.len() == 0 {
        Some((true, seq![]))
    } else {
        match beam_fold(ch.drop_last(), d) {
            None => None,
            Some((ps, els)) => beam_step(ps, els, ch.last(), d),
        }
    }
}

pub open spec fn beam_step(ps: bool, els: Seq<BeamView>, child: Tree, d: nat) -> Option<
    (bool, Seq<BeamView>),
>
    decreases child,
{
    match child {
        Tree::Space => Some((true, els)),
        Tree::Note { pitch, octave, dotted } => Some(
            (false, els.push(BeamView::Note(mk_note(pitch, octave, dotted, d), !ps))),
        ),
        Tree::Bracket(inner) => match beam_result(beam_fold(inner, 2 * d)) {
            Some(nested) => Some((false, els.push(BeamView::Nested(nested, !ps)))),
            None => None,
        },
        Tree::Control { name, value, param } => match accidental_of(name) {
            Some(a) => Some((false, els + acc_elements(extract_seq(param, d), a, !ps).0)),
            None => None,
        },
        Tree::Dot => Some((ps, els)),
        _ => None,
    }
}

/// A beam group when the reading succeeded and found an element.
pub open spec fn beam_result(r: Option<(bool, Seq<BeamView>)>) -> Option<Seq<BeamView>> {
    match r {
        Some((_, els)) => if els.len() > 0 {
            Some(els)
        } else {
            None
        },
        None => None,
    }
}

// ------------------------------------------------------------------
// Events
// ------------------------------------------------------------------

/// The events that a syntax node stands for at duration `d`: a bracket halves
/// the duration and is a beam when it can be one, else its children's events;
/// a tie of plain notes is a slur, else its children's events; a chord lists
/// its notes; controls as `control_events` says.
pub open spec fn extract(t: Tree, d: nat) -> Seq<EventView>
    decreases t,
{
    match t {
        Tree::Note { pitch, octave, dotted } => seq![EventView::Note(mk_note(pitch, octave, dotted, d))],
        Tree::Chord(ch) => {
            let ns = chord_notes(ch, d);
            if ns.len() > 0 {
                seq![EventView::Chord(ns)]
            } else {
                seq![]
            }
        },
        Tree::Bracket(ch) => match beam_result(beam_fold(ch, 2 * d)) {
            Some(els) => seq![EventView::Beam(els)],
            None => extract_seq(ch, 2 * d),
        },
        Tree::Tie(ch) => match slur_notes(ch, d) {
            Some(ns) => if ns.len() > 0 {
                seq![EventView::Slur(ns)]
            } else {
                extract_seq(ch, d)
            },
            None => extract_seq(ch, d),
        },
        Tree::Control { name, value, param } => control_events(name, value, extract_seq(param, d)),
        Tree::Barline(b) => seq![EventView::Barline(b)],
        Tree::Extend => seq![EventView::Extend],
        _ => seq![],
    }
}

/// The events of a sequence of nodes, in order.
pub open spec fn extract_seq(ts: Seq<Tree>, d: nat) -> Seq<EventView>
    decreases ts,
{
    if ts.len() == 0 {
        seq![]
    } else {
        extract_seq(ts.drop_last(), d) + extract(ts.last(), d)
    }
}

/// Every duration that extraction computes at `d` fits a `u32`: each bracket
/// doubles the duration, and a parameter counts only where it is read as
/// music.
pub open spec fn fits(t: Tree, d: nat) -> bool
    decreases t,
{
    &&& d <= u32::MAX
    &&& match t {
        Tree::Bracket(ch) => 2 * d <= u32::MAX && fits_seq(ch, 2 * d),
        Tree::Tie(ch) => fits_seq(ch, d),
        Tree::Control { name, value, param } => reads_param(name) ==> fits_seq(param, d),
        _ => true,
    }
}

pub open spec fn fits_seq(ts: Seq<Tree>, d: nat) -> bool
    decreases ts,
{
    &&& d <= u32::MAX
    &&& forall|i: int| 0 <= i < ts.len() ==> fits(#[trigger] ts[i], d)
}

// ------------------------------------------------------------------
// View lemmas
// ------------------------------------------------------------------

pub proof fn lemma_events_push(v: Seq<ScoreEvent>, x: ScoreEvent)
    ensures
        events_view(v.push(x)) == events_view(v).push(x@),
{
    assert(events_view(v.push(x)) =~= events_view(v).push(x@));
}

pub proof fn lemma_events_concat(a: Seq<ScoreEvent>, b: Seq<ScoreEvent>)
    ensures
        events_view(a + b) == events_view(a) + events_view(b),
{
    assert(events_view(a + b) =~= events_view(a) + events_view(b));
}

pub proof fn lemma_beams_push(v: Seq<BeamElement>, x: BeamElement)
    ensures
        beams_view(v.push(x)) == beams_view(v).push(beam_view(x)),
{
    assert(beams_view(v.push(x)) =~= beams_view(v).push(beam_view(x)));
}

pub proof fn lemma_beams_concat(a: Seq<BeamElement>, b: Seq<BeamElement>)
    ensures
        beams_view(a + b) == beams_view(a) + beams_view(b),
{
    assert(beams_view(a + b) =~= beams_view(a) + beams_view(b));
}

// ------------------------------------------------------------------
// Accidentals on beams
// ------------------------------------------------------------------

/// Attaching to a concatenation attaches in the first part when it has a
/// note, else in the second.
pub proof fn lemma_attach_concat(a: Seq<BeamView>, b: Seq<BeamView>, acc: Accidental)
    ensures
        attach_beam(a + b, acc) == match attach_beam(a, acc) {
            Some(x) => Some(x + b),
            None => match attach_beam(b, acc) {
                Some(y) => Some(a + y),
                None => None,
            },
        },
    decreases a.len(),
{
    if a.len() == 0 {
        assert(a + b =~= b);
        match attach_beam(b, acc) {
            Some(y) => {
                assert(a + y =~= y);
            },
            None => {},
        }
    } else {
        let ab = a + b;
        assert(ab[0] == a[0]);
        assert(ab.drop_first() =~= a.drop_first() + b);
        lemma_attach_concat(a.drop_first(), b, acc);
        match a[0] {
            BeamView::Note(n, t) => {
                assert(ab.update(0, BeamView::Note(with_acc(n, acc), t)) =~= a.update(
                    0,
                    BeamView::Note(with_acc(n, acc), t),
                ) + b);
            },
            BeamView::Nested(inner, t) => {
                match attach_beam(inner, acc) {
                    Some(i2) => {
                        assert(ab.update(0, BeamView::Nested(i2, t)) =~= a.update(
                            0,
                            BeamView::Nested(i2, t),
                        ) + b);
                    },
                    None => {
                        match attach_beam(a.drop_first(), acc) {
                            Some(r) => {
                                assert(seq![ab[0]] + (r + b) =~= (seq![a[0]] + r) + b);
                            },
                            None => {
                                match attach_beam(b, acc) {
                                    Some(y) => {
                                        assert(seq![ab[0]] + (a.drop_first() + y) =~= a + y);
                                    },
                                    None => {},
                                }
                            },
                        }
                    },
                }
            },
        }
    }
}

/// The number of elements of a group, nested ones included.
pub open spec fn beams_size(s: Seq<BeamView>) -> nat
    decreases s,
{
    if s.len() == 0 {
        0
    } else {
        beams_size(s.drop_last()) + match s.last() {
            BeamView::Note(_, _) => 1nat,
            BeamView::Nested(inner, _) => 1 + beams_size(inner),
        }
    }
}

/// A nested group is smaller than any group that holds it.
pub proof fn lemma_nested_smaller(s: Seq<BeamView>, i: int)
    requires
        0 <= i < s.len(),
        s[i] is Nested,
    ensures
        beams_size(s[i]->Nested_0) < beams_size(s),
    decreases s.len(),
{
    if i < s.len() - 1 {
        lemma_nested_smaller(s.drop_last(), i);
    }
}

/// Puts `acc` on the first note of the group, searching nested groups in
/// order; reports whether a note was found (the group is unchanged if not).
pub fn attach_accidental_to_beam(elements: &mut Vec<BeamElement>, acc: Accidental) -> (r: bool)
    ensures
        match attach_beam(beams_view(old(elements)@), acc) {
            Some(x) => r && beams_view(final(elements)@) == x,
            None => !r && beams_view(final(elements)@) == beams_view(old(elements)@),
        },
    decreases beams_size(beams_view(old(elements)@)),
{
    let n = elements.len();
    let mut i: usize = 0;
    while i < n
        invariant
            n == elements@.len(),
            beams_view(elements@) == beams_view(old(elements)@),
            i <= n,
            attach_beam(beams_view(old(elements)@).take(i as int), acc) is None,
        decreases n - i,
    {
        let ghost bv = beams_view(old(elements)@);
        let ghost pre = bv.take(i as int);
        let ghost post = bv.skip(i as int);
        proof {
            lemma_attach_concat(pre, post, acc);
            assert(pre + post =~= bv);
            assert(post[0] == bv[i as int]);
            assert(post.drop_first() =~= bv.skip(i + 1));
            lemma_attach_concat(pre, seq![post[0]], acc);
            assert(bv.take(i + 1) =~= pre + seq![post[0]]);
            assert(seq![post[0]].drop_first() =~= Seq::<BeamView>::empty());
        }
        let ghost before = elements@;
        let e = elements.remove(i);
        proof {
            assert(beam_view(e) == bv[i as int]);
        }
        match e {
            BeamElement::Note(nt, t) => {
                let n2 = Note {
                    pitch: nt.pitch,
                    octave: nt.octave,
                    duration: nt.duration,
                    dotted: nt.dotted,
                    accidental: Some(acc),
                };
                elements.insert(i, BeamElement::Note(n2, t));
                proof {
                    assert(beams_view(elements@) =~= pre + post.update(
                        0,
                        BeamView::Note(with_acc(nt, acc), t),
                    ));
                }
                return true;
            },
            BeamElement::Nested(inner, t) => {
                let mut inner = inner;
                proof {
                    lemma_nested_smaller(bv, i as int);
                }
                let ok = attach_accidental_to_beam(&mut inner, acc);
                elements.insert(i, BeamElement::Nested(inner, t));
                if ok {
                    proof {
                        let i2 = attach_beam(bv[i as int]->Nested_0, acc)->0;
                        assert(beams_view(elements@) =~= pre + post.update(
                            0,
                            BeamView::Nested(i2, t),
                        ));
                    }
                    return true;
                }
                proof {
                    assert(beams_view(elements@) =~= beams_view(before));
                    assert(attach_beam(bv[i as int]->Nested_0, acc) is None);
                    assert(seq![post[0]].drop_first() =~= Seq::<BeamView>::empty());
                    assert(attach_beam(seq![post[0]].drop_first(), acc) is None);
                    assert(seq![post[0]][0] == bv[i as int]);
                    assert(attach_beam(seq![post[0]], acc) is None);
                }
            },
        }
        i = i + 1;
    }
    proof {
        assert(beams_view(old(elements)@).take(n as int) =~= beams_view(old(elements)@));
    }
    false
}

/// Marks every element as tight except the first, at every depth (the space
/// inside a grace group is ignored).
pub fn make_beam_compact(elements: &mut Vec<BeamElement>)
    ensures
        beams_view(final(elements)@) == compact(beams_view(old(elements)@)),
    decreases old(elements)@,
{
    let n = elements.len();
    let mut i: usize = 0;
    while i < n
        invariant
            n == elements@.len(),
            n == old(elements)@.len(),
            i <= n,
            forall|j: int|
                0 <= j < i ==> beam_view(#[trigger] elements@[j]) == compact_elem(
                    beam_view(old(elements)@[j]),
                    j > 0,
                ),
            forall|j: int| i <= j < n ==> #[trigger] elements@[j] == old(elements)@[j],
        decreases n - i,
    {
        let ghost before = elements@;
        let e = elements.remove(i);
        proof {
            assert(e == old(elements)@[i as int]);
        }
        let e2 = match e {
            BeamElement::Note(nt, _) => BeamElement::Note(nt, i > 0),
            BeamElement::Nested(inner, _) => {
                let mut inner = inner;
                proof {
                    assert(decreases_to!(old(elements)@ => old(elements)@[i as int]));
                }
                make_beam_compact(&mut inner);
                BeamElement::Nested(inner, i > 0)
            },
        };
        elements.insert(i, e2);
        proof {
            assert(elements@ =~= before.update(i as int, e2));
        }
        i = i + 1;
    }
    proof {
        assert(beams_view(elements@) =~= compact(beams_view(old(elements)@)));
    }
}

// ------------------------------------------------------------------
// Extraction
// ------------------------------------------------------------------

fn note_with_acc(n: Note, a: Accidental) -> (r: Note)
    ensures
        r == with_acc(n, a),
{
    Note {
        pitch: n.pitch,
        octave: n.octave,
        duration: n.duration,
        dotted: n.dotted,
        accidental: Some(a),
    }
}

fn accidental_of_name(name: &Vec<char>) -> (r: Option<Accidental>)
    ensures
        r == accidental_of(name@),
{
    if chars_eq_str(name, "sharp") {
        Some(Accidental::Sharp)
    } else if chars_eq_str(name, "flat") {
        Some(Accidental::Flat)
    } else if chars_eq_str(name, "nat") || chars_eq_str(name, "natural") {
        Some(Accidental::Natural)
    } else {
        None
    }
}

/// The notes of a chord's children, nested chords included.
fn chord_notes_exec(ch: &Vec<Syntax>, d: u32) -> (r: Vec<Note>)
    ensures
        r@ == chord_notes(trees_of(ch@), d as nat),
    decreases ch@,
{
    let mut notes: Vec<Note> = Vec::new();
    let mut i: usize = 0;
    while i < ch.len()
        invariant
            i <= ch@.len(),
            notes@ == chord_notes(trees_of(ch@).take(i as int), d as nat),
        decreases ch@.len() - i,
    {
        let ghost tv = trees_of(ch@);
        proof {
            assert(tv.take(i + 1).drop_last() =~= tv.take(i as int));
            assert(tv.take(i + 1).last() == tree_of(ch@[i as int]));
        }
        match &ch[i] {
            Syntax::Note { pitch, octave, dotted } => {
                notes.push(
                    Note {
                        pitch: *pitch,
                        octave: *octave,
                        duration: d,
                        dotted: *dotted,
                        accidental: None,
                    },
                );
            },
            Syntax::Chord(inner) => {
                proof {
                    assert(decreases_to!(ch@ => ch@[i as int]));
                }
                let mut sub = chord_notes_exec(inner, d);
                notes.append(&mut sub);
            },
            _ => {},
        }
        i = i + 1;
        proof {
            assert(notes@ =~= chord_notes(tv.take(i as int), d as nat));
        }
    }
    proof {
        assert(trees_of(ch@).take(i as int) =~= trees_of(ch@));
    }
    notes
}

pub open spec fn opt_notes(r: Option<Vec<Note>>) -> Option<Seq<Note>> {
    match r {
        Some(v) => Some(v@),
        None => None,
    }
}

/// The notes of a tie when it holds only notes (white space and dots aside).
fn try_extract_slur(ch: &Vec<Syntax>, d: u32) -> (r: Option<Vec<Note>>)
    ensures
        opt_notes(r) == slur_notes(trees_of(ch@), d as nat),
{
    let mut notes: Vec<Note> = Vec::new();
    let mut i: usize = 0;
    while i < ch.len()
        invariant
            i <= ch@.len(),
            slur_notes(trees_of(ch@).take(i as int), d as nat) == Some(notes@),
        decreases ch@.len() - i,
    {
        let ghost tv = trees_of(ch@);
        proof {
            assert(tv.take(i + 1).drop_last() =~= tv.take(i as int));
            assert(tv.take(i + 1).last() == tree_of(ch@[i as int]));
        }
        match &ch[i] {
            Syntax::Note { pitch, octave, dotted } => {
                notes.push(
                    Note {
                        pitch: *pitch,
                        octave: *octave,
                        duration: d,
                        dotted: *dotted,
                        accidental: None,
                    },
                );
            },
            Syntax::Space => {},
            Syntax::Dot => {},
            _ => {
                proof {
                    lemma_slur_none(tv, i + 1, d as nat);
                    assert(tv.take(tv.len() as int) =~= tv);
                }
                return None;
            },
        }
        i = i + 1;
    }
    proof {
        assert(trees_of(ch@).take(i as int) =~= trees_of(ch@));
    }
    Some(notes)
}

proof fn lemma_slur_none(t: Seq<Tree>, k: int, d: nat)
    requires
        0 <= k <= t.len(),
        slur_notes(t.take(k), d) is None,
    ensures
        slur_notes(t.take(t.len() as int), d) is None,
    decreases t.len() - k,
{
    if k < t.len() {
        assert(t.take(k + 1).drop_last() =~= t.take(k));
        lemma_slur_none(t, k + 1, d);
    }
}

proof fn lemma_beam_fold_none(t: Seq<Tree>, k: int, d: nat)
    requires
        0 <= k <= t.len(),
        beam_fold(t.take(k), d) is None,
    ensures
        beam_fold(t, d) is None,
    decreases t.len() - k,
{
    if k < t.len() {
        assert(t.take(k + 1).drop_last() =~= t.take(k));
        lemma_beam_fold_none(t, k + 1, d);
    } else {
        assert(t.take(k) =~= t);
    }
}

/// How many notes, chords, beams and slurs there are.
fn count_music_exec(pe: &Vec<ScoreEvent>) -> (r: usize)
    ensures
        r as nat == count_music(events_view(pe@)),
{
    let mut n: usize = 0;
    let mut i: usize = 0;
    while i < pe.len()
        invariant
            i <= pe@.len(),
            n <= i,
            n as nat == count_music(events_view(pe@).take(i as int)),
        decreases pe@.len() - i,
    {
        let ghost ev = events_view(pe@);
        proof {
            assert(ev.take(i + 1).drop_last() =~= ev.take(i as int));
            assert(ev.take(i + 1).last() == pe@[i as int]@);
        }
        match &pe[i] {
            ScoreEvent::Note(_) | ScoreEvent::Chord(_) | ScoreEvent::Beam(_) | ScoreEvent::Slur(_) => {
                n = n + 1;
            },
            _ => {},
        }
        i = i + 1;
    }
    proof {
        assert(events_view(pe@).take(i as int) =~= events_view(pe@));
    }
    n
}

/// The grace group of a parameter's events.
fn grace_elements(pe: &Vec<ScoreEvent>) -> (r: Vec<BeamElement>)
    ensures
        beams_view(r@) == grace_fold(events_view(pe@)),
{
    let mut out: Vec<BeamElement> = Vec::new();
    let mut i: usize = 0;
    while i < pe.len()
        invariant
            i <= pe@.len(),
            beams_view(out@) == grace_fold(events_view(pe@).take(i as int)),
        decreases pe@.len() - i,
    {
        let ghost ev = events_view(pe@);
        proof {
            assert(ev.take(i + 1).drop_last() =~= ev.take(i as int));
            assert(ev.take(i + 1).last() == pe@[i as int]@);
        }
        let ghost before = out@;
        match &pe[i] {
            ScoreEvent::Note(n) => {
                out.push(BeamElement::Note(*n, false));
                proof {
                    lemma_beams_push(before, BeamElement::Note(*n, false));
                }
            },
            ScoreEvent::Beam(inner) => {
                let mut c = copy_beam(inner);
                make_beam_compact(&mut c);
                let x = BeamElement::Nested(c, false);
                out.push(x);
                proof {
                    lemma_beams_push(before, x);
                }
            },
            _ => {},
        }
        i = i + 1;
        proof {
            assert(beams_view(out@) =~= grace_fold(ev.take(i as int)));
        }
    }
    proof {
        assert(events_view(pe@).take(i as int) =~= events_view(pe@));
    }
    out
}

/// Puts the accidental on the first note of the first event that has notes.
fn attach_events(pe: &mut Vec<ScoreEvent>, a: Accidental)
    ensures
        events_view(final(pe)@) == attach_fold(events_view(old(pe)@), a).0,
{
    let n = pe.len();
    let mut attached = false;
    let mut i: usize = 0;
    while i < n
        invariant
            n == pe@.len(),
            n == old(pe)@.len(),
            i <= n,
            events_view(pe@).take(i as int) == attach_fold(events_view(old(pe)@).take(i as int), a).0,
            attached == attach_fold(events_view(old(pe)@).take(i as int), a).1,
            forall|j: int| i <= j < n ==> #[trigger] pe@[j] == old(pe)@[j],
        decreases n - i,
    {
        let ghost ov = events_view(old(pe)@);
        let ghost before = pe@;
        proof {
            assert(ov.take(i + 1).drop_last() =~= ov.take(i as int));
            assert(ov.take(i + 1).last() == old(pe)@[i as int]@);
        }
        if !attached {
            let e = pe.remove(i);
            let e2 = match e {
                ScoreEvent::Note(nt) => {
                    attached = true;
                    ScoreEvent::Note(note_with_acc(nt, a))
                },
                ScoreEvent::Chord(ns) => {
                    let mut ns = ns;
                    if ns.len() > 0 {
                        let first = note_with_acc(ns[0], a);
                        ns.set(0, first);
                        attached = true;
                    }
                    ScoreEvent::Chord(ns)
                },
                ScoreEvent::Beam(els) => {
                    let mut els = els;
                    attached = attach_accidental_to_beam(&mut els, a);
                    ScoreEvent::Beam(els)
                },
                ScoreEvent::Slur(ns) => {
                    let mut ns = ns;
                    if ns.len() > 0 {
                        let first = note_with_acc(ns[0], a);
                        ns.set(0, first);
                        attached = true;
                    }
                    ScoreEvent::Slur(ns)
                },
                other => other,
            };
            pe.insert(i, e2);
            proof {
                assert(pe@ =~= before.update(i as int, e2));
                assert(e2@ == attach_one(ov[i as int], a, false).0);
                assert(events_view(pe@).take(i + 1) =~= events_view(before).take(i as int).push(e2@));
            }
        } else {
            proof {
                assert(events_view(pe@).take(i + 1) =~= events_view(pe@).take(i as int).push(pe@[i as int]@));
            }
        }
        i = i + 1;
    }
    proof {
        assert(events_view(pe@).take(n as int) =~= events_view(pe@));
        assert(events_view(old(pe)@).take(n as int) =~= events_view(old(pe)@));
    }
}

/// The beam elements an accidental control adds inside a bracket.
fn acc_elements_exec(pe: &Vec<ScoreEvent>, a: Accidental, tight: bool) -> (r: Vec<BeamElement>)
    ensures
        beams_view(r@) == acc_elements(events_view(pe@), a, tight).0,
{
    let mut out: Vec<BeamElement> = Vec::new();
    let mut attached = false;
    let mut i: usize = 0;
    while i < pe.len()
        invariant
            i <= pe@.len(),
            beams_view(out@) == acc_elements(events_view(pe@).take(i as int), a, tight).0,
            attached == acc_elements(events_view(pe@).take(i as int), a, tight).1,
        decreases pe@.len() - i,
    {
        let ghost ev = events_view(pe@);
        proof {
            assert(ev.take(i + 1).drop_last() =~= ev.take(i as int));
            assert(ev.take(i + 1).last() == pe@[i as int]@);
        }
        let ghost before = out@;
        match &pe[i] {
            ScoreEvent::Note(nt) => {
                let x = if !attached {
                    BeamElement::Note(note_with_acc(*nt, a), tight)
                } else {
                    BeamElement::Note(*nt, false)
                };
                out.push(x);
                attached = true;
                proof {
                    lemma_beams_push(before, x);
                }
            },
            ScoreEvent::Beam(nested) => {
                let mut c = copy_beam(nested);
                let x = if !attached {
                    attach_accidental_to_beam(&mut c, a);
                    BeamElement::Nested(c, tight)
                } else {
                    BeamElement::Nested(c, false)
                };
                out.push(x);
                attached = true;
                proof {
                    lemma_beams_push(before, x);
                }
            },
            _ => {},
        }
        i = i + 1;
    }
    proof {
        assert(events_view(pe@).take(i as int) =~= events_view(pe@));
    }
    out
}

pub open spec fn opt_beams(r: Option<Vec<BeamElement>>) -> Option<Seq<BeamView>> {
    match r {
        Some(v) => Some(beams_view(v@)),
        None => None,
    }
}

/// Reads a bracket's children as a beam group at duration `d`.
fn try_extract_beam(ch: &Vec<Syntax>, d: u32) -> (r: Option<Vec<BeamElement>>)
    requires
        fits_seq(trees_of(ch@), d as nat),
    ensures
        opt_beams(r) == beam_result(beam_fold(trees_of(ch@), d as nat)),
    decreases ch@,
{
    let mut elements: Vec<BeamElement> = Vec::new();
    let mut prev_space = true;
    let mut i: usize = 0;
    proof {
        assert(trees_of(ch@).take(0) =~= Seq::<Tree>::empty());
        assert(beams_view(elements@) =~= Seq::<BeamView>::empty());
    }
    while i < ch.len()
        invariant
            i <= ch@.len(),
            fits_seq(trees_of(ch@), d as nat),
            beam_fold(trees_of(ch@).take(i as int), d as nat) == Some(
                (prev_space, beams_view(elements@)),
            ),
        decreases ch@.len() - i,
    {
        let ghost tv = trees_of(ch@);
        let ghost before = elements@;
        proof {
            assert(tv.take(i + 1).drop_last() =~= tv.take(i as int));
            assert(tv.take(i + 1).last() == tree_of(ch@[i as int]));
            assert(tv[i as int] == tree_of(ch@[i as int]));
            assert(fits(tv[i as int], d as nat));
        }
        match &ch[i] {
            Syntax::Space => {
                prev_space = true;
            },
            Syntax::Note { pitch, octave, dotted } => {
                let x = BeamElement::Note(
                    Note { pitch: *pitch, octave: *octave, duration: d, dotted: *dotted, accidental: None },
                    !prev_space,
                );
                elements.push(x);
                prev_space = false;
                proof {
                    lemma_beams_push(before, x);
                }
            },
            Syntax::Bracket(inner) => {
                proof {
                    assert(decreases_to!(ch@ => ch@[i as int]));
                }
                let sub = d * 2;
                match try_extract_beam(inner, sub) {
                    Some(nested) => {
                        let x = BeamElement::Nested(nested, !prev_space);
                        elements.push(x);
                        prev_space = false;
                        proof {
                            lemma_beams_push(before, x);
                        }
                    },
                    None => {
                        proof {
                            assert(tv[i as int] == Tree::Bracket(trees_of(inner@)));
                            assert(sub as nat == 2 * (d as nat));
                            assert(beam_step(prev_space, beams_view(before), tv[i as int], d as nat)
                                is None);
                            lemma_beam_fold_none(tv, i + 1, d as nat);
                        }
                        return None;
                    },
                }
            },
            Syntax::Control { name, value, param } => {
                match accidental_of_name(name) {
                    Some(a) => {
                        proof {
                            assert(decreases_to!(ch@ => ch@[i as int]));
                        }
                        let mut pe: Vec<ScoreEvent> = Vec::new();
                        extract_seq_into(param, &mut pe, d);
                        proof {
                            assert(events_view(pe@) =~= extract_seq(trees_of(param@), d as nat));
                        }
                        let mut add = acc_elements_exec(&pe, a, !prev_space);
                        proof {
                            lemma_beams_concat(elements@, add@);
                        }
                        elements.append(&mut add);
                        prev_space = false;
                    },
                    None => {
                        proof {
                            assert(tv[i as int] == Tree::Control {
                                name: name@,
                                value: value@,
                                param: trees_of(param@),
                            });
                            assert(beam_step(prev_space, beams_view(before), tv[i as int], d as nat)
                                is None);
                            lemma_beam_fold_none(tv, i + 1, d as nat);
                        }
                        return None;
                    },
                }
            },
            Syntax::Dot => {},
            _ => {
                proof {
                    lemma_beam_fold_none(tv, i + 1, d as nat);
                }
                return None;
            },
        }
        i = i + 1;
    }
    proof {
        assert(trees_of(ch@).take(i as int) =~= trees_of(ch@));
    }
    if elements.len() > 0 {
        Some(elements)
    } else {
        None
    }
}

/// Appends the events of the nodes `ts` at duration `d`.
pub fn extract_seq_into(ts: &Vec<Syntax>, events: &mut Vec<ScoreEvent>, d: u32)
    requires
        fits_seq(trees_of(ts@), d as nat),
    ensures
        events_view(final(events)@) == events_view(old(events)@) + extract_seq(
            trees_of(ts@),
            d as nat,
        ),
    decreases ts@,
{
    let mut i: usize = 0;
    proof {
        assert(events_view(events@) + extract_seq(trees_of(ts@).take(0), d as nat) =~= events_view(
            events@,
        ));
    }
    while i < ts.len()
        invariant
            i <= ts@.len(),
            fits_seq(trees_of(ts@), d as nat),
            events_view(events@) == events_view(old(events)@) + extract_seq(
                trees_of(ts@).take(i as int),
                d as nat,
            ),
        decreases ts@.len() - i,
    {
        let ghost tv = trees_of(ts@);
        proof {
            assert(tv.take(i + 1).drop_last() =~= tv.take(i as int));
            assert(tv.take(i + 1).last() == tree_of(ts@[i as int]));
            assert(tv[i as int] == tree_of(ts@[i as int]));
            assert(fits(tv[i as int], d as nat));
            assert(decreases_to!(ts@ => ts@[i as int]));
        }
        extract_events(&ts[i], events, d);
        i = i + 1;
        proof {
            assert(events_view(events@) =~= events_view(old(events)@) + extract_seq(
                tv.take(i as int),
                d as nat,
            ));
        }
    }
    proof {
        assert(trees_of(ts@).take(i as int) =~= trees_of(ts@));
    }
}

/// Appends the events that node `t` stands for at duration `d`.
pub fn extract_events(t: &Syntax, events: &mut Vec<ScoreEvent>, d: u32)
    requires
        fits(t@, d as nat),
    ensures
        events_view(final(events)@) == events_view(old(events)@) + extract(t@, d as nat),
    decreases t,
{
    let ghost before = events@;
    match t {
        Syntax::Note { pitch, octave, dotted } => {
            let x = ScoreEvent::Note(
                Note { pitch: *pitch, octave: *octave, duration: d, dotted: *dotted, accidental: None },
            );
            events.push(x);
            proof {
                lemma_events_push(before, x);
            }
        },
        Syntax::Chord(ch) => {
            let ns = chord_notes_exec(ch, d);
            if ns.len() > 0 {
                let x = ScoreEvent::Chord(ns);
                events.push(x);
                proof {
                    lemma_events_push(before, x);
                }
            } else {
                proof {
                    assert(events_view(before) + Seq::<EventView>::empty() =~= events_view(before));
                }
            }
        },
        Syntax::Bracket(ch) => {
            let sub = d * 2;
            match try_extract_beam(ch, sub) {
                Some(els) => {
                    let x = ScoreEvent::Beam(els);
                    events.push(x);
                    proof {
                        lemma_events_push(before, x);
                    }
                },
                None => {
                    extract_seq_into(ch, events, sub);
                },
            }
        },
        Syntax::Tie(ch) => {
            match try_extract_slur(ch, d) {
                Some(ns) => {
                    if ns.len() > 0 {
                        let x = ScoreEvent::Slur(ns);
                        events.push(x);
                        proof {
                            lemma_events_push(before, x);
                        }
                    } else {
                        extract_seq_into(ch, events, d);
                    }
                },
                None => {
                    extract_seq_into(ch, events, d);
                },
            }
        },
        Syntax::Control { name, value, param } => {
            extract_control(name, value, param, events, d);
        },
        Syntax::Barline(b) => {
            let x = ScoreEvent::Barline(*b);
            events.push(x);
            proof {
                lemma_events_push(before, x);
            }
        },
        Syntax::Extend => {
            let x = ScoreEvent::Extend;
            events.push(x);
            proof {
                lemma_events_push(before, x);
            }
        },
        _ => {
            proof {
                assert(events_view(before) + Seq::<EventView>::empty() =~= events_view(before));
            }
        },
    }
}

/// Appends the events of a control with the given name, value and parameter.
fn extract_control(
    name: &Vec<char>,
    value: &Vec<char>,
    param: &Vec<Syntax>,
    events: &mut Vec<ScoreEvent>,
    d: u32,
)
    requires
        d <= u32::MAX,
        reads_param(name@) ==> fits_seq(trees_of(param@), d as nat),
    ensures
        events_view(final(events)@) == events_view(old(events)@) + control_events(
            name@,
            value@,
            extract_seq(trees_of(param@), d as nat),
        ),
    decreases param,
{
    let ghost before = events@;
    let is_cresc = chars_eq_str(name, "cresc") || chars_eq_str(name, "dim");
    let is_grace = chars_eq_str(name, "grace");
    match accidental_of_name(name) {
        Some(a) => {
            let mut pe: Vec<ScoreEvent> = Vec::new();
            extract_seq_into(param, &mut pe, d);
            proof {
                assert(events_view(pe@) =~= extract_seq(trees_of(param@), d as nat));
            }
            attach_events(&mut pe, a);
            let ghost pv = pe@;
            events.append(&mut pe);
            proof {
                lemma_events_concat(before, pv);
            }
        },
        None => {
            if is_cresc {
                let mut pe: Vec<ScoreEvent> = Vec::new();
                extract_seq_into(param, &mut pe, d);
                proof {
                    assert(events_view(pe@) =~= extract_seq(trees_of(param@), d as nat));
                }
                let n = count_music_exec(&pe);
                let x = ScoreEvent::Control(string_from_chars(name), decimal_string(n as u64));
                events.push(x);
                let ghost mid = events@;
                let ghost pv = pe@;
                events.append(&mut pe);
                proof {
                    lemma_events_push(before, x);
                    lemma_events_concat(mid, pv);
                    assert(events_view(events@) =~= events_view(before) + (seq![x@] + events_view(pv)));
                }
            } else if is_grace {
                let mut pe: Vec<ScoreEvent> = Vec::new();
                extract_seq_into(param, &mut pe, d);
                proof {
                    assert(events_view(pe@) =~= extract_seq(trees_of(param@), d as nat));
                }
                let g = grace_elements(&pe);
                if g.len() > 0 {
                    let x = ScoreEvent::Grace(g);
                    events.push(x);
                    proof {
                        lemma_events_push(before, x);
                    }
                } else {
                    proof {
                        assert(events_view(before) + Seq::<EventView>::empty() =~= events_view(before));
                    }
                }
            } else {
                let x = ScoreEvent::Control(string_from_chars(name), string_from_chars(value));
                events.push(x);
                proof {
                    lemma_events_push(before, x);
                }
            }
        },
    }
}

} // verus!

verus! {

// ------------------------------------------------------------------
// Laws
// ------------------------------------------------------------------

proof fn lemma_flatten_cons(x: BeamView, rest: Seq<BeamView>)
    ensures
        flatten(seq![x] + rest) == match x {
            BeamView::Note(n, _) => seq![n],
            BeamView::Nested(inner, _) => flatten(inner),
        } + flatten(rest),
{
    crate::parser::model::lemma_flatten_concat(seq![x], rest);
    assert(seq![x].drop_last() =~= Seq::<BeamView>::empty());
    assert(flatten(Seq::<BeamView>::empty()) == Seq::<Note>::empty());
    assert(Seq::<Note>::empty() + match x {
        BeamView::Note(n, _) => seq![n],
        BeamView::Nested(inner, _) => flatten(inner),
    } =~= match x {
        BeamView::Note(n, _) => seq![n],
        BeamView::Nested(inner, _) => flatten(inner),
    });
}

/// Attaching an accidental to a beam group fails exactly when the group has
/// no note; otherwise the group's notes are unchanged but for the first,
/// which carries the accidental.
pub proof fn lemma_attach_first_note(s: Seq<BeamView>, a: Accidental)
    ensures
        attach_beam(s, a) is None <==> flatten(s).len() == 0,
        attach_beam(s, a) matches Some(x) ==> flatten(x) == flatten(s).update(
            0,
            with_acc(flatten(s)[0], a),
        ),
    decreases s,
{
    if s.len() == 0 {
    } else {
        let rest = s.drop_first();
        assert(s =~= seq![s[0]] + rest);
        lemma_flatten_cons(s[0], rest);
        assert(decreases_to!(s => s[0]));
        lemma_attach_first_note(rest, a);
        match s[0] {
            BeamView::Note(n, t) => {
                let y = BeamView::Note(with_acc(n, a), t);
                assert(s.update(0, y) =~= seq![y] + rest);
                lemma_flatten_cons(y, rest);
                assert(flatten(s.update(0, y)) =~= flatten(s).update(0, with_acc(flatten(s)[0], a)));
            },
            BeamView::Nested(inner, t) => {
                lemma_attach_first_note(inner, a);
                match attach_beam(inner, a) {
                    Some(i2) => {
                        let y = BeamView::Nested(i2, t);
                        assert(s.update(0, y) =~= seq![y] + rest);
                        lemma_flatten_cons(y, rest);
                        assert(flatten(s.update(0, y)) =~= flatten(s).update(
                            0,
                            with_acc(flatten(s)[0], a),
                        ));
                    },
                    None => {
                        assert(flatten(s) =~= flatten(rest));
                        match attach_beam(rest, a) {
                            Some(r) => {
                                lemma_flatten_cons(s[0], r);
                                assert(flatten(seq![s[0]] + r) =~= flatten(s).update(
                                    0,
                                    with_acc(flatten(s)[0], a),
                                ));
                            },
                            None => {},
                        }
                    },
                }
            },
        }
    }
}

/// Every tight flag cleared, at every depth.
pub open spec fn loosen(s: Seq<BeamView>) -> Seq<BeamView>
    decreases s,
{
    Seq::new(
        s.len(),
        |i: int|
            if 0 <= i < s.len() {
                loosen_elem(s[i])
            } else {
                s[0]
            },
    )
}

pub open spec fn loosen_elem(e: BeamView) -> BeamView
    decreases e,
{
    match e {
        BeamView::Note(n, _) => BeamView::Note(n, false),
        BeamView::Nested(inner, _) => BeamView::Nested(loosen(inner), false),
    }
}

/// Compacting a group ignores how it was spaced: a group and the same group
/// with every flag cleared compact alike.
pub proof fn lemma_compact_ignores_spacing(s: Seq<BeamView>)
    ensures
        compact(s) == compact(loosen(s)),
    decreases s,
{
    assert forall|i: int| 0 <= i < s.len() implies #[trigger] compact(s)[i] == compact(loosen(s))[i] by {
        assert(decreases_to!(s => s[i]));
        match s[i] {
            BeamView::Nested(inner, _) => {
                assert(decreases_to!(s[i] => inner));
                lemma_compact_ignores_spacing(inner);
            },
            _ => {},
        }
    }
    assert(compact(s) =~= compact(loosen(s)));
}

/// Compacting a group keeps its notes and their order.
pub proof fn lemma_compact_keeps_notes(s: Seq<BeamView>)
    ensures
        flatten(compact(s)) == flatten(s),
    decreases s,
{
    if s.len() > 0 {
        assert(compact(s).drop_last() =~= compact(s.drop_last()));
        lemma_compact_keeps_notes(s.drop_last());
        match s.last() {
            BeamView::Nested(inner, _) => {
                assert(decreases_to!(s => s.last()));
                lemma_compact_keeps_notes(inner);
            },
            _ => {},
        }
    }
}

/// The notes written between a chord's braces, in order, each as its pitch,
/// octave shift and dot; the notes of a nested chord stand where it stands.
pub open spec fn written_notes(ch: Seq<Tree>) -> Seq<(u8, i8, bool)>
    decreases ch,
{
    if ch.len() == 0 {
        seq![]
    } else {
        written_notes(ch.drop_last()) + match ch.last() {
            Tree::Note { pitch, octave, dotted } => seq![(pitch, octave, dotted)],
            Tree::Chord(inner) => written_notes(inner),
            _ => seq![],
        }
    }
}

/// The pitch, octave shift and dot written for a note of the grammar.
pub open spec fn written(t: Tree) -> (u8, i8, bool) {
    (t->pitch, t->octave, t->dotted)
}

/// Every note of an extracted chord carries what was written for it: the
/// `k`-th note of the chord is the `k`-th note written between the braces,
/// with its pitch, its octave shift and its dot, at the chord's duration and
/// with no accidental. In a chord without nested chords the notes written are
/// the note children, in order.
pub proof fn lemma_chord_keeps_notes(ch: Seq<Tree>, d: nat)
    ensures
        chord_notes(ch, d).len() == written_notes(ch).len(),
        forall|k: int|
            0 <= k < chord_notes(ch, d).len() ==> #[trigger] chord_notes(ch, d)[k] == (Note {
                pitch: written_notes(ch)[k].0,
                octave: written_notes(ch)[k].1,
                duration: d as u32,
                dotted: written_notes(ch)[k].2,
                accidental: None,
            }),
        (forall|i: int| 0 <= i < ch.len() ==> !(#[trigger] ch[i] is Chord)) ==> written_notes(ch)
            == ch.filter(|t: Tree| t is Note).map_values(|t: Tree| written(t)),
    decreases ch,
{
    if ch.len() > 0 {
        let init = ch.drop_last();
        lemma_chord_keeps_notes(init, d);
        let a = chord_notes(init, d);
        let wa = written_notes(init);
        match ch.last() {
            Tree::Chord(inner) => {
                assert(decreases_to!(ch => ch[ch.len() - 1]));
                lemma_chord_keeps_notes(inner, d);
            },
            _ => {},
        }
        let b = chord_notes(ch, d).subrange(a.len() as int, chord_notes(ch, d).len() as int);
        let wb = written_notes(ch).subrange(wa.len() as int, written_notes(ch).len() as int);
        assert forall|k: int| 0 <= k < chord_notes(ch, d).len() implies #[trigger] chord_notes(ch, d)[k]
            == (Note {
            pitch: written_notes(ch)[k].0,
            octave: written_notes(ch)[k].1,
            duration: d as u32,
            dotted: written_notes(ch)[k].2,
            accidental: None,
        }) by {
            if k < a.len() {
                assert(chord_notes(ch, d)[k] == a[k]);
                assert(written_notes(ch)[k] == wa[k]);
            } else {
                match ch.last() {
                    Tree::Chord(inner) => {
                        assert(chord_notes(ch, d)[k] == chord_notes(inner, d)[k - a.len()]);
                        assert(written_notes(ch)[k] == written_notes(inner)[k - wa.len()]);
                    },
                    _ => {},
                }
            }
        }
        if forall|i: int| 0 <= i < ch.len() ==> !(#[trigger] ch[i] is Chord) {
            assert forall|i: int| 0 <= i < init.len() implies !(#[trigger] init[i] is Chord) by {
                assert(init[i] == ch[i]);
            }
            assert(!(ch[ch.len() - 1] is Chord));
            reveal(Seq::filter);
            let f = |t: Tree| t is Note;
            let g = |t: Tree| written(t);
            if ch.last() is Note {
                assert(ch.filter(f) == init.filter(f).push(ch.last()));
                assert(ch.filter(f).map_values(g) =~= init.filter(f).map_values(g).push(
                    written(ch.last()),
                ));
            } else {
                assert(ch.filter(f) == init.filter(f));
                assert(written_notes(ch) =~= wa);
            }
        }
    }
}

} // verus!
