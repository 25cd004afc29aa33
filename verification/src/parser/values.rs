//! Note values: the only thing that changes a duration is a bracket, which
//! halves the note value, so every note a bracket yields is its context's
//! value halved at least once, and every note of a score is a quarter halved
//! some number of times.
use vstd::prelude::*;

use crate::parser::extract::{
    acc_elements, attach_beam, attach_fold, attach_one, beam_fold, beam_result, beam_step,
    chord_notes, compact, control_events, extract, extract_seq, fits, fits_seq, grace_fold,
    lemma_attach_first_note, lemma_compact_keeps_notes, mk_note, slur_notes, with_acc,
};
use crate::parser::grammar::{Tree, parse_file};
use crate::parser::model::{BeamView, EventView, Note, flatten, lemma_flatten_concat};
use crate::parser::score::{base_duration, recover, score_events, score_fits};
use crate::text::{lines, trim};

verus! {

/// Whether the note value of duration `d` is that of `base` halved some
/// number of times: `d` is `base`, `2 * base`, `4 * base`, ...
pub open spec fn halved(d: nat, base: nat) -> bool
    decreases d,
{
    if d == base {
        true
    } else if d < base || d % 2 == 1 {
        false
    } else {
        halved(d / 2, base)
    }
}

proof fn lemma_halved_ge(d: nat, base: nat)
    requires
        halved(d, base),
    ensures
        d >= base,
    decreases d,
{
    if d != base {
        lemma_halved_ge(d / 2, base);
    }
}

/// Halving a value that is `base` halved gives one too.
proof fn lemma_halved_double(d: nat, base: nat)
    requires
        halved(d, base),
        base > 0,
    ensures
        halved(2 * d, base),
{
    lemma_halved_ge(d, base);
    assert((2 * d) / 2 == d);
}

/// Whether every note of `ns` has a duration that is `base` halved.
pub open spec fn values_ok(ns: Seq<Note>, base: nat) -> bool {
    forall|i: int| 0 <= i < ns.len() ==> halved(#[trigger] ns[i].duration as nat, base)
}

/// The notes an event carries.
pub open spec fn event_notes(e: EventView) -> Seq<Note> {
    match e {
        EventView::Note(n) => seq![n],
        EventView::Chord(ns) => ns,
        EventView::Slur(ns) => ns,
        EventView::Beam(els) => flatten(els),
        EventView::Grace(els) => flatten(els),
        _ => seq![],
    }
}

/// Whether every note of every event has a duration that is `base` halved.
pub open spec fn events_ok(evs: Seq<EventView>, base: nat) -> bool {
    forall|i: int| 0 <= i < evs.len() ==> values_ok(event_notes(#[trigger] evs[i]), base)
}

proof fn lemma_events_ok_concat(x: Seq<EventView>, y: Seq<EventView>, base: nat)
    requires
        events_ok(x, base),
        events_ok(y, base),
    ensures
        events_ok(x + y, base),
{
    assert forall|i: int| 0 <= i < (x + y).len() implies values_ok(
        event_notes(#[trigger] (x + y)[i]),
        base,
    ) by {
        if i < x.len() {
            assert((x + y)[i] == x[i]);
        } else {
            assert((x + y)[i] == y[i - x.len()]);
        }
    }
}

proof fn lemma_values_ok_concat(x: Seq<Note>, y: Seq<Note>, base: nat)
    requires
        values_ok(x, base),
        values_ok(y, base),
    ensures
        values_ok(x + y, base),
{
    assert forall|i: int| 0 <= i < (x + y).len() implies halved(
        #[trigger] (x + y)[i].duration as nat,
        base,
    ) by {
        if i < x.len() {
            assert((x + y)[i] == x[i]);
        } else {
            assert((x + y)[i] == y[i - x.len()]);
        }
    }
}

/// A note built at duration `d` has that duration.
proof fn lemma_mk_note_ok(pitch: u8, octave: i8, dotted: bool, d: nat, base: nat)
    requires
        halved(d, base),
        base > 0,
        d <= u32::MAX,
    ensures
        values_ok(seq![mk_note(pitch, octave, dotted, d)], base),
{
}

/// The flattened notes of a group with one more element at its end.
proof fn lemma_flatten_push(s: Seq<BeamView>, x: BeamView)
    ensures
        flatten(s.push(x)) == flatten(s) + match x {
            BeamView::Note(n, _) => seq![n],
            BeamView::Nested(inner, _) => flatten(inner),
        },
{
    assert(s.push(x).drop_last() =~= s);
}

/// An accidental changes no duration.
proof fn lemma_attach_beam_ok(s: Seq<BeamView>, a: crate::parser::model::Accidental, base: nat)
    requires
        values_ok(flatten(s), base),
    ensures
        attach_beam(s, a) matches Some(x) ==> values_ok(flatten(x), base),
{
    lemma_attach_first_note(s, a);
    if let Some(x) = attach_beam(s, a) {
        let f = flatten(s);
        assert forall|i: int| 0 <= i < flatten(x).len() implies halved(
            #[trigger] flatten(x)[i].duration as nat,
            base,
        ) by {
            assert(flatten(x)[i].duration == f[i].duration);
        }
    }
}

proof fn lemma_chord_notes_ok(ch: Seq<Tree>, d: nat, base: nat)
    requires
        halved(d, base),
        base > 0,
        d <= u32::MAX,
    ensures
        values_ok(chord_notes(ch, d), base),
    decreases ch,
{
    if ch.len() > 0 {
        lemma_chord_notes_ok(ch.drop_last(), d, base);
        match ch.last() {
            Tree::Note { pitch, octave, dotted } => {
                lemma_mk_note_ok(pitch, octave, dotted, d, base);
                lemma_values_ok_concat(
                    chord_notes(ch.drop_last(), d),
                    seq![mk_note(pitch, octave, dotted, d)],
                 base);
            },
            Tree::Chord(inner) => {
                assert(decreases_to!(ch => ch.last()));
                lemma_chord_notes_ok(inner, d, base);
                lemma_values_ok_concat(chord_notes(ch.drop_last(), d), chord_notes(inner, d), base);
            },
            _ => {
                assert(chord_notes(ch, d) =~= chord_notes(ch.drop_last(), d));
            },
        }
    }
}

proof fn lemma_slur_notes_ok(ch: Seq<Tree>, d: nat, base: nat)
    requires
        halved(d, base),
        base > 0,
        d <= u32::MAX,
    ensures
        slur_notes(ch, d) matches Some(ns) ==> values_ok(ns, base),
    decreases ch.len(),
{
    if ch.len() > 0 {
        lemma_slur_notes_ok(ch.drop_last(), d, base);
    }
}

proof fn lemma_acc_elements_ok(pe: Seq<EventView>, a: crate::parser::model::Accidental, tight: bool, base: nat)
    requires
        events_ok(pe, base),
    ensures
        values_ok(flatten(acc_elements(pe, a, tight).0), base),
    decreases pe.len(),
{
    if pe.len() > 0 {
        let init = pe.drop_last();
        assert forall|i: int| 0 <= i < init.len() implies values_ok(event_notes(#[trigger] init[i]), base) by {
            assert(init[i] == pe[i]);
        }
        lemma_acc_elements_ok(init, a, tight, base);
        let (prev, attached) = acc_elements(init, a, tight);
        let last_notes = event_notes(pe.last());
        assert(values_ok(last_notes, base));
        match pe.last() {
            EventView::Note(n) => {
                let m = if !attached {
                    with_acc(n, a)
                } else {
                    n
                };
                lemma_flatten_push(prev, BeamView::Note(m, !attached && tight));
                assert(last_notes[0] == n);
                lemma_values_ok_concat(flatten(prev), seq![m], base);
            },
            EventView::Beam(nested) => {
                let inner = if !attached {
                    match attach_beam(nested, a) {
                        Some(x) => x,
                        None => nested,
                    }
                } else {
                    nested
                };
                lemma_attach_beam_ok(nested, a, base);
                lemma_flatten_push(prev, BeamView::Nested(inner, !attached && tight));
                lemma_values_ok_concat(flatten(prev), flatten(inner), base);
            },
            _ => {},
        }
    }
}

proof fn lemma_attach_fold_ok(pe: Seq<EventView>, a: crate::parser::model::Accidental, base: nat)
    requires
        events_ok(pe, base),
    ensures
        events_ok(attach_fold(pe, a).0, base),
        attach_fold(pe, a).0.len() == pe.len(),
    decreases pe.len(),
{
    if pe.len() > 0 {
        let init = pe.drop_last();
        assert forall|i: int| 0 <= i < init.len() implies values_ok(event_notes(#[trigger] init[i]), base) by {
            assert(init[i] == pe[i]);
        }
        lemma_attach_fold_ok(init, a, base);
        let (prev, attached) = attach_fold(init, a);
        let e = pe.last();
        let (e2, _) = attach_one(e, a, attached);
        assert(values_ok(event_notes(e), base));
        assert(values_ok(event_notes(e2), base)) by {
            if !attached {
                match e {
                    EventView::Chord(ns) => {
                        if ns.len() > 0 {
                            assert forall|i: int| 0 <= i < ns.len() implies halved(
                                #[trigger] ns.update(0, with_acc(ns[0], a))[i].duration as nat,
                                base,
                            ) by {
                                assert(ns.update(0, with_acc(ns[0], a))[i].duration == ns[i].duration);
                            }
                        }
                    },
                    EventView::Slur(ns) => {
                        if ns.len() > 0 {
                            assert forall|i: int| 0 <= i < ns.len() implies halved(
                                #[trigger] ns.update(0, with_acc(ns[0], a))[i].duration as nat,
                                base,
                            ) by {
                                assert(ns.update(0, with_acc(ns[0], a))[i].duration == ns[i].duration);
                            }
                        }
                    },
                    EventView::Beam(els) => {
                        lemma_attach_beam_ok(els, a, base);
                    },
                    EventView::Note(n) => {
                        assert(event_notes(e)[0] == n);
                        assert(event_notes(e2)[0] == with_acc(n, a));
                    },
                    _ => {},
                }
            }
        }
        let r = prev.push(e2);
        assert forall|i: int| 0 <= i < r.len() implies values_ok(event_notes(#[trigger] r[i]), base) by {
            if i < prev.len() {
                assert(r[i] == prev[i]);
            }
        }
    }
}

proof fn lemma_grace_fold_ok(pe: Seq<EventView>, base: nat)
    requires
        events_ok(pe, base),
    ensures
        values_ok(flatten(grace_fold(pe)), base),
    decreases pe.len(),
{
    if pe.len() > 0 {
        let init = pe.drop_last();
        assert forall|i: int| 0 <= i < init.len() implies values_ok(event_notes(#[trigger] init[i]), base) by {
            assert(init[i] == pe[i]);
        }
        lemma_grace_fold_ok(init, base);
        let tail = match pe.last() {
            EventView::Note(n) => seq![BeamView::Note(n, false)],
            EventView::Beam(inner) => seq![BeamView::Nested(compact(inner), false)],
            _ => seq![],
        };
        lemma_flatten_concat(grace_fold(init), tail);
        assert(values_ok(event_notes(pe.last()), base));
        match pe.last() {
            EventView::Note(n) => {
                lemma_flatten_push(Seq::<BeamView>::empty(), BeamView::Note(n, false));
                assert(Seq::<BeamView>::empty().push(BeamView::Note(n, false)) =~= tail);
                assert(flatten(tail) =~= seq![n]);
                assert(event_notes(pe.last())[0] == n);
            },
            EventView::Beam(inner) => {
                lemma_flatten_push(Seq::<BeamView>::empty(), BeamView::Nested(compact(inner), false));
                assert(Seq::<BeamView>::empty().push(BeamView::Nested(compact(inner), false)) =~= tail);
                lemma_compact_keeps_notes(inner);
                assert(flatten(tail) =~= flatten(inner));
            },
            _ => {
                assert(flatten(tail) =~= Seq::<Note>::empty());
            },
        }
        lemma_values_ok_concat(flatten(grace_fold(init)), flatten(tail), base);
    }
}

proof fn lemma_control_events_ok(name: Seq<char>, value: Seq<char>, pe: Seq<EventView>, base: nat)
    requires
        events_ok(pe, base),
    ensures
        events_ok(control_events(name, value, pe), base),
{
    match crate::parser::extract::accidental_of(name) {
        Some(a) => {
            lemma_attach_fold_ok(pe, a, base);
        },
        None => {
            if name == "cresc"@ || name == "dim"@ {
                let count = crate::text::decimal(crate::parser::extract::count_music(pe));
                let c = seq![EventView::Control(name, count)];
                assert(values_ok(event_notes(c[0]), base));
                lemma_events_ok_concat(c, pe, base);
            } else if name == "grace"@ {
                lemma_grace_fold_ok(pe, base);
            }
        },
    }
}

/// Extraction changes durations only by halving: every note yielded from a
/// node at duration `d`, where `d` is `base` halved and the durations fit,
/// is `base` halved too.
pub proof fn lemma_extract_ok(t: Tree, d: nat, base: nat)
    requires
        halved(d, base),
        base > 0,
        fits(t, d),
    ensures
        events_ok(extract(t, d), base),
    decreases t,
{
    match t {
        Tree::Note { pitch, octave, dotted } => {
            lemma_mk_note_ok(pitch, octave, dotted, d, base);
            assert(event_notes(extract(t, d)[0]) =~= seq![mk_note(pitch, octave, dotted, d)]);
        },
        Tree::Chord(ch) => {
            lemma_chord_notes_ok(ch, d, base);
        },
        Tree::Bracket(ch) => {
            lemma_halved_double(d, base);
            lemma_beam_fold_ok(ch, 2 * d, base);
            lemma_extract_seq_ok(ch, 2 * d, base);
        },
        Tree::Tie(ch) => {
            lemma_slur_notes_ok(ch, d, base);
            lemma_extract_seq_ok(ch, d, base);
        },
        Tree::Control { name, value, param } => {
            if crate::parser::extract::reads_param(name) {
                lemma_extract_seq_ok(param, d, base);
                lemma_control_events_ok(name, value, extract_seq(param, d), base);
            } else {
                assert(crate::parser::extract::accidental_of(name) is None);
                assert(name != "grace"@);
                assert(name != "cresc"@ && name != "dim"@);
                assert(values_ok(event_notes(extract(t, d)[0]), base));
            }
        },
        _ => {},
    }
}

pub proof fn lemma_extract_seq_ok(ts: Seq<Tree>, d: nat, base: nat)
    requires
        halved(d, base),
        base > 0,
        fits_seq(ts, d),
    ensures
        events_ok(extract_seq(ts, d), base),
    decreases ts,
{
    if ts.len() > 0 {
        let init = ts.drop_last();
        assert forall|i: int| 0 <= i < init.len() implies fits(#[trigger] init[i], d) by {
            assert(init[i] == ts[i]);
        }
        lemma_extract_seq_ok(init, d, base);
        assert(fits(ts[ts.len() - 1], d));
        lemma_extract_ok(ts.last(), d, base);
        lemma_events_ok_concat(extract_seq(init, d), extract(ts.last(), d), base);
    }
}

/// Reading a bracket as a beam group at a duration that is `base` halved
/// gives notes whose durations are `base` halved.
pub proof fn lemma_beam_fold_ok(ch: Seq<Tree>, d: nat, base: nat)
    requires
        halved(d, base),
        base > 0,
        fits_seq(ch, d),
    ensures
        beam_fold(ch, d) matches Some((_, els)) ==> values_ok(flatten(els), base),
    decreases ch,
{
    if ch.len() > 0 {
        let init = ch.drop_last();
        assert forall|i: int| 0 <= i < init.len() implies fits(#[trigger] init[i], d) by {
            assert(init[i] == ch[i]);
        }
        lemma_beam_fold_ok(init, d, base);
        if let Some((ps, els)) = beam_fold(init, d) {
            assert(fits(ch[ch.len() - 1], d));
            lemma_beam_step_ok(ps, els, ch.last(), d, base);
        }
    }
}

pub proof fn lemma_beam_step_ok(ps: bool, els: Seq<BeamView>, child: Tree, d: nat, base: nat)
    requires
        halved(d, base),
        base > 0,
        fits(child, d),
        values_ok(flatten(els), base),
    ensures
        beam_step(ps, els, child, d) matches Some((_, e2)) ==> values_ok(flatten(e2), base),
    decreases child,
{
    match child {
        Tree::Note { pitch, octave, dotted } => {
            let n = mk_note(pitch, octave, dotted, d);
            lemma_flatten_push(els, BeamView::Note(n, !ps));
            lemma_mk_note_ok(pitch, octave, dotted, d, base);
            lemma_values_ok_concat(flatten(els), seq![n], base);
        },
        Tree::Bracket(inner) => {
            lemma_halved_double(d, base);
            lemma_beam_fold_ok(inner, 2 * d, base);
            if let Some(nested) = beam_result(beam_fold(inner, 2 * d)) {
                lemma_flatten_push(els, BeamView::Nested(nested, !ps));
                lemma_values_ok_concat(flatten(els), flatten(nested), base);
            }
        },
        Tree::Control { name, value, param } => {
            if let Some(a) = crate::parser::extract::accidental_of(name) {
                lemma_extract_seq_ok(param, d, base);
                lemma_acc_elements_ok(extract_seq(param, d), a, !ps, base);
                let added = acc_elements(extract_seq(param, d), a, !ps).0;
                lemma_flatten_concat(els, added);
                lemma_values_ok_concat(flatten(els), flatten(added), base);
            }
        },
        _ => {},
    }
}

/// A bracket halves the note value: every note that a bracket yields at
/// duration `d` has duration `2 * d`, or that halved further by brackets
/// nested in it.
pub proof fn lemma_bracket_halves(ch: Seq<Tree>, d: nat)
    requires
        d > 0,
        fits(Tree::Bracket(ch), d),
    ensures
        events_ok(extract(Tree::Bracket(ch), d), 2 * d),
{
    lemma_beam_fold_ok(ch, 2 * d, 2 * d);
    lemma_extract_seq_ok(ch, 2 * d, 2 * d);
}

/// Every line that parses has durations that fit.
spec fn lines_fit(ls: Seq<Seq<char>>) -> bool {
    forall|i: int|
        0 <= i < ls.len() ==> match parse_file(#[trigger] ls[i]) {
            Ok(ts) => crate::parser::extract::fits_seq(ts, base_duration()),
            Err(_) => true,
        }
}

proof fn lemma_recover_ok(ls: Seq<Seq<char>>)
    requires
        lines_fit(ls),
    ensures
        events_ok(recover(ls).0, base_duration()),
    decreases ls.len(),
{
    if ls.len() > 0 {
        let init = ls.drop_last();
        assert forall|i: int| 0 <= i < init.len() implies match parse_file(#[trigger] init[i]) {
            Ok(ts) => fits_seq(ts, base_duration()),
            Err(_) => true,
        } by {
            assert(init[i] == ls[i]);
        }
        lemma_recover_ok(init);
        let line = ls.last();
        assert(ls[ls.len() - 1] == line);
        if trim(line).len() != 0 {
            if let Ok(ts) = parse_file(line) {
                lemma_extract_seq_ok(ts, base_duration(), base_duration());
                lemma_events_ok_concat(recover(init).0, extract_seq(ts, base_duration()), base_duration());
            }
        }
    }
}

/// Every note of a score is a quarter or a quarter halved some number of
/// times: its duration is 4, 8, 16, and so on.
pub proof fn lemma_score_note_values(s: Seq<char>)
    requires
        score_fits(s),
    ensures
        events_ok(score_events(s), base_duration()),
{
    match parse_file(s) {
        Ok(ts) => {
            lemma_extract_seq_ok(ts, base_duration(), base_duration());
        },
        Err(_) => {
            lemma_recover_ok(lines(s));
        },
    }
}

} // verus!
