//! The parts of page layout that are decisions over events rather than
//! geometry: page metadata, measures, which events take room on the note
//! line, beam counts, time signatures, and the characters a score needs from
//! its fonts.
use vstd::prelude::*;

use crate::parser::grammar::digits_value;
use crate::parser::model::{
    Accidental, BeamElement, BeamView, EventView, Note, ScoreEvent, beam_view, beams_view,
    copy_event, events_view,
};
use crate::renderer::control::{control_kind, lookup, prewarm};
use crate::renderer::font::accidental;
use crate::text::{
    decimal, digit_char, find_char, find_char_from, push_char, push_str, str_chars, trim, trim_end,
    trim_start, trimmed_range,
};

verus! {

// ------------------------------------------------------------------
// Time signatures
// ------------------------------------------------------------------

/// What `str::parse::<u8>` accepts: an optional `+`, then one or more ASCII
/// digits whose value is at most 255.
pub open spec fn parse_u8(x: Seq<char>) -> Option<u8> {
    let ds = unsigned_digits(x);
    if ds.len() > 0 && all_digits(ds) && digits_value(ds) <= 255 {
        Some(digits_value(ds) as u8)
    } else {
        None
    }
}

/// `x` without a leading `+`.
pub open spec fn unsigned_digits(x: Seq<char>) -> Seq<char> {
    if x.len() > 0 && x[0] == '+' {
        x.drop_first()
    } else {
        x
    }
}

pub open spec fn all_digits(ds: Seq<char>) -> bool {
    forall|i: int| 0 <= i < ds.len() ==> '0' <= #[trigger] ds[i] && ds[i] <= '9'
}

/// A time signature `N/D`: the trimmed text has exactly one `/`, and both
/// sides, trimmed, are `u8` numerals.
pub open spec fn timesig(s: Seq<char>) -> Option<(u8, u8)> {
    let t = trim(s);
    let k = find_char(t, '/', 0);
    if k < t.len() && find_char(t, '/', k + 1) == t.len() {
        match (parse_u8(trim(t.subrange(0, k))), parse_u8(trim(t.subrange(k + 1, t.len() as int)))) {
            (Some(a), Some(b)) => Some((a, b)),
            _ => None,
        }
    } else {
        None
    }
}

/// `str::parse::<u8>` on `v`.
fn parse_u8_exec(v: &Vec<char>) -> (r: Option<u8>)
    ensures
        r == parse_u8(v@),
{
    let len = v.len();
    let start: usize = if len > 0 && v[0] == '+' {
        1
    } else {
        0
    };
    let ghost ds = unsigned_digits(v@);
    proof {
        assert(ds =~= v@.subrange(start as int, len as int));
    }
    if start >= len {
        return None;
    }
    let mut val: u32 = 0;
    let mut i = start;
    while i < len
        invariant
            start <= i <= len,
            len == v@.len(),
            start < len,
            ds == v@.subrange(start as int, len as int),
            ds == unsigned_digits(v@),
            forall|j: int| start <= j < i ==> '0' <= #[trigger] v@[j] && v@[j] <= '9',
            val <= 2559,
            digits_value(v@.subrange(start as int, i as int)) <= 255 ==> val == digits_value(
                v@.subrange(start as int, i as int),
            ),
            digits_value(v@.subrange(start as int, i as int)) > 255 ==> val > 255,
        decreases len - i,
    {
        let c = v[i];
        if !('0' <= c && c <= '9') {
            proof {
                assert(ds[i - start] == c);
                assert(!('0' <= ds[i - start] && ds[i - start] <= '9'));
                assert(!all_digits(ds));
            }
            return None;
        }
        let d: u32 = (c as u32) - 48;
        proof {
            assert(v@.subrange(start as int, i + 1).drop_last() =~= v@.subrange(
                start as int,
                i as int,
            ));
            assert(v@.subrange(start as int, i + 1).last() == c);
        }
        if val <= 255 {
            val = val * 10 + d;
        }
        i = i + 1;
    }
    proof {
        assert forall|j: int| 0 <= j < ds.len() implies '0' <= #[trigger] ds[j] && ds[j] <= '9' by {
            assert(ds[j] == v@[start + j]);
        }
    }
    if val <= 255 {
        Some(val as u8)
    } else {
        None
    }
}

/// Reads a time signature `N/D` into `(N, D)`.
pub fn parse_timesig(s: &str) -> (r: Option<(u8, u8)>)
    ensures
        r == timesig(s@),
{
    let v = str_chars(s);
    let t = trimmed_range(&v, 0, v.len());
    proof {
        assert(v@.subrange(0, v@.len() as int) =~= v@);
    }
    let k = find_char_from(&t, '/', 0);
    if k >= t.len() {
        return None;
    }
    let k2 = find_char_from(&t, '/', k + 1);
    if k2 != t.len() {
        return None;
    }
    let a = trimmed_range(&t, 0, k);
    let b = trimmed_range(&t, k + 1, t.len());
    match (parse_u8_exec(&a), parse_u8_exec(&b)) {
        (Some(x), Some(y)) => Some((x, y)),
        _ => None,
    }
}

// ------------------------------------------------------------------
// Hairpins
// ------------------------------------------------------------------

/// What `str::parse::<usize>` accepts: an optional `+`, then one or more
/// ASCII digits whose value fits in a `usize`.
pub open spec fn parse_usize(x: Seq<char>) -> Option<usize> {
    let ds = unsigned_digits(x);
    if ds.len() > 0 && all_digits(ds) && digits_value(ds) <= usize::MAX {
        Some(digits_value(ds) as usize)
    } else {
        None
    }
}

/// How many real events a `#cresc`/`#dim` hairpin spans: its value, trimmed
/// and read as a number, or 0 where that fails.
pub open spec fn hairpin_span(value: Seq<char>) -> nat {
    match parse_usize(trim(value)) {
        Some(n) => n as nat,
        None => 0,
    }
}

proof fn lemma_step_fits(val: nat, d: nat)
    by (nonlinear_arith)
    requires
        d < 10,
        val <= (usize::MAX - d) / 10,
    ensures
        val * 10 + d <= usize::MAX,
{
}

proof fn lemma_step_overflows(val: nat, d: nat)
    by (nonlinear_arith)
    requires
        d < 10,
        val > (usize::MAX - d) / 10,
    ensures
        val * 10 + d > usize::MAX,
{
}

/// The number of real events that a hairpin with control value `value`
/// spans.
pub fn hairpin_count(value: &str) -> (r: usize)
    ensures
        r == hairpin_span(value@),
{
    let w = str_chars(value);
    let v = trimmed_range(&w, 0, w.len());
    proof {
        assert(w@.subrange(0, w@.len() as int) =~= w@);
        assert(v@ == trim(value@));
    }
    let len = v.len();
    let start: usize = if len > 0 && v[0] == '+' {
        1
    } else {
        0
    };
    let ghost ds = unsigned_digits(v@);
    proof {
        assert(ds =~= v@.subrange(start as int, len as int));
    }
    if start >= len {
        return 0;
    }
    let mut val: usize = 0;
    let mut over = false;
    let mut i = start;
    while i < len
        invariant
            start <= i <= len,
            len == v@.len(),
            start < len,
            ds == v@.subrange(start as int, len as int),
            ds == unsigned_digits(v@),
            v@ == trim(value@),
            forall|j: int| start <= j < i ==> '0' <= #[trigger] v@[j] && v@[j] <= '9',
            !over ==> val == digits_value(v@.subrange(start as int, i as int)),
            over ==> digits_value(v@.subrange(start as int, i as int)) > usize::MAX,
        decreases len - i,
    {
        let c = v[i];
        if !('0' <= c && c <= '9') {
            proof {
                assert(ds[i - start] == c);
                assert(!all_digits(ds));
                assert(parse_usize(v@) is None);
            }
            return 0;
        }
        let d: usize = ((c as u32) - 48) as usize;
        let ghost prev = digits_value(v@.subrange(start as int, i as int));
        proof {
            assert(v@.subrange(start as int, i + 1).drop_last() =~= v@.subrange(
                start as int,
                i as int,
            ));
            assert(v@.subrange(start as int, i + 1).last() == c);
            assert(digits_value(v@.subrange(start as int, i + 1)) == prev * 10 + d);
        }
        if over {
            proof {
                assert(prev * 10 + d >= prev);
            }
        } else if val > (usize::MAX - d) / 10 {
            proof {
                lemma_step_overflows(val as nat, d as nat);
            }
            over = true;
        } else {
            proof {
                lemma_step_fits(val as nat, d as nat);
            }
            val = val * 10 + d;
        }
        i = i + 1;
    }
    proof {
        assert forall|j: int| 0 <= j < ds.len() implies '0' <= #[trigger] ds[j] && ds[j] <= '9' by {
            assert(ds[j] == v@[start + j]);
        }
    }
    if over {
        0
    } else {
        val
    }
}

// ------------------------------------------------------------------
// Events on the note line
// ------------------------------------------------------------------

/// Whether an event takes room on the note line: bar lines do, and so does
/// every event of positive visual width, which is every event but a control
/// other than `#timesig` (those are drawn above or below the line) and an
/// empty slur.
pub open spec fn real_event(e: EventView) -> bool {
    match e {
        EventView::Control(name, _) => name == "timesig"@,
        EventView::Slur(ns) => ns.len() > 0,
        _ => true,
    }
}

pub fn is_real_event(event: &ScoreEvent) -> (r: bool)
    ensures
        r == real_event(event@),
{
    match event {
        ScoreEvent::Control(name, _) => crate::text::str_eq(name.as_str(), "timesig"),
        ScoreEvent::Slur(ns) => ns.len() > 0,
        _ => true,
    }
}

/// How often `x` can be halved before it reaches 1: `floor(log2(x))`.
pub open spec fn halvings(x: nat) -> nat
    decreases x,
{
    if x <= 1 {
        0
    } else {
        1 + halvings(x / 2)
    }
}

/// The number of underlines (beams) of a note of duration `1/duration`: none
/// down to a quarter, one for an eighth, two for a sixteenth, and so on.
pub open spec fn line_count(duration: u32) -> nat {
    if duration <= 4 {
        0
    } else {
        halvings((duration / 4) as nat)
    }
}

pub fn duration_line_count(duration: u32) -> (r: i32)
    ensures
        r as int == line_count(duration),
{
    if duration <= 4 {
        return 0;
    }
    let mut count: i32 = 0;
    let mut d = duration / 4;
    proof {
        lemma_halvings_le(d as nat);
    }
    while d > 1
        invariant
            d >= 1,
            count >= 0,
            count as nat + halvings(d as nat) == line_count(duration),
            line_count(duration) <= duration / 4,
        decreases d,
    {
        count = count + 1;
        d = d / 2;
    }
    count
}

/// Halving a note value (doubling the denominator of its duration) adds one
/// underline, from the quarter on.
pub proof fn lemma_halving_adds_line(d: u32)
    requires
        4 <= d,
        2 * d <= u32::MAX,
    ensures
        line_count((2 * d) as u32) == line_count(d) + 1,
{
    let dd = (2 * d) as u32;
    assert(dd / 4 == d / 2);
    assert((d / 2) / 2 == d / 4);
    assert(halvings((d / 2) as nat) == 1 + halvings((d / 4) as nat));
}

proof fn lemma_halvings_monotone(x: nat, y: nat)
    requires
        x <= y,
    ensures
        halvings(x) <= halvings(y),
    decreases y,
{
    if x > 1 {
        lemma_halvings_monotone(x / 2, y / 2);
    }
}

/// A shorter note value never has fewer underlines: the count grows with the
/// duration's denominator.
pub proof fn lemma_line_count_monotone(d1: u32, d2: u32)
    requires
        d1 <= d2,
    ensures
        line_count(d1) <= line_count(d2),
{
    if d1 > 4 {
        lemma_halvings_monotone((d1 / 4) as nat, (d2 / 4) as nat);
    }
}

proof fn lemma_halvings_le(x: nat)
    ensures
        halvings(x) <= x,
    decreases x,
{
    if x > 1 {
        lemma_halvings_le(x / 2);
    }
}

// ------------------------------------------------------------------
// Chords
// ------------------------------------------------------------------

/// The notes of `ns` with pitch `p`, in their written order.
pub open spec fn pitch_notes(ns: Seq<Note>, p: int) -> Seq<Note> {
    ns.filter(|n: Note| n.pitch == p)
}

/// The notes of `ns` from pitch `p` down to pitch 0: higher pitches first,
/// notes of one pitch in their written order.
pub open spec fn stack_from(ns: Seq<Note>, p: int) -> Seq<Note>
    decreases p + 1,
{
    if p < 0 {
        seq![]
    } else {
        pitch_notes(ns, p) + stack_from(ns, p - 1)
    }
}

/// How a chord's notes stack, top to bottom: by pitch, highest first, notes
/// of one pitch in their written order.
pub open spec fn chord_stack(ns: Seq<Note>) -> Seq<Note> {
    stack_from(ns, 255)
}

/// The notes of a chord in the order they stack, top to bottom.
pub fn stack_chord(notes: &[Note]) -> (r: Vec<Note>)
    ensures
        r@ == chord_stack(notes@),
{
    let mut out: Vec<Note> = Vec::new();
    let mut p: u16 = 256;
    proof {
        assert(out@ + stack_from(notes@, 255) =~= chord_stack(notes@));
    }
    while p > 0
        invariant
            p <= 256,
            chord_stack(notes@) == out@ + stack_from(notes@, p - 1),
        decreases p,
    {
        p = p - 1;
        let pitch = p as u8;
        let ghost before = out@;
        let mut i: usize = 0;
        while i < notes.len()
            invariant
                i <= notes@.len(),
                pitch == p,
                out@ == before + pitch_notes(notes@.take(i as int), p as int),
            decreases notes@.len() - i,
        {
            let ghost prev = out@;
            if notes[i].pitch == pitch {
                out.push(notes[i]);
            }
            proof {
                reveal(Seq::filter);
                assert(notes@.take(i + 1).drop_last() =~= notes@.take(i as int));
                assert(notes@.take(i + 1).last() == notes@[i as int]);
                assert(out@ =~= before + pitch_notes(notes@.take(i + 1), p as int));
            }
            i = i + 1;
        }
        proof {
            assert(notes@.take(i as int) =~= notes@);
            assert(stack_from(notes@, p as int) == pitch_notes(notes@, p as int) + stack_from(
                notes@,
                p - 1,
            ));
            assert(chord_stack(notes@) =~= out@ + stack_from(notes@, p - 1));
        }
    }
    proof {
        assert(stack_from(notes@, -1) =~= Seq::<Note>::empty());
        assert(out@ + Seq::<Note>::empty() =~= out@);
    }
    out
}

/// The first accidental among `ns`, if any.
pub open spec fn first_accidental(ns: Seq<Note>) -> Option<Accidental>
    decreases ns.len(),
{
    if ns.len() == 0 {
        None
    } else if ns[0].accidental is Some {
        ns[0].accidental
    } else {
        first_accidental(ns.drop_first())
    }
}

/// The accidental drawn for a chord: the first one among its notes as they
/// stack.
pub fn chord_accidental(stacked: &[Note]) -> (r: Option<Accidental>)
    ensures
        r == first_accidental(stacked@),
{
    let mut i: usize = 0;
    proof {
        assert(stacked@.skip(0) =~= stacked@);
    }
    while i < stacked.len()
        invariant
            i <= stacked@.len(),
            first_accidental(stacked@) == first_accidental(stacked@.skip(i as int)),
        decreases stacked@.len() - i,
    {
        proof {
            assert(stacked@.skip(i as int).drop_first() =~= stacked@.skip(i + 1));
            assert(stacked@.skip(i as int)[0] == stacked@[i as int]);
        }
        if stacked[i].accidental.is_some() {
            return stacked[i].accidental;
        }
        i = i + 1;
    }
    None
}

// ------------------------------------------------------------------
// Measures
// ------------------------------------------------------------------

/// Reading events left to right into measures: the finished measures (each
/// closed by its bar line) and the measure still open.
pub open spec fn measures_fold(evs: Seq<EventView>) -> (Seq<Seq<EventView>>, Seq<EventView>)
    decreases evs.len(),
{
    if evs.len() == 0 {
        (seq![], seq![])
    } else {
        let (done, cur) = measures_fold(evs.drop_last());
        let cur2 = cur.push(evs.last());
        if evs.last() is Barline {
            (done.push(cur2), seq![])
        } else {
            (done, cur2)
        }
    }
}

/// The measures of an event list: a measure ends with (and includes) a bar
/// line; what follows the last bar line is a last measure if not empty.
pub open spec fn measures(evs: Seq<EventView>) -> Seq<Seq<EventView>> {
    let (done, cur) = measures_fold(evs);
    if cur.len() > 0 {
        done.push(cur)
    } else {
        done
    }
}

/// The events of a list of measures, in order.
pub open spec fn concat(ms: Seq<Seq<EventView>>) -> Seq<EventView>
    decreases ms.len(),
{
    if ms.len() == 0 {
        seq![]
    } else {
        concat(ms.drop_last()) + ms.last()
    }
}

proof fn lemma_measures_fold(evs: Seq<EventView>)
    ensures
        concat(measures_fold(evs).0) + measures_fold(evs).1 == evs,
        forall|i: int|
            0 <= i < measures_fold(evs).0.len() ==> (#[trigger] measures_fold(evs).0[i]).len() > 0
                && measures_fold(evs).0[i].last() is Barline,
        forall|j: int|
            0 <= j < measures_fold(evs).1.len() ==> !(#[trigger] measures_fold(evs).1[j] is Barline),
    decreases evs.len(),
{
    if evs.len() > 0 {
        lemma_measures_fold(evs.drop_last());
        let (done, cur) = measures_fold(evs.drop_last());
        let cur2 = cur.push(evs.last());
        assert(evs.drop_last().push(evs.last()) =~= evs);
        assert((concat(done) + cur).push(evs.last()) =~= concat(done) + cur2);
        if evs.last() is Barline {
            assert(done.push(cur2).drop_last() =~= done);
            assert(done.push(cur2).last() == cur2);
            assert(concat(done.push(cur2)) == concat(done) + cur2);
            assert(concat(done.push(cur2)) + Seq::<EventView>::empty() =~= evs);
        } else {
            assert(concat(done) + cur2 =~= evs);
        }
    } else {
        assert(concat(Seq::<Seq<EventView>>::empty()) + Seq::<EventView>::empty() =~= evs);
    }
}

/// Grouping into measures loses and reorders nothing: the measures, joined,
/// are the events. Every measure but the last ends with a bar line, no
/// measure is empty, and a bar line only ever ends a measure.
pub proof fn lemma_measures_partition(evs: Seq<EventView>)
    ensures
        concat(measures(evs)) == evs,
        forall|i: int| 0 <= i < measures(evs).len() ==> (#[trigger] measures(evs)[i]).len() > 0,
        forall|i: int|
            0 <= i < measures(evs).len() - 1 ==> (#[trigger] measures(evs)[i]).last() is Barline,
        forall|i: int, j: int|
            0 <= i < measures(evs).len() && 0 <= j < measures(evs)[i].len() - 1 ==> !(
            #[trigger] measures(evs)[i][j] is Barline),
{
    lemma_measures_fold(evs);
    lemma_measures_inner(evs);
    let (done, cur) = measures_fold(evs);
    if cur.len() > 0 {
        assert(done.push(cur).drop_last() =~= done);
    }
}

proof fn lemma_measures_inner(evs: Seq<EventView>)
    ensures
        forall|i: int, j: int|
            0 <= i < measures_fold(evs).0.len() && 0 <= j < measures_fold(evs).0[i].len() - 1 ==> !(
            #[trigger] measures_fold(evs).0[i][j] is Barline),
    decreases evs.len(),
{
    if evs.len() > 0 {
        lemma_measures_inner(evs.drop_last());
        lemma_measures_fold(evs.drop_last());
    }
}

pub open spec fn measures_view(s: Seq<Vec<ScoreEvent>>) -> Seq<Seq<EventView>> {
    Seq::new(s.len(), |i: int| events_view(s[i]@))
}

/// Groups events into measures (a measure ends with its bar line).
pub fn group_measures(events: &[ScoreEvent]) -> (r: Vec<Vec<ScoreEvent>>)
    ensures
        measures_view(r@) == measures(events_view(events@)),
{
    let mut done: Vec<Vec<ScoreEvent>> = Vec::new();
    let mut current: Vec<ScoreEvent> = Vec::new();
    let mut i: usize = 0;
    while i < events.len()
        invariant
            i <= events@.len(),
            measures_fold(events_view(events@).take(i as int)) == (measures_view(done@), events_view(
                current@,
            )),
        decreases events@.len() - i,
    {
        let ghost ev = events_view(events@);
        proof {
            assert(ev.take(i + 1).drop_last() =~= ev.take(i as int));
            assert(ev.take(i + 1).last() == events@[i as int]@);
        }
        let e = copy_event(&events[i]);
        let is_barline = match &e {
            ScoreEvent::Barline(_) => true,
            _ => false,
        };
        let ghost cur_before = current@;
        current.push(e);
        proof {
            assert(events_view(current@) =~= events_view(cur_before).push(e@));
        }
        if is_barline {
            let ghost done_before = done@;
            let mut finished: Vec<ScoreEvent> = Vec::new();
            std::mem::swap(&mut finished, &mut current);
            done.push(finished);
            proof {
                assert(measures_view(done@) =~= measures_view(done_before).push(events_view(finished@)));
                assert(events_view(current@) =~= Seq::<EventView>::empty());
            }
        }
        i = i + 1;
    }
    proof {
        assert(events_view(events@).take(i as int) =~= events_view(events@));
    }
    if current.len() > 0 {
        let ghost done_before = done@;
        done.push(current);
        proof {
            assert(measures_view(done@) =~= measures_view(done_before).push(events_view(current@)));
        }
    }
    done
}

// ------------------------------------------------------------------
// Page metadata
// ------------------------------------------------------------------

/// Title, subtitle and credit, drawn at the top of the first page.
pub struct PageMeta {
    pub title: Option<String>,
    pub subtitle: Option<String>,
    pub credit: Option<String>,
}

pub open spec fn opt_string(o: Option<String>) -> Option<Seq<char>> {
    match o {
        Some(s) => Some(s@),
        None => None,
    }
}

/// The value of the first control named `key`, if any.
pub open spec fn first_control(evs: Seq<EventView>, key: Seq<char>) -> Option<Seq<char>>
    decreases evs.len(),
{
    if evs.len() == 0 {
        None
    } else {
        match first_control(evs.drop_last(), key) {
            Some(v) => Some(v),
            None => match evs.last() {
                EventView::Control(name, value) => if name == key {
                    Some(value)
                } else {
                    None
                },
                _ => None,
            },
        }
    }
}

pub open spec fn is_meta(e: EventView) -> bool {
    match e {
        EventView::Control(name, _) => name == "title"@ || name == "subtitle"@ || name
            == "credit"@,
        _ => false,
    }
}

/// The events other than `#title`, `#subtitle` and `#credit`, in order.
pub open spec fn non_meta(evs: Seq<EventView>) -> Seq<EventView> {
    evs.filter(|e: EventView| !is_meta(e))
}

fn meta_name(e: &ScoreEvent) -> (r: u8)
    ensures
        r == (match e@ {
            EventView::Control(name, _) => if name == "title"@ {
                1u8
            } else if name == "subtitle"@ {
                2u8
            } else if name == "credit"@ {
                3u8
            } else {
                0u8
            },
            _ => 0u8,
        }),
{
    match e {
        ScoreEvent::Control(name, _) => {
            let v = str_chars(name.as_str());
            if crate::text::chars_eq_str(&v, "title") {
                1
            } else if crate::text::chars_eq_str(&v, "subtitle") {
                2
            } else if crate::text::chars_eq_str(&v, "credit") {
                3
            } else {
                0
            }
        },
        _ => 0,
    }
}

/// Takes the first `#title`, `#subtitle` and `#credit` as page metadata and
/// returns the other events unchanged (metadata takes no part in line layout).
pub fn extract_page_meta(events: &[ScoreEvent]) -> (r: (PageMeta, Vec<ScoreEvent>))
    ensures
        opt_string(r.0.title) == first_control(events_view(events@), "title"@),
        opt_string(r.0.subtitle) == first_control(events_view(events@), "subtitle"@),
        opt_string(r.0.credit) == first_control(events_view(events@), "credit"@),
        events_view(r.1@) == non_meta(events_view(events@)),
{
    let mut meta = PageMeta { title: None, subtitle: None, credit: None };
    let mut rest: Vec<ScoreEvent> = Vec::new();
    let mut i: usize = 0;
    while i < events.len()
        invariant
            i <= events@.len(),
            opt_string(meta.title) == first_control(events_view(events@).take(i as int), "title"@),
            opt_string(meta.subtitle) == first_control(
                events_view(events@).take(i as int),
                "subtitle"@,
            ),
            opt_string(meta.credit) == first_control(events_view(events@).take(i as int), "credit"@),
            events_view(rest@) == non_meta(events_view(events@).take(i as int)),
        decreases events@.len() - i,
    {
        let ghost ev = events_view(events@);
        proof {
            assert(ev.take(i + 1).drop_last() =~= ev.take(i as int));
            assert(ev.take(i + 1).last() == events@[i as int]@);
            reveal(Seq::filter);
            reveal_strlit("title");
            reveal_strlit("subtitle");
            reveal_strlit("credit");
            assert("title"@.len() == 5);
            assert("subtitle"@.len() == 8);
            assert("credit"@.len() == 6);
            assert("title"@ != "subtitle"@);
            assert("title"@ != "credit"@);
            assert("subtitle"@ != "credit"@);
        }
        let k = meta_name(&events[i]);
        let ghost rest_before = rest@;
        if k == 0 {
            let e = copy_event(&events[i]);
            rest.push(e);
            proof {
                assert(events_view(rest@) =~= events_view(rest_before).push(e@));
            }
        } else {
            match &events[i] {
                ScoreEvent::Control(_, value) => {
                    if k == 1 && meta.title.is_none() {
                        meta.title = Some(value.clone());
                    } else if k == 2 && meta.subtitle.is_none() {
                        meta.subtitle = Some(value.clone());
                    } else if k == 3 && meta.credit.is_none() {
                        meta.credit = Some(value.clone());
                    }
                },
                _ => {},
            }
        }
        i = i + 1;
    }
    proof {
        assert(events_view(events@).take(i as int) =~= events_view(events@));
    }
    (meta, rest)
}

// ------------------------------------------------------------------
// Characters to embed
// ------------------------------------------------------------------

/// The music-font glyph of an accidental.
pub open spec fn accidental_glyph(a: Accidental) -> char {
    match a {
        Accidental::Sharp => accidental::SHARP,
        Accidental::Flat => accidental::FLAT,
        Accidental::Natural => accidental::NATURAL,
    }
}

pub open spec fn note_accidental(n: Note) -> Seq<char> {
    match n.accidental {
        Some(a) => seq![accidental_glyph(a)],
        None => seq![],
    }
}

/// The accidental glyphs of a list of notes, in order.
pub open spec fn notes_accidentals(ns: Seq<Note>) -> Seq<char>
    decreases ns.len(),
{
    if ns.len() == 0 {
        seq![]
    } else {
        notes_accidentals(ns.drop_last()) + note_accidental(ns.last())
    }
}

/// The accidental glyphs of a beam group, nested groups included, in order.
pub open spec fn beam_accidentals(s: Seq<BeamView>) -> Seq<char>
    decreases s,
{
    if s.len() == 0 {
        seq![]
    } else {
        beam_accidentals(s.drop_last()) + match s.last() {
            BeamView::Note(n, _) => note_accidental(n),
            BeamView::Nested(inner, _) => beam_accidentals(inner),
        }
    }
}

/// The characters an event needs from the fonts: a control's `name=value`
/// text and its own glyphs, and the accidentals of notes.
pub open spec fn event_chars(e: EventView) -> Seq<char> {
    match e {
        EventView::Control(name, value) => name + seq!['='] + value + match control_kind(name) {
            Some(k) => prewarm(k, value),
            None => seq![],
        },
        EventView::Note(n) => note_accidental(n),
        EventView::Chord(ns) => notes_accidentals(ns),
        EventView::Slur(ns) => notes_accidentals(ns),
        EventView::Grace(els) => beam_accidentals(els),
        EventView::Beam(els) => beam_accidentals(els),
        _ => seq![],
    }
}

pub open spec fn extra_chars(evs: Seq<EventView>) -> Seq<char>
    decreases evs.len(),
{
    if evs.len() == 0 {
        seq![]
    } else {
        extra_chars(evs.drop_last()) + event_chars(evs.last())
    }
}

fn push_accidental(s: &mut String, a: Option<Accidental>)
    ensures
        final(s)@ == old(s)@ + match a {
            Some(x) => seq![accidental_glyph(x)],
            None => Seq::<char>::empty(),
        },
{
    match a {
        Some(Accidental::Sharp) => push_char(s, accidental::SHARP),
        Some(Accidental::Flat) => push_char(s, accidental::FLAT),
        Some(Accidental::Natural) => push_char(s, accidental::NATURAL),
        None => {},
    }
    proof {
        assert(final(s)@ =~= old(s)@ + match a {
            Some(x) => seq![accidental_glyph(x)],
            None => Seq::<char>::empty(),
        });
    }
}

fn push_notes_accidentals(s: &mut String, ns: &Vec<Note>)
    ensures
        final(s)@ == old(s)@ + notes_accidentals(ns@),
{
    let mut i: usize = 0;
    while i < ns.len()
        invariant
            i <= ns@.len(),
            s@ == old(s)@ + notes_accidentals(ns@.take(i as int)),
        decreases ns@.len() - i,
    {
        proof {
            assert(ns@.take(i + 1).drop_last() =~= ns@.take(i as int));
        }
        push_accidental(s, ns[i].accidental);
        i = i + 1;
        proof {
            assert(s@ =~= old(s)@ + notes_accidentals(ns@.take(i as int)));
        }
    }
    proof {
        assert(ns@.take(i as int) =~= ns@);
    }
}

/// Appends the accidental glyphs of a beam group, nested groups included.
pub fn collect_beam_accidentals(elements: &[BeamElement], s: &mut String)
    ensures
        final(s)@ == old(s)@ + beam_accidentals(beams_view(elements@)),
    decreases elements@,
{
    let mut i: usize = 0;
    while i < elements.len()
        invariant
            i <= elements@.len(),
            s@ == old(s)@ + beam_accidentals(beams_view(elements@).take(i as int)),
        decreases elements@.len() - i,
    {
        let ghost bv = beams_view(elements@);
        proof {
            assert(bv.take(i + 1).drop_last() =~= bv.take(i as int));
            assert(bv.take(i + 1).last() == beam_view(elements@[i as int]));
        }
        match &elements[i] {
            BeamElement::Note(n, _) => {
                push_accidental(s, n.accidental);
            },
            BeamElement::Nested(inner, _) => {
                proof {
                    assert(decreases_to!(elements@ => elements@[i as int]));
                }
                collect_beam_accidentals(inner.as_slice(), s);
            },
        }
        i = i + 1;
        proof {
            assert(s@ =~= old(s)@ + beam_accidentals(bv.take(i as int)));
        }
    }
    proof {
        assert(beams_view(elements@).take(i as int) =~= beams_view(elements@));
    }
}

/// The characters the score needs from the text and music fonts, so that they
/// are embedded before any page is drawn.
pub fn collect_extra_chars(events: &[ScoreEvent]) -> (r: String)
    ensures
        r@ == extra_chars(events_view(events@)),
{
    let mut s = String::new();
    let mut i: usize = 0;
    while i < events.len()
        invariant
            i <= events@.len(),
            s@ == extra_chars(events_view(events@).take(i as int)),
        decreases events@.len() - i,
    {
        let ghost ev = events_view(events@);
        let ghost before = s@;
        proof {
            assert(ev.take(i + 1).drop_last() =~= ev.take(i as int));
            assert(ev.take(i + 1).last() == events@[i as int]@);
        }
        match &events[i] {
            ScoreEvent::Control(name, value) => {
                push_str(&mut s, name.as_str());
                push_char(&mut s, '=');
                push_str(&mut s, value.as_str());
                match lookup(name.as_str()) {
                    Some(k) => {
                        let cs = k.prewarm_chars(value.as_str());
                        let ghost mid = s@;
                        let mut j: usize = 0;
                        while j < cs.len()
                            invariant
                                j <= cs@.len(),
                                s@ == mid + cs@.take(j as int),
                            decreases cs@.len() - j,
                        {
                            push_char(&mut s, cs[j]);
                            j = j + 1;
                            proof {
                                assert(s@ =~= mid + cs@.take(j as int));
                            }
                        }
                        proof {
                            assert(cs@.take(j as int) =~= cs@);
                        }
                    },
                    None => {},
                }
            },
            ScoreEvent::Note(n) => {
                push_accidental(&mut s, n.accidental);
            },
            ScoreEvent::Chord(ns) => {
                push_notes_accidentals(&mut s, ns);
            },
            ScoreEvent::Slur(ns) => {
                push_notes_accidentals(&mut s, ns);
            },
            ScoreEvent::Grace(els) => {
                collect_beam_accidentals(els.as_slice(), &mut s);
            },
            ScoreEvent::Beam(els) => {
                collect_beam_accidentals(els.as_slice(), &mut s);
            },
            _ => {},
        }
        i = i + 1;
        proof {
            assert(s@ =~= extra_chars(ev.take(i as int)));
        }
    }
    proof {
        assert(events_view(events@).take(i as int) =~= events_view(events@));
    }
    s
}

} // verus!

verus! {

/// A digit character is a digit, with its value.
proof fn lemma_digit_char(k: nat)
    requires
        k < 10,
    ensures
        '0' <= digit_char(k) <= '9',
        digit_char(k) as nat - 48 == k,
{
    assert(((k + 48) as char) as nat == k + 48);
}

/// A decimal numeral is a non-empty run of digits whose value is the number.
proof fn lemma_decimal_digits(n: nat)
    ensures
        decimal(n).len() > 0,
        all_digits(decimal(n)),
        digits_value(decimal(n)) == n,
    decreases n,
{
    if n < 10 {
        lemma_digit_char(n);
        assert(decimal(n).drop_last() =~= Seq::<char>::empty());
        assert(decimal(n).last() == digit_char(n));
        assert(digits_value(Seq::<char>::empty()) == 0);
        assert(digits_value(decimal(n)) == digits_value(decimal(n).drop_last()) * 10 + (
        decimal(n).last() as nat - 48) as nat);
        assert(digits_value(decimal(n)) == n);
    } else {
        lemma_decimal_digits(n / 10);
        lemma_digit_char(n % 10);
        let s = decimal(n);
        assert(s.drop_last() =~= decimal(n / 10));
        assert(s.last() == digit_char(n % 10));
        assert(digits_value(s) == digits_value(s.drop_last()) * 10 + (s.last() as nat - 48) as nat);
        assert(digits_value(s) == (n / 10) * 10 + n % 10);
        assert(digits_value(s) == n);
        assert forall|i: int| 0 <= i < s.len() implies '0' <= #[trigger] s[i] && s[i] <= '9' by {
            if i < s.len() - 1 {
                assert(s[i] == decimal(n / 10)[i]);
            }
        }
    }
}

/// A run of digits has no white space at either end.
proof fn lemma_trim_digits(s: Seq<char>)
    requires
        all_digits(s),
    ensures
        trim(s) == s,
{
    if s.len() > 0 {
        assert('0' <= s[0] && s[0] <= '9');
        assert('0' <= s.last() && s.last() <= '9');
    }
    assert(trim_start(s) == s);
}

/// There is no `/` in a run of digits.
proof fn lemma_no_slash(s: Seq<char>, from: int)
    requires
        all_digits(s),
        0 <= from <= s.len(),
    ensures
        find_char(s, '/', from) == s.len(),
    decreases s.len() - from,
{
    if from < s.len() {
        assert('0' <= s[from] && s[from] <= '9');
        lemma_no_slash(s, from + 1);
    }
}

/// Every time signature written `N/D` with `N` and `D` in `0..=255` is read
/// back as `(N, D)`.
pub proof fn lemma_timesig_reads_back(n: u8, d: u8)
    ensures
        timesig(decimal(n as nat) + "/"@ + decimal(d as nat)) == Some((n, d)),
{
    lemma_timesig_numerals(n as nat, d as nat);
}

/// A time signature written `N/D` in decimal is read as `(N, D)` exactly when
/// both numbers fit in a byte, and is refused otherwise.
pub proof fn lemma_timesig_numerals(n: nat, d: nat)
    ensures
        timesig(decimal(n) + "/"@ + decimal(d)) == (if n <= 255 && d <= 255 {
            Some((n as u8, d as u8))
        } else {
            None
        }),
{
    let a = decimal(n);
    let b = decimal(d);
    lemma_decimal_digits(n);
    lemma_decimal_digits(d);
    reveal_strlit("/");
    let s = a + "/"@ + b;
    assert(s[0] == a[0]);
    assert(s.last() == b.last());
    assert('0' <= s[0] && s[0] <= '9');
    assert('0' <= s.last() && s.last() <= '9');
    assert(trim_start(s) == s);
    assert(trim_end(s) == s);
    assert(trim(s) == s);
    let k = a.len() as int;
    assert(s.subrange(0, k) =~= a);
    assert(s.subrange(k + 1, s.len() as int) =~= b);
    assert(s[k] == '/');
    lemma_no_slash(a, 0);
    lemma_find_prefix(s, a, 0);
    assert(find_char(s, '/', 0) == k);
    lemma_no_slash(b, 0);
    lemma_find_suffix(s, k + 1);
    lemma_trim_digits(a);
    lemma_trim_digits(b);
    assert(unsigned_digits(a) == a);
    assert(unsigned_digits(b) == b);
}

/// Where `s` starts with `a` and `a` has no `/` after `from`, the search
/// passes through `a`.
proof fn lemma_find_prefix(s: Seq<char>, a: Seq<char>, from: int)
    requires
        0 <= from <= a.len() <= s.len(),
        s.subrange(0, a.len() as int) == a,
        find_char(a, '/', from) == a.len(),
    ensures
        find_char(s, '/', from) == find_char(s, '/', a.len() as int),
    decreases a.len() - from,
{
    if from < a.len() {
        assert(s[from] == a[from]);
        lemma_find_prefix(s, a, from + 1);
    }
}

/// Where the tail of `s` from `from` is digits, the search finds no `/` there.
proof fn lemma_find_suffix(s: Seq<char>, from: int)
    requires
        0 <= from <= s.len(),
        all_digits(s.subrange(from, s.len() as int)),
    ensures
        find_char(s, '/', from) == s.len(),
    decreases s.len() - from,
{
    if from < s.len() {
        assert(s.subrange(from, s.len() as int)[0] == s[from]);
        assert(s.subrange(from + 1, s.len() as int) =~= s.subrange(from, s.len() as int).drop_first());
        assert forall|i: int| 0 <= i < s.subrange(from + 1, s.len() as int).len() implies '0'
            <= #[trigger] s.subrange(from + 1, s.len() as int)[i] && s.subrange(from + 1, s.len() as int)[i] <= '9' by {
            assert(s.subrange(from + 1, s.len() as int)[i] == s.subrange(from, s.len() as int)[i + 1]);
        }
        lemma_find_suffix(s, from + 1);
    }
}

/// Every event that draws on the note line takes room there: whatever
/// carries a note, and every note, chord, beam group, grace group, extension
/// and bar line, even without notes; a slur exactly when it has notes, and
/// of the controls only the time signature.
pub proof fn lemma_room_on_line(e: EventView)
    ensures
        crate::parser::values::event_notes(e).len() > 0 ==> real_event(e),
        (e is Note || e is Chord || e is Beam || e is Grace || e is Extend || e is Barline)
            ==> real_event(e),
        e matches EventView::Slur(ns) ==> (real_event(e) <==> ns.len() > 0),
        e matches EventView::Control(name, _) ==> (real_event(e) <==> name == "timesig"@),
{
}

} // verus!
