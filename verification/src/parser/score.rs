//! Parsing a whole score into events, with line-by-line recovery: when the
//! score as a whole does not parse, every line is parsed on its own, the
//! events of the good lines are kept and each bad line is reported with its
//! position.
use vstd::prelude::*;

use crate::diagnostics::{DiagnosticView, Diagnostics, Severity, diags_view};
use crate::parser::extract::{extract_seq, extract_seq_into, fits, fits_seq, reads_param};
use crate::parser::grammar::{MusicParser, Syntax, parse_file, result_trees, trees_of, tree_of};
use crate::parser::model::{EventView, ScoreEvent, events_view};
use crate::text::{
    chars_eq_str, copy_range, decimal, find_char, find_char_from, lemma_find_char_suffix, lines,
    push_decimal, push_str, str_chars, strip_cr, trim, trimmed_range,
};

verus! {

/// The duration of a note outside any bracket: a quarter.
pub open spec fn base_duration() -> nat {
    4
}

/// The message for a line that does not parse, with the 1-based column of
/// the furthest position the grammar reached.
pub open spec fn line_error_message(col: nat) -> Seq<char> {
    "该行解析失败：第"@ + decimal(col) + "列无法识别"@
}

pub open spec fn line_error(line: nat, col: nat) -> DiagnosticView {
    DiagnosticView {
        severity: Severity::Error,
        message: line_error_message(col),
        line: Some(line as usize),
        col: Some(col as usize),
    }
}

/// Line-by-line recovery over `ls`: the events of the lines that parse and
/// an error for each non-blank line that does not.
pub open spec fn recover(ls: Seq<Seq<char>>) -> (Seq<EventView>, Seq<DiagnosticView>)
    decreases ls.len(),
{
    if ls.len() == 0 {
        (seq![], seq![])
    } else {
        let (ev, dg) = recover(ls.drop_last());
        let line = ls.last();
        if trim(line).len() == 0 {
            (ev, dg)
        } else {
            match parse_file(line) {
                Ok(ts) => (ev + extract_seq(ts, base_duration()), dg),
                Err(q) => (ev, dg.push(line_error(ls.len() as nat, (q + 1) as nat))),
            }
        }
    }
}

/// The events of a score.
pub open spec fn score_events(s: Seq<char>) -> Seq<EventView> {
    match parse_file(s) {
        Ok(ts) => extract_seq(ts, base_duration()),
        Err(_) => recover(lines(s)).0,
    }
}

/// The diagnostics that parsing a score records: none when it parses; else
/// one per bad line, or a single positionless error if every line parses on
/// its own.
pub open spec fn score_diagnostics(s: Seq<char>) -> Seq<DiagnosticView> {
    match parse_file(s) {
        Ok(_) => seq![],
        Err(_) => {
            let dg = recover(lines(s)).1;
            if dg.len() == 0 {
                seq![
                    DiagnosticView {
                        severity: Severity::Error,
                        message: "乐谱解析失败"@,
                        line: None,
                        col: None,
                    },
                ]
            } else {
                dg
            }
        },
    }
}

/// Every bracket nesting of the score keeps note durations within `u32`
/// (a bracket doubles the duration; thirty nested brackets overflow).
pub open spec fn score_fits(s: Seq<char>) -> bool {
    match parse_file(s) {
        Ok(ts) => fits_seq(ts, base_duration()),
        Err(_) => forall|i: int|
            0 <= i < lines(s).len() ==> match parse_file(#[trigger] lines(s)[i]) {
                Ok(ts) => fits_seq(ts, base_duration()),
                Err(_) => true,
            },
    }
}

// ------------------------------------------------------------------
// Checking that durations fit
// ------------------------------------------------------------------

fn reads_param_exec(name: &Vec<char>) -> (r: bool)
    ensures
        r == reads_param(name@),
{
    chars_eq_str(name, "sharp") || chars_eq_str(name, "flat") || chars_eq_str(name, "nat")
        || chars_eq_str(name, "natural") || chars_eq_str(name, "cresc") || chars_eq_str(
        name,
        "dim",
    ) || chars_eq_str(name, "grace")
}

fn fits_exec(t: &Syntax, d: u64) -> (r: bool)
    requires
        d <= u32::MAX,
    ensures
        r == fits(t@, d as nat),
    decreases t,
{
    match t {
        Syntax::Bracket(ch) => {
            if d * 2 > u32::MAX as u64 {
                false
            } else {
                fits_seq_exec(ch, d * 2)
            }
        },
        Syntax::Tie(ch) => fits_seq_exec(ch, d),
        Syntax::Control { name, value, param } => {
            if reads_param_exec(name) {
                fits_seq_exec(param, d)
            } else {
                true
            }
        },
        _ => true,
    }
}

fn fits_seq_exec(ts: &Vec<Syntax>, d: u64) -> (r: bool)
    requires
        d <= u32::MAX,
    ensures
        r == fits_seq(trees_of(ts@), d as nat),
    decreases ts,
{
    let mut i: usize = 0;
    while i < ts.len()
        invariant
            i <= ts@.len(),
            d <= u32::MAX,
            forall|j: int| 0 <= j < i ==> fits(#[trigger] trees_of(ts@)[j], d as nat),
        decreases ts@.len() - i,
    {
        proof {
            assert(decreases_to!(ts => ts@));
            assert(decreases_to!(ts@ => ts@[i as int]));
            assert(trees_of(ts@)[i as int] == tree_of(ts@[i as int]));
        }
        if !fits_exec(&ts[i], d) {
            return false;
        }
        i = i + 1;
    }
    true
}

// ------------------------------------------------------------------
// Lines
// ------------------------------------------------------------------

/// One step of `lines` on a suffix: the line that starts at `p`, and where the
/// next one starts.
fn next_line(s: &Vec<char>, p: usize) -> (r: (Vec<char>, usize))
    requires
        p < s@.len(),
    ensures
        p < r.1 <= s@.len(),
        r.0@.len() <= r.1 - p,
        lines(s@.subrange(p as int, s@.len() as int)) == seq![r.0@] + lines(
            s@.subrange(r.1 as int, s@.len() as int),
        ),
{
    let len = s.len();
    let k = find_char_from(s, '\n', p);
    let ghost suf = s@.subrange(p as int, len as int);
    proof {
        lemma_find_char_suffix(s@, '\n', p as int, p as int);
        assert(find_char(suf, '\n', 0) == k - p);
    }
    if k < len {
        let mut end = k;
        if end > p && s[end - 1] == '\r' {
            end = end - 1;
        }
        let line = copy_range(s, p, end);
        proof {
            assert(suf.subrange(0, k - p) =~= s@.subrange(p as int, k as int));
            assert(line@ =~= strip_cr(s@.subrange(p as int, k as int)));
            assert(suf.subrange(k - p + 1, suf.len() as int) =~= s@.subrange(k + 1, len as int));
        }
        (line, k + 1)
    } else {
        let line = copy_range(s, p, len);
        proof {
            assert(s@.subrange(len as int, len as int) =~= Seq::<char>::empty());
            assert(lines(Seq::<char>::empty()) =~= Seq::<Seq<char>>::empty());
            assert(seq![line@] + Seq::<Seq<char>>::empty() =~= seq![line@]);
        }
        (line, len)
    }
}

/// Whether `v` is all white space.
fn is_blank(v: &Vec<char>) -> (r: bool)
    ensures
        r == (trim(v@).len() == 0),
{
    let t = trimmed_range(v, 0, v.len());
    proof {
        assert(v@.subrange(0, v@.len() as int) =~= v@);
    }
    t.len() == 0
}

fn line_error_text(col: usize) -> (r: String)
    ensures
        r@ == line_error_message(col as nat),
{
    let mut s = String::new();
    push_str(&mut s, "该行解析失败：第");
    push_decimal(&mut s, col as u64);
    push_str(&mut s, "列无法识别");
    proof {
        assert(s@ =~= line_error_message(col as nat));
    }
    s
}

// ------------------------------------------------------------------
// Parsing a score
// ------------------------------------------------------------------

/// Whether every duration that parsing `score` computes fits a `u32`; when
/// not, `parse_and_extract` must not be called (the computation overflows).
pub fn score_durations_fit(score: &str) -> (r: bool)
    ensures
        r == score_fits(score@),
{
    let s = str_chars(score);
    let parsed = MusicParser::parse(&s);
    match parsed {
        Ok(ts) => fits_seq_exec(&ts, 4),
        Err(_) => {
            proof {
                assert(parse_file(score@) == result_trees(parsed));
            }
            let len = s.len();
            let mut p: usize = 0;
            let mut i: usize = 0;
            let ghost all = lines(s@);
            proof {
                assert(s@.subrange(0, len as int) =~= s@);
                assert(all.skip(0) =~= all);
            }
            while p < len
                invariant
                    len == s@.len(),
                    p <= len,
                    i <= p,
                    i <= all.len(),
                    all == lines(s@),
                    all.skip(i as int) == lines(s@.subrange(p as int, len as int)),
                    s@ == score@,
                    parse_file(s@) is Err,
                    forall|j: int|
                        0 <= j < i ==> match parse_file(#[trigger] all[j]) {
                            Ok(ts) => fits_seq(ts, base_duration()),
                            Err(_) => true,
                        },
                decreases len - p,
            {
                let (line, next) = next_line(&s, p);
                proof {
                    assert(all.skip(i as int).len() >= 1);
                    assert(i < all.len());
                    assert(all.skip(i as int)[0] == all[i as int]);
                    assert(all.skip(i as int)[0] == line@);
                    assert(all[i as int] == line@);
                    assert(all.skip(i + 1) =~= all.skip(i as int).drop_first());
                    assert(all.skip(i as int).drop_first() =~= lines(
                        s@.subrange(next as int, len as int),
                    ));
                }
                match MusicParser::parse(&line) {
                    Ok(ts) => {
                        if !fits_seq_exec(&ts, 4) {
                            proof {
                                assert(lines(s@)[i as int] == line@);
                                assert(parse_file(line@) == result_trees(Ok(ts)));
                                assert(!fits_seq(trees_of(ts@), base_duration()));
                                assert(parse_file(score@) is Err);
                                assert(!match parse_file(lines(score@)[i as int]) {
                                    Ok(ts) => fits_seq(ts, base_duration()),
                                    Err(_) => true,
                                });
                            }
                            return false;
                        }
                    },
                    Err(_) => {},
                }
                i = i + 1;
                p = next;
            }
            proof {
                assert(s@.subrange(len as int, len as int) =~= Seq::<char>::empty());
                assert(lines(Seq::<char>::empty()).len() == 0);
                assert(all.len() == i);
            }
            true
        },
    }
}

/// Parses a score and extracts its events. When the score as a whole does not
/// parse, each line is parsed on its own: the events of good lines are kept
/// in order, and each bad line is recorded in `diag` with its line number and
/// column; callers tell failure by `diag.has_error()`.
pub fn parse_and_extract(score: &str, diag: &mut Diagnostics) -> (events: Vec<ScoreEvent>)
    requires
        score_fits(score@),
        score@.len() < usize::MAX,
    ensures
        events_view(events@) == score_events(score@),
        diags_view(final(diag).items@) == diags_view(old(diag).items@) + score_diagnostics(
            score@,
        ),
{
    let s = str_chars(score);
    let mut events: Vec<ScoreEvent> = Vec::new();
    match MusicParser::parse(&s) {
        Ok(ts) => {
            extract_seq_into(&ts, &mut events, 4);
            proof {
                assert(events_view(events@) =~= score_events(score@));
                assert(diags_view(diag.items@) =~= diags_view(old(diag).items@) + Seq::<
                    DiagnosticView,
                >::empty());
            }
            events
        },
        Err(_) => {
            let len = s.len();
            let mut p: usize = 0;
            let mut i: usize = 0;
            let mut saw_error = false;
            let ghost all = lines(s@);
            let ghost d0 = diags_view(diag.items@);
            proof {
                assert(s@.subrange(0, len as int) =~= s@);
                assert(all.skip(0) =~= all);
                assert(all.take(0) =~= Seq::<Seq<char>>::empty());
                assert(events_view(events@) =~= Seq::<EventView>::empty());
                assert(d0 + Seq::<DiagnosticView>::empty() =~= d0);
            }
            while p < len
                invariant
                    len == s@.len(),
                    p <= len,
                    i <= p,
                    i <= all.len(),
                    all == lines(s@),
                    score_fits(score@),
                    score@.len() < usize::MAX,
                    s@ == score@,
                    parse_file(s@) is Err,
                    all.skip(i as int) == lines(s@.subrange(p as int, len as int)),
                    events_view(events@) == recover(all.take(i as int)).0,
                    diags_view(diag.items@) == d0 + recover(all.take(i as int)).1,
                    saw_error == (recover(all.take(i as int)).1.len() > 0),
                decreases len - p,
            {
                let (line, next) = next_line(&s, p);
                let ghost rec = recover(all.take(i as int));
                let ghost ev_before = events@;
                let ghost dg_before = diag.items@;
                proof {
                    assert(all.skip(i as int).len() >= 1);
                    assert(i < all.len());
                    assert(all.skip(i as int)[0] == all[i as int]);
                    assert(all.skip(i as int)[0] == line@);
                    assert(all[i as int] == line@);
                    assert(all.skip(i + 1) =~= all.skip(i as int).drop_first());
                    assert(all.skip(i as int).drop_first() =~= lines(
                        s@.subrange(next as int, len as int),
                    ));
                    assert(all.take(i + 1).drop_last() =~= all.take(i as int));
                    assert(all.take(i + 1).last() == line@);
                    assert(all.take(i + 1).len() == i + 1);
                }
                if !is_blank(&line) {
                    match MusicParser::parse(&line) {
                        Ok(ts) => {
                            proof {
                                assert(match parse_file(all[i as int]) {
                                    Ok(ts) => fits_seq(ts, base_duration()),
                                    Err(_) => true,
                                });
                            }
                            extract_seq_into(&ts, &mut events, 4);
                        },
                        Err(q) => {
                            let msg = line_error_text(q + 1);
                            diag.error_at(i + 1, q + 1, msg.as_str());
                            saw_error = true;
                            proof {
                                assert(diags_view(diag.items@) =~= d0 + recover(
                                    all.take(i + 1),
                                ).1);
                            }
                        },
                    }
                }
                i = i + 1;
                p = next;
            }
            proof {
                assert(s@.subrange(len as int, len as int) =~= Seq::<char>::empty());
                assert(lines(Seq::<char>::empty()).len() == 0);
                assert(all.len() == i);
                assert(all.take(i as int) =~= all);
            }
            if !saw_error {
                diag.error("乐谱解析失败");
                proof {
                    assert(diags_view(diag.items@) =~= d0 + score_diagnostics(score@));
                }
            } else {
                proof {
                    assert(diags_view(diag.items@) =~= d0 + score_diagnostics(score@));
                }
            }
            events
        },
    }
}

} // verus!

verus! {

/// Every diagnostic of line recovery is an error with a line and a column.
pub proof fn lemma_recover_positions(ls: Seq<Seq<char>>)
    ensures
        forall|i: int|
            0 <= i < recover(ls).1.len() ==> {
                let d = #[trigger] recover(ls).1[i];
                &&& d.severity == Severity::Error
                &&& d.line is Some
                &&& d.col is Some
            },
    decreases ls.len(),
{
    if ls.len() > 0 {
        lemma_recover_positions(ls.drop_last());
        let (ev, dg) = recover(ls.drop_last());
        let line = ls.last();
        if trim(line).len() != 0 {
            match parse_file(line) {
                Ok(_) => {},
                Err(q) => {
                    let d = line_error(ls.len() as nat, (q + 1) as nat);
                    assert forall|i: int| 0 <= i < dg.push(d).len() implies {
                        let x = #[trigger] dg.push(d)[i];
                        &&& x.severity == Severity::Error
                        &&& x.line is Some
                        &&& x.col is Some
                    } by {
                        if i < dg.len() {
                            assert(dg.push(d)[i] == dg[i]);
                        }
                    }
                },
            }
        }
    }
}

/// A score that parses records nothing; one that does not records at least
/// one diagnostic, and all of them are errors: so the caller's
/// `has_error()` tells exactly whether the score parsed.
pub proof fn lemma_failure_reported(s: Seq<char>)
    ensures
        (score_diagnostics(s).len() > 0) <==> parse_file(s) is Err,
        forall|i: int|
            0 <= i < score_diagnostics(s).len() ==> (#[trigger] score_diagnostics(s)[i]).severity
                == Severity::Error,
        crate::diagnostics::has_error_in(score_diagnostics(s)) <==> parse_file(s) is Err,
{
    lemma_recover_positions(lines(s));
    if parse_file(s) is Err {
        assert(score_diagnostics(s)[0].severity == Severity::Error);
    }
}

/// When some line of a score that does not parse as a whole fails on its
/// own, every diagnostic names its line and column.
pub proof fn lemma_bad_lines_located(s: Seq<char>)
    requires
        parse_file(s) is Err,
        recover(lines(s)).1.len() > 0,
    ensures
        forall|i: int|
            0 <= i < score_diagnostics(s).len() ==> (#[trigger] score_diagnostics(s)[i]).line is Some
                && score_diagnostics(s)[i].col is Some,
{
    lemma_recover_positions(lines(s));
}

} // verus!
