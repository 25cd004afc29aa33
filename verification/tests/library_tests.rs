use std::path::Path;

use linglun::cli::default_output;
use linglun::diagnostics::{Diagnostics, Severity};
use linglun::parser::{
    flatten_beam, parse_and_extract, score_durations_fit, Accidental, BarlineType, BeamElement,
    Note, ScoreEvent,
};
use linglun::renderer::control::{lookup, split_tempo, ControlKind, TempoPiece};
use linglun::renderer::font::face::font_data;
use linglun::renderer::font::{
    accidental, char_class, dynamics, dynamics_char, icon_to_smufl, metro, time_sig, CharClass,
};
use linglun::renderer::layout::{
    collect_beam_accidentals, collect_extra_chars, duration_line_count, extract_page_meta,
    chord_accidental, group_measures, hairpin_count, is_real_event, parse_timesig, stack_chord,
};

fn events_of(src: &str) -> Vec<ScoreEvent> {
    let mut diag = Diagnostics::new();
    let events = parse_and_extract(src, &mut diag);
    assert!(!diag.has_error(), "{:?}", diag.items);
    events
}

fn note(pitch: u8, duration: u32) -> Note {
    Note { pitch, octave: 0, duration, dotted: false, accidental: None }
}

// ---------- grammar edge cases ----------

#[test]
fn octave_count_out_of_range_is_one() {
    let events = events_of("1^+300 2^-128 3^=5 4^+0");
    let octaves: Vec<i8> = events
        .iter()
        .map(|e| match e {
            ScoreEvent::Note(n) => n.octave,
            other => panic!("{:?}", other),
        })
        .collect();
    assert_eq!(octaves, vec![1, -1, 5, 0]);
}

#[test]
fn loose_note_takes_octave_after_space() {
    let events = events_of("1 ^ .");
    assert_eq!(events.len(), 1);
    match &events[0] {
        ScoreEvent::Note(n) => assert_eq!((n.pitch, n.octave, n.dotted), (1, 1, true)),
        other => panic!("{:?}", other),
    }
}

#[test]
fn dot_inside_bracket_is_not_absorbed() {
    let events = events_of("[1 .2]");
    match &events[0] {
        ScoreEvent::Beam(els) => {
            assert_eq!(els.len(), 2);
            assert!(matches!(&els[0], BeamElement::Note(n, false) if !n.dotted));
            // the stray dot does not count as a space
            assert!(matches!(&els[1], BeamElement::Note(n, false) if n.pitch == 2));
        }
        other => panic!("{:?}", other),
    }
}

#[test]
fn bracket_with_chord_falls_back_to_events() {
    let events = events_of("[1 {2 3}]");
    assert_eq!(events.len(), 2);
    assert!(matches!(&events[0], ScoreEvent::Note(n) if n.pitch == 1 && n.duration == 8));
    match &events[1] {
        ScoreEvent::Chord(ns) => {
            assert_eq!(ns.iter().map(|n| n.duration).collect::<Vec<_>>(), vec![8, 8]);
        }
        other => panic!("{:?}", other),
    }
}

#[test]
fn tie_with_bracket_falls_back_to_events() {
    let events = events_of("([12] 3)");
    assert_eq!(events.len(), 2);
    assert!(matches!(&events[0], ScoreEvent::Beam(els) if els.len() == 2));
    assert!(matches!(&events[1], ScoreEvent::Note(n) if n.pitch == 3 && n.duration == 4));
}

#[test]
fn empty_groups() {
    assert!(events_of("{}").is_empty());
    assert!(events_of("()").is_empty());
    assert!(events_of("[]").is_empty());
}

#[test]
fn unknown_control_inside_bracket_breaks_beam() {
    let events = events_of("[#key<C> 1]");
    assert_eq!(events.len(), 2);
    assert!(matches!(&events[0], ScoreEvent::Control(n, v) if n == "key" && v == "C"));
    assert!(matches!(&events[1], ScoreEvent::Note(n) if n.duration == 8));
}

#[test]
fn control_param_is_trimmed_and_nested() {
    let events = events_of("#tempo< #icon<note_4> = 96 >");
    assert!(matches!(&events[0], ScoreEvent::Control(n, v) if n == "tempo" && v == "#icon<note_4> = 96"));
}

#[test]
fn param_trim_uses_unicode_space() {
    let events = events_of("#title<\u{3000}歌\u{3000}>");
    assert!(matches!(&events[0], ScoreEvent::Control(_, v) if v == "歌"));
}

#[test]
fn unclosed_control_param_fails() {
    let mut diag = Diagnostics::new();
    let events = parse_and_extract("#tempo<abc", &mut diag);
    assert!(diag.has_error());
    assert!(events.is_empty());
    // the grammar read the parameter to the end, looking for its `>`
    assert_eq!(diag.items[0].col, Some(11));
}

#[test]
fn cresc_count_skips_barlines_and_controls() {
    let events = events_of("#cresc<1 | #key<C> (2 3) {4 5}>");
    assert!(matches!(&events[0], ScoreEvent::Control(n, v) if n == "cresc" && v == "3"));
    assert_eq!(events.len(), 6);
}

#[test]
fn sharp_on_chord_and_slur() {
    let events = events_of("#flat<{1 3}> #nat<(5 6)>");
    match &events[0] {
        ScoreEvent::Chord(ns) => {
            assert_eq!(ns[0].accidental, Some(Accidental::Flat));
            assert_eq!(ns[1].accidental, None);
        }
        other => panic!("{:?}", other),
    }
    match &events[1] {
        ScoreEvent::Slur(ns) => {
            assert_eq!(ns[0].accidental, Some(Accidental::Natural));
            assert_eq!(ns[1].accidental, None);
        }
        other => panic!("{:?}", other),
    }
}

#[test]
fn sharp_reaches_into_nested_beam() {
    // the first note of the group is inside the nested group
    let events = events_of("#sharp<[[12] 3]>");
    match &events[0] {
        ScoreEvent::Beam(els) => {
            let notes = flatten_beam(els);
            let accs: Vec<Option<Accidental>> = notes.iter().map(|n| n.accidental).collect();
            assert_eq!(accs, vec![Some(Accidental::Sharp), None, None]);
        }
        other => panic!("{:?}", other),
    }
}

#[test]
fn accidental_inside_bracket_keeps_tightness() {
    let events = events_of("[1#flat<2>]");
    match &events[0] {
        ScoreEvent::Beam(els) => {
            assert!(matches!(&els[1], BeamElement::Note(n, true) if n.accidental == Some(Accidental::Flat)));
        }
        other => panic!("{:?}", other),
    }
}

#[test]
fn deepest_nesting_that_fits() {
    let open29 = "[".repeat(29);
    let close29 = "]".repeat(29);
    let src29 = format!("{}1{}", open29, close29);
    assert!(score_durations_fit(&src29));
    let events = events_of(&src29);
    let notes = match &events[0] {
        ScoreEvent::Beam(els) => flatten_beam(els),
        other => panic!("{:?}", other),
    };
    assert_eq!(notes[0].duration, 1u32 << 31);
    let src30 = format!("[{}1{}]", open29, close29);
    assert!(!score_durations_fit(&src30));
}

#[test]
fn durations_fit_ignores_text_params() {
    let src = format!("#tempo<{}1{}>", "[".repeat(40), "]".repeat(40));
    assert!(score_durations_fit(&src));
    let src = format!("#sharp<{}1{}>", "[".repeat(40), "]".repeat(40));
    assert!(!score_durations_fit(&src));
}

// ---------- recovery and diagnostics ----------

#[test]
fn failure_is_reported_exactly_when_parsing_fails() {
    let (mut ok, mut bad) = (Diagnostics::new(), Diagnostics::new());
    parse_and_extract("1 2 | 3", &mut ok);
    parse_and_extract("1 2 | x", &mut bad);
    assert!(!ok.has_error() && ok.items.is_empty());
    assert!(bad.has_error());
    assert!(bad.items.iter().all(|d| d.severity == Severity::Error));
}

#[test]
fn bad_line_column_and_message() {
    let mut diag = Diagnostics::new();
    let events = parse_and_extract("1\r\n2 3 x\r\n\r\n  \n4", &mut diag);
    assert_eq!(events.len(), 2);
    assert_eq!(diag.items.len(), 1);
    let d = &diag.items[0];
    assert_eq!((d.line, d.col), (Some(2), Some(5)));
    assert_eq!(d.message, "该行解析失败：第5列无法识别");
}

#[test]
fn report_lines_format() {
    let mut diag = Diagnostics::new();
    diag.error_at(3, 7, "坏");
    diag.warn("字体缺失");
    diag.error("总体失败");
    let lines = diag.report_lines();
    assert_eq!(
        lines,
        vec![
            "[ERROR] 第3行 第7列: 坏".to_string(),
            "[WARN] 字体缺失".to_string(),
            "[ERROR] 总体失败".to_string(),
        ]
    );
}

#[test]
fn warnings_are_not_errors() {
    let mut diag = Diagnostics::new();
    diag.warn("w");
    assert!(!diag.has_error());
    diag.error("e");
    assert!(diag.has_error());
}

// ---------- text forms ----------

#[test]
fn event_text_forms() {
    let events = events_of("0. {1 3} [12] (1 2^+2) #key<C> ||: - #grace<5>");
    let texts: Vec<String> = events.iter().map(|e| e.to_string()).collect();
    assert_eq!(
        texts,
        vec![
            "[REST] 0. (1/4)",
            "[CHORD] [1, 3] (1/4)",
            "[BEAM] [1, 2] (1/8)",
            "[SLUR] [1, 2^++] (1/4)",
            "[CONTROL] #key<C>",
            "[BARLINE] ||:",
            "[EXTEND] -",
            "[GRACE] [5] (1/4)",
        ]
    );
}

#[test]
fn note_text_with_sharp_and_low_octave() {
    let n = Note { pitch: 7, octave: -1, duration: 4, dotted: false, accidental: Some(Accidental::Sharp) };
    assert_eq!(n.to_string(), "#7-");
    let n = Note { pitch: 12, octave: 0, duration: 4, dotted: true, accidental: Some(Accidental::Natural) };
    assert_eq!(n.to_string(), "n12.");
}

// ---------- fonts and controls ----------

#[test]
fn timesig_parsing() {
    assert_eq!(parse_timesig("4/4"), Some((4, 4)));
    assert_eq!(parse_timesig("  3 / 8 "), Some((3, 8)));
    assert_eq!(parse_timesig("+3/04"), Some((3, 4)));
    assert_eq!(parse_timesig("4/4/4"), None);
    assert_eq!(parse_timesig("256/4"), None);
    assert_eq!(parse_timesig("a/4"), None);
    assert_eq!(parse_timesig("/4"), None);
    assert_eq!(parse_timesig("-3/4"), None);
    assert_eq!(parse_timesig("34"), None);
}

#[test]
fn duration_lines() {
    assert_eq!(duration_line_count(1), 0);
    assert_eq!(duration_line_count(4), 0);
    assert_eq!(duration_line_count(8), 1);
    assert_eq!(duration_line_count(12), 1);
    assert_eq!(duration_line_count(16), 2);
    assert_eq!(duration_line_count(32), 3);
    assert_eq!(duration_line_count(u32::MAX), 29);
}

#[test]
fn dynamics_lookup() {
    assert_eq!(dynamics_char("ff"), Some(dynamics::FF));
    assert_eq!(dynamics_char("FF"), Some(dynamics::FF));
    assert_eq!(dynamics_char("mF"), Some(dynamics::MF));
    assert_eq!(dynamics_char("sfz"), Some('\u{E539}'));
    assert_eq!(dynamics_char("x"), None);
    assert_eq!(dynamics_char(""), None);
}

#[test]
fn icon_lookup() {
    assert_eq!(icon_to_smufl("note_4"), Some(&[metro::QUARTER][..]));
    assert_eq!(icon_to_smufl("dotted_half"), Some(&[metro::HALF, metro::DOT][..]));
    assert_eq!(icon_to_smufl("nat"), Some(&[accidental::NATURAL][..]));
    assert_eq!(icon_to_smufl("note_5"), None);
}

#[test]
fn char_classes_and_digits() {
    assert_eq!(char_class('a'), CharClass::Ascii);
    assert_eq!(char_class('\u{7f}'), CharClass::Ascii);
    assert_eq!(char_class('中'), CharClass::NonAscii);
    assert_eq!(time_sig::digit(4), '\u{E084}');
    assert_eq!(time_sig::digit(0), '\u{E080}');
}

#[test]
fn control_registry() {
    assert_eq!(lookup("tempo"), Some(ControlKind::Tempo));
    assert_eq!(lookup("key"), Some(ControlKind::Key));
    assert_eq!(lookup("title"), None);
    assert_eq!(
        ControlKind::Tempo.prewarm_chars("#icon<note_4> = 120 #icon<dotted_half> #icon<x> Allegro"),
        vec![metro::QUARTER, metro::HALF, metro::DOT]
    );
    assert_eq!(ControlKind::Tempo.prewarm_chars("#icon<note_4 = 120"), Vec::<char>::new());
    assert_eq!(ControlKind::Timesig.prewarm_chars("3/4"), vec!['\u{E083}', '\u{E084}']);
    assert_eq!(ControlKind::Dynamics.prewarm_chars("pp"), vec![dynamics::PP]);
    assert_eq!(ControlKind::Key.prewarm_chars("C"), Vec::<char>::new());
}

// ---------- layout decisions ----------

#[test]
fn measures_partition_events() {
    let events = events_of("1 2 | 3 || 4");
    let ms = group_measures(&events);
    assert_eq!(ms.iter().map(|m| m.len()).collect::<Vec<_>>(), vec![3, 2, 1]);
    assert!(matches!(ms[0][2], ScoreEvent::Barline(BarlineType::Single)));
    assert!(matches!(ms[1][1], ScoreEvent::Barline(BarlineType::Double)));
    let total: usize = ms.iter().map(|m| m.len()).sum();
    assert_eq!(total, events.len());
    assert!(group_measures(&[]).is_empty());
}

#[test]
fn page_meta_first_wins() {
    let events = events_of("#title<A> #title<B> 1 #credit<C> #key<D>");
    let (meta, rest) = extract_page_meta(&events);
    assert_eq!(meta.title.as_deref(), Some("A"));
    assert_eq!(meta.subtitle, None);
    assert_eq!(meta.credit.as_deref(), Some("C"));
    assert_eq!(rest.len(), 2);
    assert!(matches!(&rest[1], ScoreEvent::Control(n, _) if n == "key"));
}

#[test]
fn extra_chars_collected() {
    let events = events_of("#key<C> #sharp<1> #dynamics<f> [#flat<2> 3]");
    let s = collect_extra_chars(&events);
    let expected: String = ['k', 'e', 'y', '=', 'C', accidental::SHARP, 'd', 'y', 'n', 'a', 'm', 'i', 'c', 's', '=', 'f', dynamics::F, accidental::FLAT]
        .iter()
        .collect();
    assert_eq!(s, expected);
    let mut t = String::from("x");
    let els = vec![BeamElement::Nested(vec![BeamElement::Note(Note { accidental: Some(Accidental::Natural), ..note(1, 8) }, false)], false)];
    collect_beam_accidentals(&els, &mut t);
    assert_eq!(t, format!("x{}", accidental::NATURAL));
}

#[test]
fn real_events() {
    assert!(is_real_event(&ScoreEvent::Control("timesig".to_string(), "3/4".to_string())));
    assert!(!is_real_event(&ScoreEvent::Control("key".to_string(), "C".to_string())));
    assert!(is_real_event(&ScoreEvent::Barline(BarlineType::Single)));
    assert!(!is_real_event(&ScoreEvent::Slur(vec![])));
    assert!(is_real_event(&ScoreEvent::Slur(vec![note(1, 4)])));
    assert!(is_real_event(&ScoreEvent::Extend));
}

#[test]
fn default_output_matches_path_semantics() {
    for input in [
        "a/b.llpartition",
        "score",
        ".bashrc",
        "dir/",
        "a.b.c",
        "",
        "..",
        "/",
        ".",
        "./",
        "a/.",
        "a/..",
        "foo.",
        "x/y.z/",
        "/abs/file.txt",
        "a//b.c//",
    ] {
        let expected = Path::new(input).with_extension("pdf").to_string_lossy().into_owned();
        assert_eq!(default_output(input), expected, "input {:?}", input);
    }
}

#[test]
fn flatten_concat_example() {
    let a = vec![BeamElement::Note(note(1, 8), false)];
    let b = vec![BeamElement::Nested(vec![BeamElement::Note(note(2, 16), false)], true)];
    let mut ab = a.clone();
    ab.extend(b.clone());
    let joined: Vec<u8> = flatten_beam(&ab).iter().map(|n| n.pitch).collect();
    let mut parts: Vec<u8> = flatten_beam(&a).iter().map(|n| n.pitch).collect();
    parts.extend(flatten_beam(&b).iter().map(|n| n.pitch));
    assert_eq!(joined, parts);
}

// ---------- hairpins and tempo text ----------

#[test]
fn hairpin_count_reads_the_trimmed_value() {
    assert_eq!(hairpin_count("3"), 3);
    assert_eq!(hairpin_count(" 12 "), 12);
    assert_eq!(hairpin_count("+4"), 4);
    assert_eq!(hairpin_count(""), 0);
    assert_eq!(hairpin_count("x"), 0);
    assert_eq!(hairpin_count("-1"), 0);
    assert_eq!(hairpin_count("99999999999999999999999"), 0);
}

#[test]
fn hairpin_count_matches_cresc_value() {
    let events = events_of("#cresc<1 2 | 3>");
    match &events[0] {
        ScoreEvent::Control(n, v) => {
            assert_eq!(n, "cresc");
            assert_eq!(hairpin_count(v), 3);
        }
        other => panic!("{:?}", other),
    }
}

#[test]
fn split_tempo_icons_and_text() {
    let pieces = split_tempo("#icon<note_4d> = 90");
    assert_eq!(pieces.len(), 6);
    match &pieces[0] {
        TempoPiece::Icon(g) => assert_eq!(g, &vec![metro::QUARTER, metro::DOT]),
        other => panic!("{:?}", other),
    }
    let text: Vec<char> = pieces[1..]
        .iter()
        .map(|p| match p {
            TempoPiece::Char(c) => *c,
            other => panic!("{:?}", other),
        })
        .collect();
    assert_eq!(text, vec![' ', '=', ' ', '9', '0']);
}

#[test]
fn split_tempo_unknown_or_unclosed_icon_is_text() {
    let pieces = split_tempo("#icon<foo>");
    assert_eq!(pieces.len(), 10);
    assert!(pieces.iter().all(|p| matches!(p, TempoPiece::Char(_))));
    let pieces = split_tempo("#icon<note_4");
    assert_eq!(pieces.len(), 12);
    let pieces = split_tempo("中速#icon<sharp>");
    assert_eq!(pieces.len(), 3);
    assert!(matches!(&pieces[0], TempoPiece::Char('中')));
    match &pieces[2] {
        TempoPiece::Icon(g) => assert_eq!(g, &vec![accidental::SHARP]),
        other => panic!("{:?}", other),
    }
}

// ---------- note values ----------

fn all_durations(events: &[ScoreEvent]) -> Vec<u32> {
    let mut out = Vec::new();
    for e in events {
        match e {
            ScoreEvent::Note(n) => out.push(n.duration),
            ScoreEvent::Chord(ns) | ScoreEvent::Slur(ns) => out.extend(ns.iter().map(|n| n.duration)),
            ScoreEvent::Beam(els) | ScoreEvent::Grace(els) => {
                out.extend(flatten_beam(els).iter().map(|n| n.duration))
            }
            _ => {}
        }
    }
    out
}

#[test]
fn every_duration_is_a_halved_quarter() {
    let events = events_of("1 [2[3[45]]] {1 3} (5 6) #grace<[1[2 3]]> #sharp<[67]> #cresc<1 | 2>");
    let durations = all_durations(&events);
    assert_eq!(durations, vec![4, 8, 16, 32, 32, 4, 4, 4, 4, 8, 16, 16, 8, 8, 4, 4]);
    for d in durations {
        assert!(d >= 4 && d.is_power_of_two(), "{}", d);
    }
}

#[test]
fn halving_adds_one_underline() {
    let mut d: u32 = 4;
    let mut lines = 0;
    while d <= 1 << 20 {
        assert_eq!(duration_line_count(d), lines);
        d *= 2;
        lines += 1;
    }
}

#[test]
fn default_output_of_default_output_is_stable() {
    for input in ["a/b.llpartition", "score", ".bashrc", "dir/", "a.b.c", "", "..", "/", "x/./", "foo."] {
        let once = default_output(input);
        assert_eq!(default_output(&once), once, "input {:?}", input);
    }
    assert_eq!(default_output("dir/song.llpartition"), "dir/song.pdf");
}

#[test]
fn bracket_halves_every_note_inside() {
    // Not a beam group (a chord and a tie inside): its notes are still eighths.
    let events = events_of("[1{23}(45)[6]]");
    let durations = all_durations(&events);
    assert_eq!(durations, vec![8, 8, 8, 8, 8, 16]);
    // A beam group with an accidental whose parameter is itself bracketed.
    let events = events_of("[#sharp<[{1} 2]> 3]");
    let durations = all_durations(&events);
    assert!(durations.iter().all(|d| *d >= 8 && (*d / 8).is_power_of_two()), "{:?}", durations);
}

#[test]
fn chord_stacks_highest_first_keeping_order() {
    let mut a = note(3, 4);
    a.octave = 1;
    let b = note(5, 4);
    let mut c = note(3, 4);
    c.accidental = Some(Accidental::Flat);
    let d = note(1, 4);
    let stacked = stack_chord(&[a, b, c, d]);
    let pitches: Vec<u8> = stacked.iter().map(|n| n.pitch).collect();
    assert_eq!(pitches, vec![5, 3, 3, 1]);
    // the two 3s keep their written order
    assert_eq!(stacked[1].octave, 1);
    assert_eq!(stacked[2].accidental, Some(Accidental::Flat));
    assert_eq!(chord_accidental(&stacked), Some(Accidental::Flat));
    assert_eq!(chord_accidental(&stack_chord(&[b, d])), None);
    assert!(stack_chord(&[]).is_empty());
}

fn first_error_col(src: &str) -> Option<usize> {
    let mut diag = Diagnostics::new();
    parse_and_extract(src, &mut diag);
    assert!(diag.has_error());
    diag.items[0].col
}

#[test]
fn error_column_is_the_furthest_the_grammar_reached() {
    // an unclosed bracket: the grammar read its elements to the end
    assert_eq!(first_error_col("[1 2"), Some(5));
    // nested: into the unclosed tie inside the bracket
    assert_eq!(first_error_col("[1 (2"), Some(6));
    assert_eq!(first_error_col("{1 2"), Some(5));
    // a wrong closing character stops the elements there
    assert_eq!(first_error_col("[1)"), Some(3));
    // an unclosed control parameter inside a bracket
    assert_eq!(first_error_col("[1 #a<b"), Some(8));
    // no group opens at the failure
    assert_eq!(first_error_col("1 2 x"), Some(5));
    // one column per line for a score that fails as a whole
    let mut diag = Diagnostics::new();
    parse_and_extract("1 2\n[3 4\nx", &mut diag);
    let cols: Vec<(Option<usize>, Option<usize>)> = diag.items.iter().map(|d| (d.line, d.col)).collect();
    assert_eq!(cols, vec![(Some(2), Some(5)), (Some(3), Some(1))]);
}

#[test]
fn rest_prints_whatever_its_octave() {
    let mut n = note(0, 4);
    n.octave = i8::MIN;
    n.dotted = true;
    assert_eq!(n.to_string(), "0.");
    assert_eq!(ScoreEvent::Note(n).to_string(), "[REST] 0. (1/4)");
    let mut m = note(3, 4);
    m.octave = -2;
    assert_eq!(m.to_string(), "3--");
}

// ---------- font faces ----------

fn be16(v: &mut Vec<u8>, x: u16) {
    v.extend_from_slice(&x.to_be_bytes());
}

fn be32(v: &mut Vec<u8>, x: u32) {
    v.extend_from_slice(&x.to_be_bytes());
}

/// A minimal single-face font with `head`, `hhea` and `maxp`, and a `CFF `
/// table when `cff` is given.
fn tiny_font(cff: Option<&[u8]>) -> Vec<u8> {
    let mut head = Vec::new();
    be32(&mut head, 0x0001_0000);
    be32(&mut head, 0);
    be32(&mut head, 0);
    be32(&mut head, 0x5F0F_3CF5);
    be16(&mut head, 0);
    be16(&mut head, 2048); // units per em
    head.extend_from_slice(&[0; 16]);
    for v in [-100i16, -250, 900, 1100] {
        head.extend_from_slice(&v.to_be_bytes());
    }
    be16(&mut head, 0);
    be16(&mut head, 8);
    be16(&mut head, 2);
    be16(&mut head, 0); // short loca
    be16(&mut head, 0);
    let mut hhea = Vec::new();
    be32(&mut hhea, 0x0001_0000);
    hhea.extend_from_slice(&800i16.to_be_bytes());
    hhea.extend_from_slice(&(-200i16).to_be_bytes());
    hhea.extend_from_slice(&[0; 26]);
    be16(&mut hhea, 1);
    let mut maxp = Vec::new();
    be32(&mut maxp, 0x0000_5000);
    be16(&mut maxp, 1);
    let mut tables: Vec<(&[u8; 4], Vec<u8>)> = Vec::new();
    if let Some(c) = cff {
        tables.push((b"CFF ", c.to_vec()));
    }
    tables.push((b"head", head));
    tables.push((b"hhea", hhea));
    tables.push((b"maxp", maxp));
    let mut out = Vec::new();
    be32(&mut out, 0x0001_0000);
    be16(&mut out, tables.len() as u16);
    be16(&mut out, 0);
    be16(&mut out, 0);
    be16(&mut out, 0);
    let mut offset = 12 + 16 * tables.len() as u32;
    for (tag, data) in &tables {
        out.extend_from_slice(*tag);
        be32(&mut out, 0);
        be32(&mut out, offset);
        be32(&mut out, data.len() as u32);
        offset += data.len() as u32;
    }
    for (_, data) in &tables {
        out.extend_from_slice(data);
    }
    out
}

#[test]
fn font_data_reads_cff_and_metrics() {
    let bytes = tiny_font(Some(&[1, 2, 3, 4, 5]));
    match font_data(&bytes, 0) {
        Ok(fd) => {
            assert_eq!(fd.cff, vec![1, 2, 3, 4, 5]);
            assert_eq!(fd.units_per_em, 2048);
            assert_eq!(fd.ascender, 800);
            assert_eq!(fd.descender, -200);
            assert_eq!(fd.bbox, (-100, -250, 900, 1100));
        }
        Err(e) => panic!("{}", e),
    }
}

#[test]
fn font_data_without_cff_table() {
    let bytes = tiny_font(None);
    match font_data(&bytes, 0) {
        Err(e) => assert_eq!(e, "字体不含 CFF 表，请使用 OTF 格式"),
        Ok(_) => panic!("a face without CFF must be refused"),
    }
}

#[test]
fn font_data_on_bytes_that_are_no_font() {
    match font_data(b"hello, fonts", 3) {
        Err(e) => assert_eq!(e, "解析字体失败 (face=3): UnknownMagic"),
        Ok(_) => panic!("not a font"),
    }
    let bytes = tiny_font(Some(&[1]));
    match font_data(&bytes, 7) {
        Err(e) => assert_eq!(e, "解析字体失败 (face=7): FaceIndexOutOfBounds"),
        Ok(_) => panic!("a single face has no face 7"),
    }
}
