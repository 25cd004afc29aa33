use linglun::diagnostics::{Diagnostics, Severity};
use linglun::parser::{
    flatten_beam, parse_and_extract, Accidental, BarlineType, BeamElement, Note, ScoreEvent,
};

/// 解析成功的辅助函数：失败时直接 panic（诊断收集器累积错误后断言）
fn parse(src: &str) -> Vec<ScoreEvent> {
    let mut diag = Diagnostics::new();
    let events = parse_and_extract(src, &mut diag);
    assert!(!diag.has_error(), "解析应当成功，诊断: {:?}", diag.items);
    events
}

/// 解析但不要求成功，返回诊断收集器与事件（用于失败用例）
fn parse_with_diag(src: &str) -> (Diagnostics, Vec<ScoreEvent>) {
    let mut diag = Diagnostics::new();
    let events = parse_and_extract(src, &mut diag);
    (diag, events)
}

/// 断言事件是音符且各字段符合预期
fn assert_note(
    event: &ScoreEvent,
    pitch: u8,
    octave: i8,
    duration: u32,
    dotted: bool,
    accidental: Option<Accidental>,
) {
    match event {
        ScoreEvent::Note(n) => {
            assert_eq!(
                (n.pitch, n.octave, n.duration, n.dotted, n.accidental),
                (pitch, octave, duration, dotted, accidental),
                "音符字段不符: {:?}",
                n
            );
        }
        other => panic!("预期 Note，实际 {:?}", other),
    }
}

/// 逐元素收集 tight 标记（递归）
fn tight_flags(elements: &[BeamElement]) -> Vec<bool> {
    let mut v = Vec::new();
    for e in elements {
        match e {
            BeamElement::Note(_, t) => v.push(*t),
            BeamElement::Nested(inner, t) => {
                v.push(*t);
                v.extend(tight_flags(inner));
            }
        }
    }
    v
}

// ---------- 音符 ----------

#[test]
fn plain_note() {
    let events = parse("1");
    assert_eq!(events.len(), 1);
    assert_note(&events[0], 1, 0, 4, false, None);
}

#[test]
fn rest_note() {
    let events = parse("0");
    assert_eq!(events.len(), 1);
    assert_note(&events[0], 0, 0, 4, false, None);
    assert!(matches!(&events[0], ScoreEvent::Note(n) if n.is_rest()));
}

#[test]
fn all_pitches() {
    let events = parse("1234567");
    assert_eq!(events.len(), 7);
    for (i, e) in events.iter().enumerate() {
        assert_note(e, (i + 1) as u8, 0, 4, false, None);
    }
}

#[test]
fn octave_up_forms() {
    // ^ 单独 → 升 1；^+1 → +1；^+2 → +2；^= → +1；^=2 → +2
    let events = parse("1^ 2^+1 3^+2 4^= 5^=2");
    assert_eq!(events.len(), 5);
    assert_note(&events[0], 1, 1, 4, false, None);
    assert_note(&events[1], 2, 1, 4, false, None);
    assert_note(&events[2], 3, 2, 4, false, None);
    assert_note(&events[3], 4, 1, 4, false, None);
    assert_note(&events[4], 5, 2, 4, false, None);
}

#[test]
fn octave_down_forms() {
    // ^- → -1；^-1 → -1；^-2 → -2
    let events = parse("1^- 2^-1 3^-2");
    assert_eq!(events.len(), 3);
    assert_note(&events[0], 1, -1, 4, false, None);
    assert_note(&events[1], 2, -1, 4, false, None);
    assert_note(&events[2], 3, -2, 4, false, None);
}

#[test]
fn dotted_note() {
    let events = parse("1.");
    assert_note(&events[0], 1, 0, 4, true, None);
}

#[test]
fn dotted_note_with_space() {
    // 非原子规则 note 会跨空格吸收附点（"1 ." 与 "1." 等价）
    let events = parse("1 .");
    assert_note(&events[0], 1, 0, 4, true, None);
}

#[test]
fn dash_is_extend_not_low_octave() {
    // 低八度必须写 1^-；单独的 "-" 是延长记号
    let events = parse("1-");
    assert_eq!(events.len(), 2);
    assert_note(&events[0], 1, 0, 4, false, None);
    assert!(matches!(events[1], ScoreEvent::Extend));
}

#[test]
fn standalone_octave_change_produces_nothing() {
    // "^+1" 脱离音符单独出现时是 octave_change，不产生事件
    assert!(parse("^+1").is_empty());
}

#[test]
fn note_display() {
    let n = Note {
        pitch: 1,
        octave: 1,
        duration: 4,
        dotted: false,
        accidental: None,
    };
    assert_eq!(n.to_string(), "1^+");
    let n = Note {
        pitch: 2,
        octave: -2,
        duration: 8,
        dotted: true,
        accidental: Some(Accidental::Flat),
    };
    assert_eq!(n.to_string(), "b2--.");
}

// ---------- 和弦 ----------

#[test]
fn chord() {
    let events = parse("{1 3 5}");
    assert_eq!(events.len(), 1);
    match &events[0] {
        ScoreEvent::Chord(notes) => {
            assert_eq!(
                notes.iter().map(|n| n.pitch).collect::<Vec<_>>(),
                vec![1, 3, 5]
            );
            assert!(notes.iter().all(|n| n.duration == 4));
        }
        other => panic!("预期 Chord，实际 {:?}", other),
    }
}

#[test]
fn nested_chord_flattens() {
    let events = parse("{1 {2 3}}");
    match &events[0] {
        ScoreEvent::Chord(notes) => {
            assert_eq!(
                notes.iter().map(|n| n.pitch).collect::<Vec<_>>(),
                vec![1, 2, 3]
            );
        }
        other => panic!("预期 Chord，实际 {:?}", other),
    }
}

// ---------- 减时线组 ----------

#[test]
fn beam_doubles_duration_and_tight() {
    let events = parse("[12]");
    assert_eq!(events.len(), 1);
    match &events[0] {
        ScoreEvent::Beam(elements) => {
            assert_eq!(elements.len(), 2);
            assert!(
                matches!(&elements[0], BeamElement::Note(n, false) if n.pitch == 1 && n.duration == 8)
            );
            // 无空格 → 第二个音符紧贴
            assert!(
                matches!(&elements[1], BeamElement::Note(n, true) if n.pitch == 2 && n.duration == 8)
            );
        }
        other => panic!("预期 Beam，实际 {:?}", other),
    }
}

#[test]
fn beam_space_means_not_tight() {
    // bracket 是原子规则，方括号内空格可见：[1 2] 中第二个音符不紧贴
    let events = parse("[1 2]");
    match &events[0] {
        ScoreEvent::Beam(elements) => {
            assert!(matches!(&elements[1], BeamElement::Note(n, false) if n.pitch == 2));
        }
        other => panic!("预期 Beam，实际 {:?}", other),
    }
}

#[test]
fn space_makes_beam_loose() {
    // 核心差异：[12] 紧贴（true），[1 2] 松散（false）
    let tight = parse("[12]");
    let loose = parse("[1 2]");
    match (&tight[0], &loose[0]) {
        (ScoreEvent::Beam(a), ScoreEvent::Beam(b)) => {
            assert!(matches!(&a[1], BeamElement::Note(_, true)));
            assert!(matches!(&b[1], BeamElement::Note(_, false)));
        }
        other => panic!("预期两个 Beam，实际 {:?}", other),
    }
}

#[test]
fn beam_nested_doubles_duration_again() {
    let events = parse("[5 [67]]");
    match &events[0] {
        ScoreEvent::Beam(elements) => {
            assert_eq!(elements.len(), 2);
            assert!(
                matches!(&elements[0], BeamElement::Note(n, false) if n.pitch == 5 && n.duration == 8)
            );
            match &elements[1] {
                BeamElement::Nested(inner, tight) => {
                    // [5 [67]] 中间有空格 → Nested 不紧贴（bracket 原子规则下空格可见）
                    assert!(!tight);
                    assert_eq!(inner.len(), 2);
                    assert!(
                        matches!(&inner[0], BeamElement::Note(n, false) if n.pitch == 6 && n.duration == 16)
                    );
                    assert!(
                        matches!(&inner[1], BeamElement::Note(n, true) if n.pitch == 7 && n.duration == 16)
                    );
                }
                other => panic!("预期 Nested，实际 {:?}", other),
            }
        }
        other => panic!("预期 Beam，实际 {:?}", other),
    }
}

#[test]
fn beam_tight_nested() {
    // [2[34]] 方括号间无空格 → Nested 紧贴
    let events = parse("[2[34]]");
    match &events[0] {
        ScoreEvent::Beam(elements) => match &elements[1] {
            BeamElement::Nested(_, tight) => assert!(*tight),
            other => panic!("预期 Nested，实际 {:?}", other),
        },
        other => panic!("预期 Beam，实际 {:?}", other),
    }
}

#[test]
fn beam_with_accidental() {
    let events = parse("[#sharp<1> 2 3]");
    match &events[0] {
        ScoreEvent::Beam(elements) => {
            assert_eq!(elements.len(), 3);
            assert!(
                matches!(&elements[0], BeamElement::Note(n, false) if n.pitch == 1 && n.accidental == Some(Accidental::Sharp))
            );
        }
        other => panic!("预期 Beam，实际 {:?}", other),
    }
}

#[test]
fn flatten_beam_unwraps_nested() {
    let events = parse("[5 [67]]");
    match &events[0] {
        ScoreEvent::Beam(elements) => {
            let pitches = flatten_beam(elements)
                .iter()
                .map(|n| n.pitch)
                .collect::<Vec<_>>();
            assert_eq!(pitches, vec![5, 6, 7]);
        }
        other => panic!("预期 Beam，实际 {:?}", other),
    }
}

// ---------- 连线 ----------

#[test]
fn slur() {
    let events = parse("(1 2 3 4)");
    assert_eq!(events.len(), 1);
    match &events[0] {
        ScoreEvent::Slur(notes) => {
            assert_eq!(
                notes.iter().map(|n| n.pitch).collect::<Vec<_>>(),
                vec![1, 2, 3, 4]
            );
            assert!(notes.iter().all(|n| n.duration == 4));
        }
        other => panic!("预期 Slur，实际 {:?}", other),
    }
}

#[test]
fn slur_with_dotted() {
    let events = parse("(1 2.)");
    match &events[0] {
        ScoreEvent::Slur(notes) => {
            assert_eq!(notes.len(), 2);
            assert!(notes[1].dotted);
        }
        other => panic!("预期 Slur，实际 {:?}", other),
    }
}

// ---------- 控制指令 ----------

#[test]
fn key_control() {
    assert!(
        matches!(&parse("#key<C>")[0], ScoreEvent::Control(n, v) if n == "key" && v == "C")
    );
}

#[test]
fn tempo_control_keeps_icon_markup() {
    assert!(matches!(
        &parse("#tempo<#icon<note_4> = 120>")[0],
        ScoreEvent::Control(n, v) if n == "tempo" && v == "#icon<note_4> = 120"
    ));
}

#[test]
fn tempo_control_chinese() {
    assert!(
        matches!(&parse("#tempo<中速>")[0], ScoreEvent::Control(n, v) if n == "tempo" && v == "中速")
    );
}

#[test]
fn timesig_control() {
    assert!(
        matches!(&parse("#timesig<4/4>")[0], ScoreEvent::Control(n, v) if n == "timesig" && v == "4/4")
    );
}

#[test]
fn dynamics_control() {
    assert!(
        matches!(&parse("#dynamics<ff>")[0], ScoreEvent::Control(n, v) if n == "dynamics" && v == "ff")
    );
}

#[test]
fn title_control_chinese() {
    assert!(
        matches!(&parse("#title<我的歌>")[0], ScoreEvent::Control(n, v) if n == "title" && v == "我的歌")
    );
}

#[test]
fn unknown_control() {
    assert!(
        matches!(&parse("#foo<bar>")[0], ScoreEvent::Control(n, v) if n == "foo" && v == "bar")
    );
}

#[test]
fn control_without_param() {
    assert!(
        matches!(&parse("#foo")[0], ScoreEvent::Control(n, v) if n == "foo" && v.is_empty())
    );
}

// ---------- 变音记号（合并进音符） ----------

#[test]
fn sharp_flat_natural_merge() {
    let events = parse("#sharp<1> 2 #flat<3> 4 #nat<5>");
    assert_eq!(events.len(), 5);
    assert_note(&events[0], 1, 0, 4, false, Some(Accidental::Sharp));
    assert_note(&events[1], 2, 0, 4, false, None);
    assert_note(&events[2], 3, 0, 4, false, Some(Accidental::Flat));
    assert_note(&events[3], 4, 0, 4, false, None);
    assert_note(&events[4], 5, 0, 4, false, Some(Accidental::Natural));
}

#[test]
fn sharp_attaches_to_first_beam_note() {
    let events = parse("#sharp<[12] 3>");
    assert_eq!(events.len(), 2);
    match &events[0] {
        ScoreEvent::Beam(elements) => {
            assert!(
                matches!(&elements[0], BeamElement::Note(n, _) if n.accidental == Some(Accidental::Sharp))
            );
            assert!(matches!(&elements[1], BeamElement::Note(n, _) if n.accidental.is_none()));
        }
        other => panic!("预期 Beam，实际 {:?}", other),
    }
    assert_note(&events[1], 3, 0, 4, false, None);
}

// ---------- 装饰音 ----------

#[test]
fn grace_basic() {
    let events = parse("#grace<5 6>");
    assert_eq!(events.len(), 1);
    match &events[0] {
        ScoreEvent::Grace(elements) => {
            assert_eq!(elements.len(), 2);
            assert!(
                matches!(&elements[0], BeamElement::Note(n, _) if n.pitch == 5 && n.duration == 4)
            );
            assert!(
                matches!(&elements[1], BeamElement::Note(n, _) if n.pitch == 6 && n.duration == 4)
            );
        }
        other => panic!("预期 Grace，实际 {:?}", other),
    }
}

#[test]
fn grace_keeps_beam_structure() {
    // #grace<[1[2^- 3]]>：整体是一个 beam → 被包成单个 Nested，
    // 内部保留嵌套减时线结构与时值（1/8 → 内层 1/16）。
    // 装饰音组内空格被忽略：2^- 与 3 之间的空格不会拆开它们（仍紧贴）。
    let events = parse("#grace<[1[2^- 3]]>");
    assert_eq!(events.len(), 1);
    match &events[0] {
        ScoreEvent::Grace(elements) => {
            assert_eq!(elements.len(), 1);
            match &elements[0] {
                BeamElement::Nested(inner, tight) => {
                    assert!(!tight); // grace 包裹层固定不紧贴
                    assert_eq!(inner.len(), 2);
                    assert!(
                        matches!(&inner[0], BeamElement::Note(n, false) if n.pitch == 1 && n.duration == 8)
                    );
                    match &inner[1] {
                        BeamElement::Nested(deep, deep_tight) => {
                            assert!(*deep_tight); // 1[ 之间无空格 → 紧贴
                            assert_eq!(deep.len(), 2);
                            assert!(
                                matches!(&deep[0], BeamElement::Note(n, false) if n.pitch == 2 && n.octave == -1 && n.duration == 16)
                            );
                            // 2^- 与 3 之间有空格，但装饰音组内空格被忽略 → 仍紧贴
                            assert!(
                                matches!(&deep[1], BeamElement::Note(n, true) if n.pitch == 3 && n.duration == 16)
                            );
                        }
                        other => panic!("预期 Nested，实际 {:?}", other),
                    }
                }
                other => panic!("预期 Nested，实际 {:?}", other),
            }
        }
        other => panic!("预期 Grace，实际 {:?}", other),
    }
}

#[test]
fn grace_ignores_internal_spaces() {
    // 装饰音组内空格与无空格结构完全一致（[1 2 3] ≡ [123]），
    // 保证渲染时不会把组内音符拆开。
    // 注：不能用 [2^- 3] vs [2^-3] 对照——无空格时 ^-3 会被解析为八度 -3。
    let with_space = parse("#grace<[1 2 3]>");
    let without_space = parse("#grace<[123]>");
    assert_eq!(with_space.len(), 1);
    assert_eq!(without_space.len(), 1);
    match (&with_space[0], &without_space[0]) {
        (ScoreEvent::Grace(a), ScoreEvent::Grace(b)) => {
            let notes_a = flatten_beam(a);
            let notes_b = flatten_beam(b);
            assert_eq!(notes_a.len(), notes_b.len());
            for (na, nb) in notes_a.iter().zip(&notes_b) {
                assert_eq!(
                    (na.pitch, na.octave, na.duration),
                    (nb.pitch, nb.octave, nb.duration)
                );
            }
            // 逐元素对比 tight 标记（递归）
            assert_eq!(tight_flags(a), tight_flags(b));
        }
        other => panic!("预期两个 Grace，实际 {:?}", other),
    }
}

// ---------- 渐强渐弱 ----------

#[test]
fn cresc_expands_notes_and_counts() {
    // #cresc 参数内音符展开进主事件流；value 记录音乐事件数（小节线不计）
    let events = parse("#cresc<1[2[34]] | 5671>");
    assert_eq!(events.len(), 8);
    assert!(matches!(&events[0], ScoreEvent::Control(n, v) if n == "cresc" && v == "6"));
    assert_note(&events[1], 1, 0, 4, false, None);
    match &events[2] {
        ScoreEvent::Beam(elements) => {
            assert!(
                matches!(&elements[0], BeamElement::Note(n, false) if n.pitch == 2 && n.duration == 8)
            );
            match &elements[1] {
                BeamElement::Nested(inner, tight) => {
                    assert!(*tight); // 2[ 之间无空格 → 紧贴
                    assert!(
                        matches!(&inner[0], BeamElement::Note(n, false) if n.pitch == 3 && n.duration == 16)
                    );
                    assert!(
                        matches!(&inner[1], BeamElement::Note(n, true) if n.pitch == 4 && n.duration == 16)
                    );
                }
                other => panic!("预期 Nested，实际 {:?}", other),
            }
        }
        other => panic!("预期 Beam，实际 {:?}", other),
    }
    assert!(matches!(
        &events[3],
        ScoreEvent::Barline(BarlineType::Single)
    ));
    assert_note(&events[4], 5, 0, 4, false, None);
    assert_note(&events[5], 6, 0, 4, false, None);
    assert_note(&events[6], 7, 0, 4, false, None);
    assert_note(&events[7], 1, 0, 4, false, None);
}

#[test]
fn dim_expands_notes_and_counts() {
    let events = parse("#dim<1 2 3>");
    assert_eq!(events.len(), 4);
    assert!(matches!(&events[0], ScoreEvent::Control(n, v) if n == "dim" && v == "3"));
    assert_note(&events[1], 1, 0, 4, false, None);
    assert_note(&events[2], 2, 0, 4, false, None);
    assert_note(&events[3], 3, 0, 4, false, None);
}

// ---------- 小节线 ----------

#[test]
fn barline_types() {
    assert!(matches!(
        &parse("|")[0],
        ScoreEvent::Barline(BarlineType::Single)
    ));
    assert!(matches!(
        &parse("||")[0],
        ScoreEvent::Barline(BarlineType::Double)
    ));
    assert!(matches!(
        &parse("|||")[0],
        ScoreEvent::Barline(BarlineType::Final)
    ));
    assert!(matches!(
        &parse("||:")[0],
        ScoreEvent::Barline(BarlineType::RepeatStart)
    ));
    assert!(matches!(
        &parse(":||")[0],
        ScoreEvent::Barline(BarlineType::RepeatEnd)
    ));
}

#[test]
fn barline_longest_match_wins() {
    // ||: 不会被拆成 | 和 |:
    let events = parse("1 ||: 2");
    assert_eq!(events.len(), 3);
    assert!(matches!(
        &events[1],
        ScoreEvent::Barline(BarlineType::RepeatStart)
    ));
}

// ---------- 延长记号 ----------

#[test]
fn extend() {
    let events = parse("-");
    assert_eq!(events.len(), 1);
    assert!(matches!(events[0], ScoreEvent::Extend));
}

// ---------- 综合 ----------

#[test]
fn mixed_line() {
    let events = parse("1 2 3 4 | 5 6 7 1^ |");
    assert_eq!(events.len(), 10);
    for (i, e) in events[0..4].iter().enumerate() {
        assert_note(e, (i + 1) as u8, 0, 4, false, None);
    }
    assert!(matches!(
        &events[4],
        ScoreEvent::Barline(BarlineType::Single)
    ));
    for (i, e) in events[5..8].iter().enumerate() {
        assert_note(e, (5 + i) as u8, 0, 4, false, None);
    }
    assert_note(&events[8], 1, 1, 4, false, None);
    assert!(matches!(
        &events[9],
        ScoreEvent::Barline(BarlineType::Single)
    ));
}

#[test]
fn newlines_are_ignored() {
    let events = parse("1 2\n3 4\r\n5");
    assert_eq!(events.len(), 5);
    assert_note(&events[4], 5, 0, 4, false, None);
}

#[test]
fn complex_score() {
    let score = "1 2 3 4 | [12] (3 4) {1 3 5} | #sharp<1> 2 - ||: 5 6 :|| 7 1^ |||";
    let events = parse(score);
    assert_eq!(events.len(), 19);
    assert!(matches!(
        &events[4],
        ScoreEvent::Barline(BarlineType::Single)
    ));
    assert!(matches!(&events[5], ScoreEvent::Beam(_)));
    assert!(matches!(&events[6], ScoreEvent::Slur(_)));
    assert!(matches!(&events[7], ScoreEvent::Chord(_)));
    assert!(matches!(&events[11], ScoreEvent::Extend));
    assert!(matches!(
        &events[12],
        ScoreEvent::Barline(BarlineType::RepeatStart)
    ));
    assert!(matches!(
        &events[15],
        ScoreEvent::Barline(BarlineType::RepeatEnd)
    ));
    assert!(matches!(
        &events[18],
        ScoreEvent::Barline(BarlineType::Final)
    ));
}

#[test]
fn event_display() {
    let events = parse("1 2 3 4");
    assert_eq!(events[0].to_string(), "[NOTE] 1 (1/4)");
    assert_eq!(parse("|||")[0].to_string(), "[BARLINE] |||");
}

// ---------- 失败与边界 ----------

#[test]
fn empty_input_ok() {
    assert!(parse("").is_empty());
}

#[test]
fn invalid_input_errors() {
    let (diag, events) = parse_with_diag("abc");
    assert!(diag.has_error());
    assert!(events.is_empty());
}

#[test]
fn multi_line_errors_all_collected() {
    // 两行都坏 → 收集器应同时记录两个错误（而不是只报第一个）
    let (diag, _) = parse_with_diag("abc\n1 2 3\ndef");
    let errs = diag
        .items
        .iter()
        .filter(|d| d.severity == Severity::Error)
        .count();
    assert_eq!(errs, 2, "两行错误都应被收集: {:?}", diag.items);
    // 错误带行列位置
    for d in diag.items.iter().filter(|d| d.severity == Severity::Error) {
        assert!(d.line.is_some() && d.col.is_some(), "应带行列: {:?}", d);
    }
}

#[test]
fn good_and_bad_lines_mixed() {
    // 好行照常出事件，坏行记入收集器（不互相阻断）
    let (diag, events) = parse_with_diag("1 2 3\nxxx\n4 5");
    assert!(diag.has_error());
    assert_eq!(events.len(), 5, "好行事件应保留: {:?}", events);
}
