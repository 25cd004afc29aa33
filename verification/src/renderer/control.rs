//! The registry of rendering controls (`#key`, `#tempo`, `#timesig`,
//! `#dynamics`) and what each needs from the music font.
use vstd::prelude::*;
use vstd::string::*;

use crate::renderer::font::table::{dynamics_table, icon_chars, icon_table};
use crate::renderer::font::time_sig;
use crate::renderer::layout::{parse_timesig, timesig};
use crate::text::{chars_eq_str, copy_range, find_char, find_char_from, str_chars};

verus! {

/// The controls that have a renderer of their own; any other control is
/// drawn as `name=value` text.
#[derive(Debug, Clone, Copy, PartialEq, Eq, Structural)]
pub enum ControlKind {
    /// `#key<C>`: the key, drawn as `1=C` above the notes.
    Key,
    /// `#tempo<...>`: the tempo mark, with `#icon<name>` note values.
    Tempo,
    /// `#timesig<N/D>`: the time signature, on the note line.
    Timesig,
    /// `#dynamics<pp>`: the dynamic mark, below the notes.
    Dynamics,
}

pub open spec fn control_kind(name: Seq<char>) -> Option<ControlKind> {
    if name == "key"@ {
        Some(ControlKind::Key)
    } else if name == "tempo"@ {
        Some(ControlKind::Tempo)
    } else if name == "timesig"@ {
        Some(ControlKind::Timesig)
    } else if name == "dynamics"@ {
        Some(ControlKind::Dynamics)
    } else {
        None
    }
}

/// Finds the renderer registered under `name`.
pub fn lookup(name: &str) -> (r: Option<ControlKind>)
    ensures
        r == control_kind(name@),
{
    let v = str_chars(name);
    if chars_eq_str(&v, "key") {
        Some(ControlKind::Key)
    } else if chars_eq_str(&v, "tempo") {
        Some(ControlKind::Tempo)
    } else if chars_eq_str(&v, "timesig") {
        Some(ControlKind::Timesig)
    } else if chars_eq_str(&v, "dynamics") {
        Some(ControlKind::Dynamics)
    } else {
        None
    }
}

/// The first position at or after `i` where `pat` occurs in `s`.
pub open spec fn find_pat(s: Seq<char>, pat: Seq<char>, i: int) -> Option<int>
    decreases s.len() - i,
{
    if i < 0 || i + pat.len() > s.len() {
        None
    } else if s.subrange(i, i + pat.len()) == pat {
        Some(i)
    } else if i < s.len() {
        find_pat(s, pat, i + 1)
    } else {
        None
    }
}

/// The SMuFL characters of the `#icon<name>` marks of a tempo text, in order;
/// the scan stops at a mark without its closing `>`.
pub open spec fn tempo_icons(rest: Seq<char>) -> Seq<char>
    decreases rest.len(),
{
    match find_pat(rest, "#icon<"@, 0) {
        None => seq![],
        Some(st) => {
            let after = rest.subrange(st + "#icon<"@.len(), rest.len() as int);
            let e = find_char(after, '>', 0);
            if 0 <= st && st + "#icon<"@.len() <= rest.len() && 0 <= e < after.len() {
                (match icon_table(after.subrange(0, e)) {
                    Some(cs) => cs,
                    None => seq![],
                }) + tempo_icons(after.subrange(e + 1, after.len() as int))
            } else {
                seq![]
            }
        },
    }
}

/// The glyphs a control needs from the music font besides its text.
pub open spec fn prewarm(k: ControlKind, value: Seq<char>) -> Seq<char> {
    match k {
        ControlKind::Key => seq![],
        ControlKind::Tempo => tempo_icons(value),
        ControlKind::Timesig => match timesig(value) {
            Some((n, d)) => seq![time_sig::glyph(n), time_sig::glyph(d)],
            None => seq![],
        },
        ControlKind::Dynamics => match dynamics_table(value) {
            Some(c) => seq![c],
            None => seq![],
        },
    }
}

/// A piece of a tempo text as it is drawn: the music-font glyphs of an
/// `#icon<name>` mark, or one character of text.
#[derive(Debug)]
pub enum TempoPiece {
    Icon(Vec<char>),
    Char(char),
}

/// The value of a tempo piece.
pub enum PieceView {
    Icon(Seq<char>),
    Char(char),
}

impl View for TempoPiece {
    type V = PieceView;

    open spec fn view(&self) -> PieceView {
        match self {
            TempoPiece::Icon(cs) => PieceView::Icon(cs@),
            TempoPiece::Char(c) => PieceView::Char(*c),
        }
    }
}

pub open spec fn pieces_view(s: Seq<TempoPiece>) -> Seq<PieceView> {
    Seq::new(s.len(), |i: int| s[i]@)
}

/// A piece of one text character.
pub open spec fn text_piece(c: char) -> PieceView {
    PieceView::Char(c)
}

/// The `#icon<name>` mark at the start of `s`, if there is one with a known
/// name: the first `>` after `#icon<` closes it. Gives the icon's glyphs and
/// the position of the `>`.
pub open spec fn icon_mark(s: Seq<char>) -> Option<(Seq<char>, int)> {
    let e = find_char(s, '>', 6);
    if s.len() >= 6 && s.subrange(0, 6) == "#icon<"@ && 6 <= e < s.len() {
        match icon_table(s.subrange(6, e)) {
            Some(cs) => Some((cs, e)),
            None => None,
        }
    } else {
        None
    }
}

/// A tempo text split into the pieces it is drawn from: an icon mark at the
/// start gives the icon's glyphs, anything else one character of text.
pub open spec fn tempo_pieces(s: Seq<char>) -> Seq<PieceView>
    decreases s.len(),
{
    if s.len() == 0 {
        seq![]
    } else {
        match icon_mark(s) {
            None => seq![text_piece(s[0])] + tempo_pieces(s.drop_first()),
            Some(m) => seq![PieceView::Icon(m.0)] + tempo_pieces(
                s.subrange(m.1 + 1, s.len() as int),
            ),
        }
    }
}

/// Copies a static glyph list.
fn copy_glyphs(cs: &'static [char]) -> (r: Vec<char>)
    ensures
        r@ == cs@,
{
    let mut r: Vec<char> = Vec::new();
    let mut j: usize = 0;
    while j < cs.len()
        invariant
            j <= cs@.len(),
            r@ == cs@.take(j as int),
        decreases cs@.len() - j,
    {
        r.push(cs[j]);
        j = j + 1;
        proof {
            assert(r@ =~= cs@.take(j as int));
        }
    }
    proof {
        assert(cs@.take(j as int) =~= cs@);
    }
    r
}

/// The icon mark that starts at `p` in `v`.
fn icon_at(v: &Vec<char>, p: usize) -> (r: Option<(Vec<char>, usize)>)
    requires
        p < v@.len(),
    ensures
        match r {
            Some((g, e)) => p < e < v@.len() && icon_mark(v@.subrange(p as int, v@.len() as int))
                == Some((g@, e - p)),
            None => icon_mark(v@.subrange(p as int, v@.len() as int)) is None,
        },
{
    let len = v.len();
    let ghost rest = v@.subrange(p as int, len as int);
    if !matches_at(v, p, "#icon<") {
        proof {
            reveal_strlit("#icon<");
            if rest.len() >= 6 {
                assert(rest.subrange(0, 6) =~= v@.subrange(p as int, p + 6));
            }
        }
        return None;
    }
    proof {
        reveal_strlit("#icon<");
        assert(rest.subrange(0, 6) =~= v@.subrange(p as int, p + 6));
    }
    let e = find_char_from(v, '>', p + 6);
    proof {
        crate::text::lemma_find_char_suffix(v@, '>', p as int, p + 6);
    }
    if e >= len {
        return None;
    }
    let name = copy_range(v, p + 6, e);
    proof {
        assert(rest.subrange(6, e - p) =~= name@);
    }
    match icon_chars(&name) {
        Some(cs) => Some((copy_glyphs(cs), e)),
        None => None,
    }
}

proof fn lemma_text_step(rest: Seq<char>)
    requires
        rest.len() > 0,
        icon_mark(rest) is None,
    ensures
        tempo_pieces(rest) == seq![text_piece(rest[0])] + tempo_pieces(rest.drop_first()),
{
}

proof fn lemma_pieces_push(s: Seq<TempoPiece>, x: TempoPiece)
    ensures
        pieces_view(s.push(x)) == pieces_view(s).push(x@),
{
    assert(pieces_view(s.push(x)) =~= pieces_view(s).push(x@));
}

/// Splits a tempo text into the pieces it is drawn from.
pub fn split_tempo(value: &str) -> (r: Vec<TempoPiece>)
    ensures
        pieces_view(r@) == tempo_pieces(value@),
{
    let v = str_chars(value);
    let len = v.len();
    let mut out: Vec<TempoPiece> = Vec::new();
    let mut p: usize = 0;
    proof {
        assert(v@.subrange(0, len as int) =~= v@);
        assert(pieces_view(out@) + tempo_pieces(v@) =~= tempo_pieces(v@));
    }
    while p < len
        invariant
            len == v@.len(),
            p <= len,
            v@ == value@,
            tempo_pieces(value@) == pieces_view(out@) + tempo_pieces(
                v@.subrange(p as int, len as int),
            ),
        decreases len - p,
    {
        let ghost rest = v@.subrange(p as int, len as int);
        let ghost before = pieces_view(out@);
        match icon_at(&v, p) {
            Some((glyphs, e)) => {
                let ghost g = glyphs@;
                let ghost old_out = out@;
                let piece = TempoPiece::Icon(glyphs);
                proof {
                    lemma_pieces_push(old_out, piece);
                }
                out.push(piece);
                proof {
                    assert(rest.subrange(e - p + 1, rest.len() as int) =~= v@.subrange(
                        e + 1,
                        len as int,
                    ));
                    assert(pieces_view(out@) == before.push(PieceView::Icon(g)));
                    assert(tempo_pieces(rest) == seq![PieceView::Icon(g)] + tempo_pieces(
                        v@.subrange(e + 1, len as int),
                    ));
                }
                p = e + 1;
            },
            None => {
                let c = v[p];
                let ghost old_out = out@;
                proof {
                    lemma_text_step(rest);
                    lemma_pieces_push(old_out, TempoPiece::Char(c));
                    assert(rest.drop_first() =~= v@.subrange(p + 1, len as int));
                }
                out.push(TempoPiece::Char(c));
                p = p + 1;
            },
        }
        proof {
            assert(tempo_pieces(value@) =~= pieces_view(out@) + tempo_pieces(
                v@.subrange(p as int, len as int),
            ));
        }
    }
    proof {
        assert(pieces_view(out@) + Seq::<PieceView>::empty() =~= pieces_view(out@));
    }
    out
}

/// Whether `pat` occurs in `s` at `i`.
fn matches_at(s: &Vec<char>, i: usize, pat: &str) -> (r: bool)
    requires
        i <= s@.len(),
    ensures
        r == (i + pat@.len() <= s@.len() && s@.subrange(i as int, i + pat@.len()) == pat@),
{
    let n = pat.unicode_len();
    let len = s.len();
    if n > len - i {
        return false;
    }
    let mut j: usize = 0;
    while j < n
        invariant
            len == s@.len(),
            n == pat@.len(),
            i + n <= s@.len(),
            j <= n,
            forall|k: int| 0 <= k < j ==> s@[i + k] == pat@[k],
        decreases n - j,
    {
        if s[i + j] != pat.get_char(j) {
            proof {
                assert(s@.subrange(i as int, i + n)[j as int] != pat@[j as int]);
            }
            return false;
        }
        j = j + 1;
    }
    proof {
        assert(s@.subrange(i as int, i + n) =~= pat@);
    }
    true
}

/// The first occurrence of `pat` in `s` at or after `from`.
fn find_pat_from(s: &Vec<char>, pat: &str, from: usize) -> (r: Option<usize>)
    requires
        from <= s@.len(),
    ensures
        match r {
            Some(i) => find_pat(s@, pat@, from as int) == Some(i as int) && from <= i && i
                + pat@.len() <= s@.len(),
            None => find_pat(s@, pat@, from as int) is None,
        },
{
    let mut i = from;
    while i <= s.len()
        invariant
            from <= i,
            i <= s@.len() + 1,
            find_pat(s@, pat@, from as int) == find_pat(s@, pat@, i as int),
        decreases s@.len() + 1 - i,
    {
        if matches_at(s, i, pat) {
            return Some(i);
        }
        if i == s.len() {
            return None;
        }
        i = i + 1;
    }
    None
}

/// The icon glyphs of a tempo text.
fn tempo_prewarm(value: &str) -> (r: Vec<char>)
    ensures
        r@ == tempo_icons(value@),
{
    let v = str_chars(value);
    let len = v.len();
    let pat_len = "#icon<".unicode_len();
    let mut out: Vec<char> = Vec::new();
    let mut p: usize = 0;
    proof {
        assert(v@.subrange(0, len as int) =~= v@);
    }
    loop
        invariant
            len == v@.len(),
            p <= len,
            pat_len == "#icon<"@.len(),
            tempo_icons(value@) == out@ + tempo_icons(v@.subrange(p as int, len as int)),
            v@ == value@,
        decreases len - p,
    {
        let ghost rest = v@.subrange(p as int, len as int);
        match find_pat_from(&v, "#icon<", p) {
            None => {
                proof {
                    lemma_find_pat_suffix(v@, "#icon<"@, p as int, p as int);
                    assert(tempo_icons(rest) =~= Seq::<char>::empty());
                    assert(out@ + Seq::<char>::empty() =~= out@);
                }
                return out;
            },
            Some(st) => {
                let a = st + pat_len;
                let e = find_char_from(&v, '>', a);
                proof {
                    lemma_find_pat_suffix(v@, "#icon<"@, p as int, p as int);
                    crate::text::lemma_find_char_suffix(v@, '>', a as int, a as int);
                    let after = rest.subrange(st - p + pat_len, rest.len() as int);
                    assert(after =~= v@.subrange(a as int, len as int));
                }
                if e >= len {
                    proof {
                        assert(tempo_icons(rest) =~= Seq::<char>::empty());
                        assert(out@ + Seq::<char>::empty() =~= out@);
                    }
                    return out;
                }
                let name = copy_range(&v, a, e);
                let ghost before = out@;
                match icon_chars(&name) {
                    Some(cs) => {
                        let mut j: usize = 0;
                        while j < cs.len()
                            invariant
                                j <= cs@.len(),
                                out@ == before + cs@.take(j as int),
                            decreases cs@.len() - j,
                        {
                            out.push(cs[j]);
                            j = j + 1;
                            proof {
                                assert(out@ =~= before + cs@.take(j as int));
                            }
                        }
                        proof {
                            assert(cs@.take(j as int) =~= cs@);
                        }
                    },
                    None => {
                        proof {
                            assert(out@ =~= before + Seq::<char>::empty());
                        }
                    },
                }
                proof {
                    let after = v@.subrange(a as int, len as int);
                    assert(after.subrange(0, e - a) =~= name@);
                    assert(after.subrange(e - a + 1, after.len() as int) =~= v@.subrange(
                        e + 1,
                        len as int,
                    ));
                }
                p = e + 1;
            },
        }
    }
}

/// `find_pat` on a suffix is `find_pat` on the whole, shifted.
proof fn lemma_find_pat_suffix(s: Seq<char>, pat: Seq<char>, base: int, from: int)
    requires
        0 <= base <= from <= s.len(),
    ensures
        find_pat(s.subrange(base, s.len() as int), pat, from - base) == match find_pat(
            s,
            pat,
            from,
        ) {
            Some(i) => Some(i - base),
            None => None,
        },
    decreases s.len() - from,
{
    let t = s.subrange(base, s.len() as int);
    if from + pat.len() <= s.len() {
        assert(t.subrange(from - base, from - base + pat.len()) =~= s.subrange(
            from,
            from + pat.len(),
        ));
        if from < s.len() {
            lemma_find_pat_suffix(s, pat, base, from + 1);
        }
    }
}

impl ControlKind {
    /// The glyphs the control needs from the music font, to be embedded
    /// before rendering.
    pub fn prewarm_chars(&self, value: &str) -> (r: Vec<char>)
        ensures
            r@ == prewarm(*self, value@),
    {
        match self {
            ControlKind::Key => {
                let v: Vec<char> = Vec::new();
                proof {
                    assert(v@ =~= Seq::<char>::empty());
                }
                v
            },
            ControlKind::Tempo => tempo_prewarm(value),
            ControlKind::Timesig => {
                let mut v: Vec<char> = Vec::new();
                match parse_timesig(value) {
                    Some((n, d)) => {
                        v.push(time_sig::digit(n));
                        v.push(time_sig::digit(d));
                    },
                    None => {},
                }
                proof {
                    assert(v@ =~= prewarm(*self, value@));
                }
                v
            },
            ControlKind::Dynamics => {
                let mut v: Vec<char> = Vec::new();
                match crate::renderer::font::table::dynamics_char(value) {
                    Some(c) => {
                        v.push(c);
                    },
                    None => {},
                }
                proof {
                    assert(v@ =~= prewarm(*self, value@));
                }
                v
            },
        }
    }
}

} // verus!
