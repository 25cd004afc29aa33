//! Command-line helpers that compute rather than do I/O.
use vstd::prelude::*;

use crate::text::{push_char, str_chars};

verus! {

/// The end of `s[..e]` once trailing `/` are dropped.
pub open spec fn skip_slashes(s: Seq<char>, e: int) -> int
    decreases e,
{
    if 0 < e <= s.len() && s[e - 1] == '/' {
        skip_slashes(s, e - 1)
    } else {
        e
    }
}

/// The start of the path component that ends at `e`.
pub open spec fn comp_start(s: Seq<char>, e: int) -> int
    decreases e,
{
    if 0 < e <= s.len() && s[e - 1] != '/' {
        comp_start(s, e - 1)
    } else {
        e
    }
}

proof fn lemma_scan_back(s: Seq<char>, e: int)
    requires
        0 <= e <= s.len(),
    ensures
        0 <= skip_slashes(s, e) <= e,
        0 <= comp_start(s, e) <= e,
    decreases e,
{
    if e > 0 {
        lemma_scan_back(s, e - 1);
    }
}

/// Where the last normal component of the path `s[..e]` lies, as
/// `Path::file_name` finds it: trailing separators and `.` components are
/// passed over; a leading `.`, a `..`, the root or nothing has no file name.
pub open spec fn file_name_span(s: Seq<char>, e: int) -> Option<(int, int)>
    decreases e,
{
    let e1 = skip_slashes(s, e);
    let st = comp_start(s, e1);
    if !(0 <= st <= e1 <= e <= s.len()) || e1 == 0 {
        None
    } else if s.subrange(st, e1) == seq!['.'] {
        if 0 < st < e {
            file_name_span(s, st)
        } else {
            None
        }
    } else if s.subrange(st, e1) == seq!['.', '.'] {
        None
    } else {
        Some((st, e1))
    }
}

/// The last `.` in `s[st..e]`, if any.
pub open spec fn last_dot(s: Seq<char>, st: int, e: int) -> Option<int>
    decreases e - st,
{
    if e <= st || e > s.len() || st < 0 {
        None
    } else if s[e - 1] == '.' {
        Some(e - 1)
    } else {
        last_dot(s, st, e - 1)
    }
}

/// The end of the file stem of the file name `s[st..e]`: before its last `.`,
/// unless it has none or only a leading one.
pub open spec fn stem_end(s: Seq<char>, st: int, e: int) -> int {
    match last_dot(s, st, e) {
        Some(d) => if d == st {
            e
        } else {
            d
        },
        None => e,
    }
}

/// The path with its extension replaced by `pdf`, as
/// `Path::set_extension("pdf")` does: everything after the file stem is
/// dropped and `.pdf` appended; a path without a file name is unchanged.
pub open spec fn pdf_path(s: Seq<char>) -> Seq<char> {
    match file_name_span(s, s.len() as int) {
        Some((st, e)) => s.subrange(0, stem_end(s, st, e)) + seq!['.', 'p', 'd', 'f'],
        None => s,
    }
}

fn find_file_name(s: &Vec<char>) -> (r: Option<(usize, usize)>)
    ensures
        match r {
            Some((st, e)) => file_name_span(s@, s@.len() as int) == Some((st as int, e as int))
                && st <= e <= s@.len(),
            None => file_name_span(s@, s@.len() as int) is None,
        },
{
    let mut e = s.len();
    loop
        invariant
            e <= s@.len(),
            file_name_span(s@, s@.len() as int) == file_name_span(s@, e as int),
        decreases e,
    {
        let mut e1 = e;
        while e1 > 0 && s[e1 - 1] == '/'
            invariant
                e1 <= e <= s@.len(),
                skip_slashes(s@, e as int) == skip_slashes(s@, e1 as int),
            decreases e1,
        {
            e1 = e1 - 1;
        }
        let mut st = e1;
        while st > 0 && s[st - 1] != '/'
            invariant
                st <= e1 <= s@.len(),
                comp_start(s@, e1 as int) == comp_start(s@, st as int),
            decreases st,
        {
            st = st - 1;
        }
        proof {
            assert(skip_slashes(s@, e1 as int) == e1 as int);
            assert(comp_start(s@, st as int) == st as int);
            assert(skip_slashes(s@, e as int) == e1 as int);
            assert(comp_start(s@, e1 as int) == st as int);
        }
        if e1 == 0 {
            return None;
        }
        let ghost c = s@.subrange(st as int, e1 as int);
        if e1 - st == 1 && s[st] == '.' {
            proof {
                assert(c =~= seq!['.']);
            }
            if 0 < st && st < e {
                e = st;
            } else {
                return None;
            }
        } else if e1 - st == 2 && s[st] == '.' && s[st + 1] == '.' {
            proof {
                assert(c =~= seq!['.', '.']);
            }
            return None;
        } else {
            proof {
                if c == seq!['.'] {
                    assert(c[0] == s@[st as int]);
                }
                if c == seq!['.', '.'] {
                    assert(c[0] == s@[st as int]);
                    assert(c[1] == s@[st + 1]);
                }
            }
            return Some((st, e1));
        }
    }
}

fn find_stem_end(s: &Vec<char>, st: usize, e: usize) -> (r: usize)
    requires
        st <= e <= s@.len(),
    ensures
        r as int == stem_end(s@, st as int, e as int),
        r <= e,
{
    let mut k = e;
    while k > st && s[k - 1] != '.'
        invariant
            st <= k <= e <= s@.len(),
            last_dot(s@, st as int, e as int) == last_dot(s@, st as int, k as int),
        decreases k,
    {
        k = k - 1;
    }
    if k == st {
        e
    } else if k - 1 == st {
        e
    } else {
        k - 1
    }
}

/// The default output path for an input score: same directory and name,
/// extension `pdf`.
pub fn default_output(input: &str) -> (r: String)
    ensures
        r@ == pdf_path(input@),
{
    let s = str_chars(input);
    let mut out = String::new();
    match find_file_name(&s) {
        Some((st, e)) => {
            let end = find_stem_end(&s, st, e);
            let mut i: usize = 0;
            while i < end
                invariant
                    i <= end <= s@.len(),
                    out@ == s@.subrange(0, i as int),
                decreases end - i,
            {
                push_char(&mut out, s[i]);
                i = i + 1;
                proof {
                    assert(out@ =~= s@.subrange(0, i as int));
                }
            }
            push_char(&mut out, '.');
            push_char(&mut out, 'p');
            push_char(&mut out, 'd');
            push_char(&mut out, 'f');
            proof {
                assert(out@ =~= pdf_path(input@));
            }
        },
        None => {
            let mut i: usize = 0;
            while i < s.len()
                invariant
                    i <= s@.len(),
                    out@ == s@.subrange(0, i as int),
                decreases s@.len() - i,
            {
                push_char(&mut out, s[i]);
                i = i + 1;
                proof {
                    assert(out@ =~= s@.subrange(0, i as int));
                }
            }
            proof {
                assert(out@ =~= pdf_path(input@));
            }
        },
    }
    out
}


/// Whether `s[lo..hi]` holds no `/`.
pub open spec fn slash_free(s: Seq<char>, lo: int, hi: int) -> bool {
    forall|k: int| lo <= k < hi ==> s[k] != '/'
}

/// The start of a component is found by scanning back over non-separators.
proof fn lemma_comp_start_at(s: Seq<char>, st: int, e: int)
    requires
        0 <= st <= e <= s.len(),
        slash_free(s, st, e),
        st == 0 || s[st - 1] == '/',
    ensures
        comp_start(s, e) == st,
    decreases e,
{
    if e > st {
        lemma_comp_start_at(s, st, e - 1);
    }
}

/// What `comp_start` finds: a separator-free run that starts the path or
/// follows a separator.
proof fn lemma_comp_start_props(s: Seq<char>, e: int)
    requires
        0 <= e <= s.len(),
    ensures
        0 <= comp_start(s, e) <= e,
        slash_free(s, comp_start(s, e), e),
        comp_start(s, e) == 0 || s[comp_start(s, e) - 1] == '/',
    decreases e,
{
    if 0 < e && s[e - 1] != '/' {
        lemma_comp_start_props(s, e - 1);
    }
}

proof fn lemma_skip_slashes_props(s: Seq<char>, e: int)
    requires
        0 <= e <= s.len(),
    ensures
        0 <= skip_slashes(s, e) <= e,
        skip_slashes(s, e) > 0 ==> s[skip_slashes(s, e) - 1] != '/',
    decreases e,
{
    if 0 < e && s[e - 1] == '/' {
        lemma_skip_slashes_props(s, e - 1);
    }
}

/// A file name is a non-empty, separator-free component that starts the path
/// or follows a separator, and is neither `.` nor `..`.
proof fn lemma_file_name_props(s: Seq<char>, e: int)
    requires
        0 <= e <= s.len(),
    ensures
        file_name_span(s, e) matches Some((st, e1)) ==> {
            &&& 0 <= st < e1 <= e
            &&& slash_free(s, st, e1)
            &&& (st == 0 || s[st - 1] == '/')
        },
    decreases e,
{
    lemma_skip_slashes_props(s, e);
    let e1 = skip_slashes(s, e);
    lemma_comp_start_props(s, e1);
    let st = comp_start(s, e1);
    if e1 > 0 && s.subrange(st, e1) == seq!['.'] && 0 < st < e {
        lemma_file_name_props(s, st);
    }
}

proof fn lemma_last_dot_props(s: Seq<char>, st: int, e: int)
    requires
        0 <= st <= e <= s.len(),
    ensures
        last_dot(s, st, e) matches Some(d) ==> st <= d < e,
    decreases e - st,
{
    if e > st && s[e - 1] != '.' {
        lemma_last_dot_props(s, st, e - 1);
    }
}

/// The default output of a default output is itself: the output keeps the
/// input's directory and file stem, and its extension is already `pdf`.
pub proof fn lemma_output_path_stable(s: Seq<char>)
    ensures
        pdf_path(pdf_path(s)) == pdf_path(s),
{
    let n = s.len() as int;
    lemma_file_name_props(s, n);
    if let Some((st, e)) = file_name_span(s, n) {
        lemma_last_dot_props(s, st, e);
        let se = stem_end(s, st, e);
        assert(st < se <= e);
        let r = pdf_path(s);
        let m = r.len() as int;
        assert(r == s.subrange(0, se) + seq!['.', 'p', 'd', 'f']);
        assert(m == se + 4);
        // The last component of `r` is the stem followed by `.pdf`.
        assert(skip_slashes(r, m) == m);
        assert(slash_free(r, st, m)) by {
            assert forall|k: int| st <= k < m implies r[k] != '/' by {
                if k < se {
                    assert(r[k] == s[k]);
                }
            }
        }
        if st > 0 {
            assert(r[st - 1] == s[st - 1]);
        }
        lemma_comp_start_at(r, st, m);
        assert(r.subrange(st, m) != seq!['.']) by {
            assert(r.subrange(st, m).len() >= 5);
        }
        assert(r.subrange(st, m) != seq!['.', '.']) by {
            assert(r.subrange(st, m).len() >= 5);
        }
        assert(file_name_span(r, m) == Some((st, m)));
        // Its last dot is the one before `pdf`, past the start of the name.
        assert(r[m - 1] == 'f' && r[m - 2] == 'd' && r[m - 3] == 'p' && r[se] == '.');
        assert(last_dot(r, st, se + 1) == Some(se));
        assert(last_dot(r, st, se + 2) == Some(se));
        assert(last_dot(r, st, se + 3) == Some(se));
        assert(last_dot(r, st, m) == Some(se));
        assert(stem_end(r, st, m) == se);
        assert(r.subrange(0, se) == s.subrange(0, se));
        assert(pdf_path(r) =~= r);
    }
}

} // verus!
