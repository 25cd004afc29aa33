//! Collects the errors and warnings of parsing and rendering so that they
//! are reported together at the end instead of stopping at the first one.
use vstd::prelude::*;

use crate::text::{decimal, push_char, push_decimal, push_str};

verus! {

/// Severity of a diagnostic.
#[derive(Debug, Clone, Copy, PartialEq, Eq, Structural)]
pub enum Severity {
    Error,
    Warning,
}

/// One diagnostic: severity, message, and an optional 1-based line/column.
#[derive(Debug, Clone)]
pub struct Diagnostic {
    pub severity: Severity,
    pub message: String,
    pub line: Option<usize>,
    pub col: Option<usize>,
}

/// The value of a diagnostic.
pub struct DiagnosticView {
    pub severity: Severity,
    pub message: Seq<char>,
    pub line: Option<usize>,
    pub col: Option<usize>,
}

impl View for Diagnostic {
    type V = DiagnosticView;

    open spec fn view(&self) -> DiagnosticView {
        DiagnosticView {
            severity: self.severity,
            message: self.message@,
            line: self.line,
            col: self.col,
        }
    }
}

pub open spec fn diags_view(s: Seq<Diagnostic>) -> Seq<DiagnosticView> {
    Seq::new(s.len(), |i: int| s[i]@)
}

/// Whether some diagnostic of the list is an error.
pub open spec fn has_error_in(s: Seq<DiagnosticView>) -> bool {
    exists|i: int| 0 <= i < s.len() && (#[trigger] s[i]).severity == Severity::Error
}

/// The diagnostics collector, threaded through parsing and rendering.
pub struct Diagnostics {
    pub items: Vec<Diagnostic>,
}

impl Default for Diagnostics {
    fn default() -> (r: Self)
        ensures
            r.items@.len() == 0,
    {
        Diagnostics { items: Vec::new() }
    }
}

pub proof fn lemma_diags_push(s: Seq<Diagnostic>, d: Diagnostic)
    ensures
        diags_view(s.push(d)) == diags_view(s).push(d@),
{
    assert(diags_view(s.push(d)) =~= diags_view(s).push(d@));
}

impl Diagnostics {
    /// An empty collector.
    pub fn new() -> (r: Self)
        ensures
            r.items@.len() == 0,
    {
        Diagnostics { items: Vec::new() }
    }

    /// Records an error without a position.
    pub fn error(&mut self, msg: &str)
        ensures
            diags_view(final(self).items@) == diags_view(old(self).items@).push(
                DiagnosticView { severity: Severity::Error, message: msg@, line: None, col: None },
            ),
    {
        let d = Diagnostic {
            severity: Severity::Error,
            message: String::from_str(msg),
            line: None,
            col: None,
        };
        let ghost before = self.items@;
        self.items.push(d);
        proof {
            lemma_diags_push(before, d);
        }
    }

    /// Records an error at a 1-based line and column.
    pub fn error_at(&mut self, line: usize, col: usize, msg: &str)
        ensures
            diags_view(final(self).items@) == diags_view(old(self).items@).push(
                DiagnosticView {
                    severity: Severity::Error,
                    message: msg@,
                    line: Some(line),
                    col: Some(col),
                },
            ),
    {
        let d = Diagnostic {
            severity: Severity::Error,
            message: String::from_str(msg),
            line: Some(line),
            col: Some(col),
        };
        let ghost before = self.items@;
        self.items.push(d);
        proof {
            lemma_diags_push(before, d);
        }
    }

    /// Records a warning without a position.
    pub fn warn(&mut self, msg: &str)
        ensures
            diags_view(final(self).items@) == diags_view(old(self).items@).push(
                DiagnosticView { severity: Severity::Warning, message: msg@, line: None, col: None },
            ),
    {
        let d = Diagnostic {
            severity: Severity::Warning,
            message: String::from_str(msg),
            line: None,
            col: None,
        };
        let ghost before = self.items@;
        self.items.push(d);
        proof {
            lemma_diags_push(before, d);
        }
    }

    /// Whether any error has been recorded (warnings do not count).
    pub fn has_error(&self) -> (r: bool)
        ensures
            r == has_error_in(diags_view(self.items@)),
    {
        let mut i: usize = 0;
        while i < self.items.len()
            invariant
                i <= self.items@.len(),
                forall|j: int| 0 <= j < i ==> self.items@[j].severity != Severity::Error,
            decreases self.items@.len() - i,
        {
            if self.items[i].severity == Severity::Error {
                proof {
                    assert(diags_view(self.items@)[i as int].severity == Severity::Error);
                }
                return true;
            }
            i = i + 1;
        }
        proof {
            assert forall|j: int| 0 <= j < diags_view(self.items@).len() implies (#[trigger] diags_view(
                self.items@,
            )[j]).severity != Severity::Error by {
                assert(diags_view(self.items@)[j] == self.items@[j]@);
            }
        }
        false
    }

    /// The lines of the report, one per diagnostic in order (printed to
    /// stderr by the program).
    pub fn report_lines(&self) -> (r: Vec<String>)
        ensures
            r@.len() == self.items@.len(),
            forall|i: int| 0 <= i < r@.len() ==> #[trigger] r@[i]@ == report_line(self.items@[i]@),
    {
        let mut out: Vec<String> = Vec::new();
        let mut i: usize = 0;
        while i < self.items.len()
            invariant
                i <= self.items@.len(),
                out@.len() == i,
                forall|j: int| 0 <= j < i ==> #[trigger] out@[j]@ == report_line(self.items@[j]@),
            decreases self.items@.len() - i,
        {
            let line = diagnostic_line(&self.items[i]);
            out.push(line);
            i = i + 1;
        }
        out
    }
}

/// The position prefix of a report line.
pub open spec fn position_text(line: Option<usize>, col: Option<usize>) -> Seq<char> {
    match (line, col) {
        (Some(l), Some(c)) => "第"@ + decimal(l as nat) + "行 第"@ + decimal(c as nat) + "列: "@,
        (Some(l), None) => "第"@ + decimal(l as nat) + "行: "@,
        _ => seq![],
    }
}

/// How a diagnostic is reported: `[ERROR] ` or `[WARN] `, the position,
/// then the message.
pub open spec fn report_line(d: DiagnosticView) -> Seq<char> {
    (match d.severity {
        Severity::Error => "[ERROR] "@,
        Severity::Warning => "[WARN] "@,
    }) + position_text(d.line, d.col) + d.message
}

fn diagnostic_line(d: &Diagnostic) -> (r: String)
    ensures
        r@ == report_line(d@),
{
    let mut s = String::new();
    match d.severity {
        Severity::Error => push_str(&mut s, "[ERROR] "),
        Severity::Warning => push_str(&mut s, "[WARN] "),
    }
    match (d.line, d.col) {
        (Some(l), Some(c)) => {
            push_str(&mut s, "第");
            push_decimal(&mut s, l as u64);
            push_str(&mut s, "行 第");
            push_decimal(&mut s, c as u64);
            push_str(&mut s, "列: ");
        },
        (Some(l), None) => {
            push_str(&mut s, "第");
            push_decimal(&mut s, l as u64);
            push_str(&mut s, "行: ");
        },
        _ => {},
    }
    push_str(&mut s, d.message.as_str());
    proof {
        assert(s@ =~= report_line(d@));
    }
    s
}

} // verus!

verus! {

/// A warning never makes the collector report an error, and an error always
/// does: `has_error` is decided by errors alone.
pub proof fn lemma_errors_decide(v: Seq<DiagnosticView>, d: DiagnosticView)
    ensures
        d.severity == Severity::Warning ==> (has_error_in(v.push(d)) <==> has_error_in(v)),
        d.severity == Severity::Error ==> has_error_in(v.push(d)),
{
    if d.severity == Severity::Warning {
        if has_error_in(v.push(d)) {
            let i = choose|i: int|
                0 <= i < v.push(d).len() && (#[trigger] v.push(d)[i]).severity == Severity::Error;
            assert(i < v.len());
            assert(v[i] == v.push(d)[i]);
        }
        if has_error_in(v) {
            let i = choose|i: int| 0 <= i < v.len() && (#[trigger] v[i]).severity == Severity::Error;
            assert(v.push(d)[i] == v[i]);
        }
    } else if d.severity == Severity::Error {
        assert(v.push(d)[v.len() as int] == d);
    }
}

} // verus!
