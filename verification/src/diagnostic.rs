//! Diagnostics and machine-applicable fixes.
use vstd::prelude::*;
use vstd::utf8::*;
use vstd::string::*;
use std::ops::Range;

verus! {

#[derive(Debug, Clone, Copy, PartialEq, Eq, PartialOrd, Ord, Structural)]
pub enum Severity {
    /// Markup that renders wrongly or breaks structure.
    Error,
    /// Suspicious but possibly deliberate.
    Warning,
}

pub open spec fn severity_str(s: Severity) -> &'static str {
    match s {
        Severity::Error => "error",
        Severity::Warning => "warning",
    }
}

impl Severity {
    pub fn as_str(self) -> (r: &'static str)
        ensures
            r == severity_str(self),
    {
        match self {
            Severity::Error => "error",
            Severity::Warning => "warning",
        }
    }
}

/// How confident we are that applying a fix preserves author intent.
///
/// Only `Safe` fixes are applied without an explicit opt-in: most errors
/// (an unbalanced `'''`, for instance) have several plausible repairs, and
/// guessing wrong silently corrupts an article.
#[derive(Debug, Clone, Copy, PartialEq, Eq, Structural)]
pub enum Applicability {
    Safe,
    Unsafe,
}

#[derive(Debug, PartialEq, Eq)]
pub struct Fix {
    pub span: Range<usize>,
    pub replacement: String,
    pub applicability: Applicability,
    pub description: String,
}

/// A fix as a value: its span, and the UTF-8 bytes of its texts.
pub struct FixView {
    pub start: usize,
    pub end: usize,
    pub replacement: Seq<u8>,
    pub applicability: Applicability,
    pub description: Seq<u8>,
}

impl View for Fix {
    type V = FixView;

    open spec fn view(&self) -> FixView {
        FixView {
            start: self.span.start,
            end: self.span.end,
            replacement: encode_utf8(self.replacement@),
            applicability: self.applicability,
            description: encode_utf8(self.description@),
        }
    }
}

impl Clone for Fix {
    fn clone(&self) -> (r: Self)
        ensures
            r@ == self@,
    {
        Fix {
            span: self.span.start..self.span.end,
            replacement: self.replacement.clone(),
            applicability: self.applicability,
            description: self.description.clone(),
        }
    }
}

#[derive(Debug, PartialEq, Eq)]
pub struct Diagnostic {
    /// Stable rule code, e.g. `SW001`, so it can be referenced in review
    /// comments and suppressed by name.
    pub code: &'static str,
    pub severity: Severity,
    pub message: String,
    pub span: Range<usize>,
    pub fix: Option<Fix>,
}

/// A diagnostic as a value.
pub struct DiagnosticView {
    pub code: &'static str,
    pub severity: Severity,
    pub message: Seq<u8>,
    pub start: usize,
    pub end: usize,
    pub fix: Option<FixView>,
}

pub open spec fn fix_view(f: Option<Fix>) -> Option<FixView> {
    match f {
        Some(x) => Some(x@),
        None => None,
    }
}

impl View for Diagnostic {
    type V = DiagnosticView;

    open spec fn view(&self) -> DiagnosticView {
        DiagnosticView {
            code: self.code,
            severity: self.severity,
            message: encode_utf8(self.message@),
            start: self.span.start,
            end: self.span.end,
            fix: fix_view(self.fix),
        }
    }
}

impl Clone for Diagnostic {
    fn clone(&self) -> (r: Self)
        ensures
            r@ == self@,
    {
        let fix = match &self.fix {
            Some(f) => Some(f.clone()),
            None => None,
        };
        Diagnostic {
            code: self.code,
            severity: self.severity,
            message: self.message.clone(),
            span: self.span.start..self.span.end,
            fix,
        }
    }
}

impl Diagnostic {
    pub fn new(code: &'static str, severity: Severity, message: String, span: Range<usize>) -> (r:
        Self)
        ensures
            r.code == code,
            r.severity == severity,
            r.message@ == message@,
            r.span == span,
            r.fix is None,
    {
        Diagnostic { code, severity, message, span, fix: None }
    }

    pub fn with_fix(self, fix: Fix) -> (r: Self)
        ensures
            r.code == self.code,
            r.severity == self.severity,
            r.message == self.message,
            r.span == self.span,
            r.fix == Some(fix),
    {
        let mut d = self;
        d.fix = Some(fix);
        d
    }
}

/// 1-based line and column (column counted in characters, not bytes).
#[derive(Debug, Clone, Copy, PartialEq, Eq, Structural)]
pub struct LineCol {
    pub line: usize,
    pub col: usize,
}

/// Number of bytes equal to `c` in `b[a..e]`.
pub open spec fn count_byte(b: Seq<u8>, c: u8, a: int, e: int) -> int
    decreases e - a,
{
    if e <= a {
        0
    } else {
        count_byte(b, c, a, e - 1) + if b[e - 1] == c {
            1int
        } else {
            0
        }
    }
}

/// Number of characters whose encoding starts in `b[a..e]`.
pub open spec fn count_chars(b: Seq<u8>, a: int, e: int) -> int
    decreases e - a,
{
    if e <= a {
        0
    } else {
        count_chars(b, a, e - 1) + if is_continuation_byte(b[e - 1]) {
            0int
        } else {
            1
        }
    }
}

/// Start of the line that contains offset `upto`: just past the last `\n` before it.
pub open spec fn line_start_before(b: Seq<u8>, upto: int) -> int
    decreases upto,
{
    if upto <= 0 {
        0
    } else if b[upto - 1] == 10 {
        upto
    } else {
        line_start_before(b, upto - 1)
    }
}

pub proof fn lemma_line_start_before(b: Seq<u8>, upto: int)
    requires
        0 <= upto <= b.len(),
    ensures
        0 <= line_start_before(b, upto) <= upto,
    decreases upto,
{
    if upto > 0 && b[upto - 1] != 10 {
        lemma_line_start_before(b, upto - 1);
    }
}

pub proof fn lemma_counts_bounded(b: Seq<u8>, c: u8, a: int, e: int)
    requires
        a <= e,
    ensures
        0 <= count_byte(b, c, a, e) <= e - a,
        0 <= count_chars(b, a, e) <= e - a,
    decreases e - a,
{
    if a < e {
        lemma_counts_bounded(b, c, a, e - 1);
    }
}

/// The position of byte offset `offset` (clamped to the end) in `b`.
pub open spec fn line_col_spec(b: Seq<u8>, offset: int) -> (int, int) {
    let upto = if offset < b.len() {
        offset
    } else {
        b.len() as int
    };
    (count_byte(b, 10, 0, upto) + 1, count_chars(b, line_start_before(b, upto), upto) + 1)
}

/// Convert a byte offset to a 1-based line/column position.
pub fn line_col(input: &str, offset: usize) -> (r: LineCol)
    requires
        offset < input.spec_bytes().len() ==> is_char_boundary(
            input.spec_bytes(),
            offset as int,
        ),
        input.spec_bytes().len() < usize::MAX,
    ensures
        (r.line as int, r.col as int) == line_col_spec(input.spec_bytes(), offset as int),
{
    let b = input.as_bytes();
    let upto = if offset < b.len() {
        offset
    } else {
        b.len()
    };
    let mut lines: usize = 0;
    let mut ls: usize = 0;
    let mut k: usize = 0;
    while k < upto
        invariant
            upto <= b@.len() < usize::MAX,
            k <= upto,
            lines == count_byte(b@, 10, 0, k as int),
            ls == line_start_before(b@, k as int),
            lines <= k,
        decreases upto - k,
    {
        if b[k] == 10 {
            lines += 1;
            ls = k + 1;
        }
        k += 1;
    }
    proof {
        lemma_line_start_before(b@, upto as int);
    }
    let mut chars: usize = 0;
    let mut j = ls;
    while j < upto
        invariant
            ls <= j <= upto <= b@.len() < usize::MAX,
            chars == count_chars(b@, ls as int, j as int),
            chars <= j - ls,
        decreases upto - j,
    {
        if !(0x80 <= b[j] && b[j] <= 0xbf) {
            chars += 1;
        }
        j += 1;
    }
    LineCol { line: lines + 1, col: chars + 1 }
}

pub proof fn lemma_count_split(b: Seq<u8>, c: u8, a: int, m: int, e: int)
    requires
        a <= m <= e,
    ensures
        count_byte(b, c, a, e) == count_byte(b, c, a, m) + count_byte(b, c, m, e),
    decreases e - m,
{
    if m < e {
        lemma_count_split(b, c, a, m, e - 1);
    }
}

pub proof fn lemma_count_zero(b: Seq<u8>, c: u8, a: int, e: int)
    requires
        a <= e,
    ensures
        count_byte(b, c, a, e) >= 0,
        count_byte(b, c, a, e) == 0 <==> forall|q: int| a <= q < e ==> b[q] != c,
    decreases e - a,
{
    if a < e {
        lemma_count_zero(b, c, a, e - 1);
        if count_byte(b, c, a, e) == 0 {
            assert forall|q: int| a <= q < e implies b[q] != c by {
                if q < e - 1 {
                } else {
                }
            }
        }
    }
}

pub proof fn lemma_count_shift(b: Seq<u8>, c: u8, a: int, e: int)
    requires
        0 <= a <= e <= b.len(),
    ensures
        count_byte(b.subrange(a, e), c, 0, e - a) == count_byte(b, c, a, e),
    decreases e - a,
{
    if a < e {
        lemma_count_shift(b, c, a, e - 1);
        assert(count_byte(b.subrange(a, e - 1), c, 0, e - 1 - a) == count_byte(b.subrange(a, e), c, 0, e - 1 - a)) by {
            lemma_count_prefix(b.subrange(a, e - 1), b.subrange(a, e), c, e - 1 - a);
        }
    }
}

/// Counting within a common prefix gives the same count.
pub proof fn lemma_count_prefix(x: Seq<u8>, y: Seq<u8>, c: u8, n: int)
    requires
        0 <= n <= x.len(),
        n <= y.len(),
        forall|q: int| 0 <= q < n ==> x[q] == y[q],
    ensures
        count_byte(x, c, 0, n) == count_byte(y, c, 0, n),
    decreases n,
{
    if n > 0 {
        lemma_count_prefix(x, y, c, n - 1);
    }
}

/// The count over a concatenation is the sum of the counts.
pub proof fn lemma_count_concat(x: Seq<u8>, y: Seq<u8>, c: u8)
    ensures
        count_byte(x + y, c, 0, (x + y).len() as int) == count_byte(x, c, 0, x.len() as int) + count_byte(
            y,
            c,
            0,
            y.len() as int,
        ),
{
    let z = x + y;
    lemma_count_split(z, c, 0, x.len() as int, z.len() as int);
    lemma_count_prefix(z, x, c, x.len() as int);
    lemma_count_shift(z, c, x.len() as int, z.len() as int);
    assert(z.subrange(x.len() as int, z.len() as int) =~= y);
}

} // verus!
