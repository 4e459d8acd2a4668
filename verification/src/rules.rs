//! Rules for markup that is genuinely wrong, not merely unfashionable.
//!
//! Each rule is specified as a scan over the token sequence producing the
//! diagnostics, as values (codes, severities, the UTF-8 bytes of messages,
//! spans and fixes). [`check`] runs them all and orders the result by
//! position, then code, keeping the rules' order among equal keys.
//!
//! Deliberately **not** implemented: a "Markdown heading `# Text`" rule (`#`
//! is the ordered-list marker, so `# Text` is valid wiki), and heading
//! spacing, which has no agreed convention (see the formatter).
use vstd::prelude::*;
use vstd::utf8::*;
use vstd::string::*;
use std::ops::Range;
use crate::diagnostic::{Applicability, Diagnostic, DiagnosticView, Fix, FixView, Severity};
use crate::lexer::{
    lemma_lex_boundaries, lemma_lex_tiles, lemma_tiles_end, lemma_tiles_index, lemma_tiles_order, lex_spec, spans_ok, tiles_from,
    LinkKind, MacroKind, Opaque, Token, TokenKind, name_is, run_len_back, EQ, PIPE, LBRACKET, RBRACKET, NL, SPACE, STAR, run_len_back_exec, lemma_run_len_back,
};
use crate::scan::{
    bytes_match_at,
    lemma_boundary_ascii, lemma_boundary_after_ascii, lemma_boundary_ends,
    bytes_match_at_ci, count_run, find_byte, first_byte, lemma_first_byte, lemma_run_len, lowered, push_lowered, run_len, find_lit_in, first_match_in, lemma_first_match_in, matches_at,
    append, blank, is_blank, lemma_skip_ws, lemma_skip_ws_back, skip_ws, skip_ws_back, lemma_trimmed_ok, new_string, slice_ok, substr, trim_range, trimmed,
    utf8_of,
};

verus! {

broadcast use vstd::seq::group_seq_axioms;

// ---------------------------------------------------------------------------
// Codes and texts
// ---------------------------------------------------------------------------

/// The rule codes, numbered 1 to 11 in code order.
pub open spec fn code_str(k: int) -> &'static str {
    if k == 1 {
        "SW001"
    } else if k == 2 {
        "SW002"
    } else if k == 3 {
        "SW003"
    } else if k == 4 {
        "SW004"
    } else if k == 5 {
        "SW005"
    } else if k == 6 {
        "SW006"
    } else if k == 7 {
        "SW007"
    } else if k == 8 {
        "SW008"
    } else if k == 9 {
        "SW009"
    } else if k == 10 {
        "SW010"
    } else {
        "SW011"
    }
}

/// The position of a code in code order.
pub open spec fn rank_of(c: &'static str) -> int {
    if c == "SW001" {
        1
    } else if c == "SW002" {
        2
    } else if c == "SW003" {
        3
    } else if c == "SW004" {
        4
    } else if c == "SW005" {
        5
    } else if c == "SW006" {
        6
    } else if c == "SW007" {
        7
    } else if c == "SW008" {
        8
    } else if c == "SW009" {
        9
    } else if c == "SW010" {
        10
    } else {
        11
    }
}

pub proof fn lemma_rank_of_code(k: int)
    requires
        1 <= k <= 11,
    ensures
        rank_of(code_str(k)) == k,
{
    reveal_strlit("SW001");
    reveal_strlit("SW002");
    reveal_strlit("SW003");
    reveal_strlit("SW004");
    reveal_strlit("SW005");
    reveal_strlit("SW006");
    reveal_strlit("SW007");
    reveal_strlit("SW008");
    reveal_strlit("SW009");
    reveal_strlit("SW010");
    reveal_strlit("SW011");
    assert("SW001"@[4] == '1' && "SW002"@[4] == '2' && "SW003"@[4] == '3');
    assert("SW004"@[4] == '4' && "SW005"@[4] == '5' && "SW006"@[4] == '6');
    assert("SW007"@[4] == '7' && "SW008"@[4] == '8' && "SW009"@[4] == '9');
    assert("SW010"@[3] == '1' && "SW011"@[3] == '1' && "SW010"@[4] == '0' && "SW011"@[4]
        == '1');
    assert("SW001"@[3] == '0' && "SW009"@[3] == '0');
}

fn code(k: u8) -> (r: &'static str)
    requires
        1 <= k <= 11,
    ensures
        r == code_str(k as int),
        rank_of(r) == k,
{
    proof {
        lemma_rank_of_code(k as int);
    }
    if k == 1 {
        "SW001"
    } else if k == 2 {
        "SW002"
    } else if k == 3 {
        "SW003"
    } else if k == 4 {
        "SW004"
    } else if k == 5 {
        "SW005"
    } else if k == 6 {
        "SW006"
    } else if k == 7 {
        "SW007"
    } else if k == 8 {
        "SW008"
    } else if k == 9 {
        "SW009"
    } else if k == 10 {
        "SW010"
    } else {
        "SW011"
    }
}

/// The description of rule `k` (1-based), as `--list-rules` shows it.
pub open spec fn rule_desc(k: int) -> &'static str {
    if k == 1 {
        "unclosed or unopened {for} block"
    } else if k == 2 {
        "unclosed or unopened {note} block"
    } else if k == 3 {
        "unclosed or unopened {warning} block"
    } else if k == 4 {
        "unbalanced ''' bold markers in a paragraph"
    } else if k == 5 {
        "heading's opening and closing = runs differ in length"
    } else if k == 6 {
        "unknown [[Image:]] parameter"
    } else if k == 7 {
        "unmatched [[ or ]]"
    } else if k == 8 {
        "empty list item"
    } else if k == 9 {
        "Markdown link syntax instead of wiki syntax"
    } else if k == 10 {
        "Markdown bold syntax instead of wiki syntax"
    } else {
        "empty macro argument"
    }
}

/// Every rule code this crate can emit, with a one-line description.
pub fn rules() -> (r: Vec<(&'static str, &'static str)>)
    ensures
        r@.len() == 11,
        forall|k: int| 0 <= k < 11 ==> (#[trigger] r@[k]) == (code_str(k + 1), rule_desc(k + 1)),
{
    let v = vec![
        ("SW001", "unclosed or unopened {for} block"),
        ("SW002", "unclosed or unopened {note} block"),
        ("SW003", "unclosed or unopened {warning} block"),
        ("SW004", "unbalanced ''' bold markers in a paragraph"),
        ("SW005", "heading's opening and closing = runs differ in length"),
        ("SW006", "unknown [[Image:]] parameter"),
        ("SW007", "unmatched [[ or ]]"),
        ("SW008", "empty list item"),
        ("SW009", "Markdown link syntax instead of wiki syntax"),
        ("SW010", "Markdown bold syntax instead of wiki syntax"),
        ("SW011", "empty macro argument"),
    ];
    v
}

/// The UTF-8 bytes of a string literal.
pub open spec fn lit(s: &str) -> Seq<u8> {
    s.spec_bytes()
}

pub(crate) fn string_of(s: &str) -> (r: String)
    ensures
        utf8_of(&r) == lit(s),
{
    let mut r = new_string();
    append(&mut r, s);
    proof {
        assert(Seq::<u8>::empty() + s.spec_bytes() =~= s.spec_bytes());
    }
    r
}

pub open spec fn digit_str(d: int) -> &'static str {
    if d == 0 {
        "0"
    } else if d == 1 {
        "1"
    } else if d == 2 {
        "2"
    } else if d == 3 {
        "3"
    } else if d == 4 {
        "4"
    } else if d == 5 {
        "5"
    } else if d == 6 {
        "6"
    } else if d == 7 {
        "7"
    } else if d == 8 {
        "8"
    } else {
        "9"
    }
}

/// The decimal digits of `n`, as UTF-8 bytes.
pub open spec fn dec(n: nat) -> Seq<u8>
    decreases n,
{
    if n < 10 {
        lit(digit_str(n as int))
    } else {
        dec(n / 10) + lit(digit_str((n % 10) as int))
    }
}

fn digit(d: usize) -> (r: &'static str)
    requires
        d < 10,
    ensures
        r == digit_str(d as int),
{
    if d == 0 {
        "0"
    } else if d == 1 {
        "1"
    } else if d == 2 {
        "2"
    } else if d == 3 {
        "3"
    } else if d == 4 {
        "4"
    } else if d == 5 {
        "5"
    } else if d == 6 {
        "6"
    } else if d == 7 {
        "7"
    } else if d == 8 {
        "8"
    } else {
        "9"
    }
}

/// Appends the decimal digits of `n`.
pub fn push_decimal(out: &mut String, n: usize)
    ensures
        utf8_of(final(out)) == utf8_of(old(out)) + dec(n as nat),
    decreases n,
{
    if n < 10 {
        append(out, digit(n));
    } else {
        push_decimal(out, n / 10);
        append(out, digit(n % 10));
        proof {
            assert(utf8_of(final(out)) =~= utf8_of(old(out)) + dec(n as nat));
        }
    }
}

/// `n` copies of `=`.
pub open spec fn eq_run(n: nat) -> Seq<u8> {
    Seq::new(n, |k: int| 61u8)
}

pub(crate) fn push_eq_run(out: &mut String, n: usize)
    ensures
        utf8_of(final(out)) == utf8_of(old(out)) + eq_run(n as nat),
{
    proof {
        reveal_strlit("=");
        assert(is_ascii("="));
        is_ascii_spec_bytes("=");
        assert("=".spec_bytes() =~= seq![61u8]);
    }
    let mut k: usize = 0;
    while k < n
        invariant
            k <= n,
            utf8_of(out) == utf8_of(old(out)) + eq_run(k as nat),
            "=".spec_bytes() == seq![61u8],
        decreases n - k,
    {
        append(out, "=");
        proof {
            assert(eq_run(k as nat) + seq![61u8] =~= eq_run((k + 1) as nat));
        }
        k += 1;
    }
}

/// Appends the source slice `b[a..e]`.
pub(crate) fn push_slice(out: &mut String, src: &str, a: usize, e: usize)
    requires
        slice_ok(src.spec_bytes(), a as int, e as int),
    ensures
        utf8_of(final(out)) == utf8_of(old(out)) + src.spec_bytes().subrange(a as int, e as int),
{
    let piece = substr(src, a, e);
    append(out, piece);
}

// ---------------------------------------------------------------------------
// Findings: diagnostics together with the rank of their code
// ---------------------------------------------------------------------------

/// A diagnostic as a value, from its parts.
pub open spec fn dv(
    code: &'static str,
    severity: Severity,
    message: Seq<u8>,
    start: int,
    end: int,
    fix: Option<FixView>,
) -> DiagnosticView {
    DiagnosticView {
        code: code,
        severity: severity,
        message: message,
        start: start as usize,
        end: end as usize,
        fix: fix,
    }
}

pub open spec fn fv(
    start: int,
    end: int,
    replacement: Seq<u8>,
    applicability: Applicability,
    description: Seq<u8>,
) -> FixView {
    FixView {
        start: start as usize,
        end: end as usize,
        replacement: replacement,
        applicability: applicability,
        description: description,
    }
}

pub open spec fn views(ds: Seq<Diagnostic>) -> Seq<DiagnosticView> {
    ds.map_values(|d: Diagnostic| d@)
}

/// Diagnostics collected so far, each with the rank of its code.
struct Findings {
    ranks: Vec<u8>,
    diags: Vec<Diagnostic>,
    /// The text the findings are about.
    src: Ghost<Seq<u8>>,
}

impl Findings {
    spec fn wf(&self) -> bool {
        &&& reports_ok(self.src@, self.vs())
        &&& self.ranks@.len() == self.diags@.len()
        &&& forall|k: int|
            0 <= k < self.ranks@.len() ==> #[trigger] self.ranks@[k] as int == rank_of(
                self.diags@[k].code,
            )
    }

    spec fn vs(&self) -> Seq<DiagnosticView> {
        views(self.diags@)
    }

    fn new(Ghost(src): Ghost<Seq<u8>>) -> (r: Self)
        ensures
            r.wf(),
            r.vs() == Seq::<DiagnosticView>::empty(),
            r.src@ == src,
    {
        let r = Findings { ranks: Vec::new(), diags: Vec::new(), src: Ghost(src) };
        proof {
            assert(r.vs() =~= Seq::<DiagnosticView>::empty());
        }
        r
    }

    fn add(&mut self, rank: u8, d: Diagnostic)
        requires
            old(self).wf(),
            rank as int == rank_of(d.code),
            report_ok(old(self).src@, d@),
        ensures
            final(self).wf(),
            final(self).vs() == old(self).vs().push(d@),
            final(self).src == old(self).src,
    {
        let ghost dd = d@;
        self.ranks.push(rank);
        self.diags.push(d);
        proof {
            assert(self.vs() =~= old(self).vs().push(dd));
            assert forall|k: int| 0 <= k < self.vs().len() implies #[trigger] report_ok(self.src@, self.vs()[k]) by {
                if k < old(self).vs().len() {
                    assert(self.vs()[k] == old(self).vs()[k]);
                }
            }
        }
    }
}

/// A diagnostic spans whole characters of `b`, and its fix, if any,
/// replaces exactly the diagnosed span.
pub open spec fn report_ok(b: Seq<u8>, d: DiagnosticView) -> bool {
    &&& slice_ok(b, d.start as int, d.end as int)
    &&& match d.fix {
        Some(f) => f.start == d.start && f.end == d.end,
        None => true,
    }
}

pub open spec fn reports_ok(b: Seq<u8>, ds: Seq<DiagnosticView>) -> bool {
    forall|k: int| 0 <= k < ds.len() ==> #[trigger] report_ok(b, ds[k])
}

/// A diagnostic with no fix.
fn diag(k: u8, severity: Severity, message: String, start: usize, end: usize) -> (r: Diagnostic)
    requires
        1 <= k <= 11,
    ensures
        r@ == dv(code_str(k as int), severity, utf8_of(&message), start as int, end as int, None),
        rank_of(r.code) == k,
{
    Diagnostic::new(code(k), severity, message, start..end)
}

/// A diagnostic with a fix.
fn diag_fix(
    k: u8,
    severity: Severity,
    message: String,
    start: usize,
    end: usize,
    fix_start: usize,
    fix_end: usize,
    replacement: String,
    applicability: Applicability,
    description: String,
) -> (r: Diagnostic)
    requires
        1 <= k <= 11,
    ensures
        r@ == dv(
            code_str(k as int),
            severity,
            utf8_of(&message),
            start as int,
            end as int,
            Some(
                fv(
                    fix_start as int,
                    fix_end as int,
                    utf8_of(&replacement),
                    applicability,
                    utf8_of(&description),
                ),
            ),
        ),
        rank_of(r.code) == k,
{
    let d = Diagnostic::new(code(k), severity, message, start..end);
    d.with_fix(Fix { span: fix_start..fix_end, replacement, applicability, description })
}

/// True for tokens whose contents are not interpreted as markup.
pub open spec fn is_opaque_kind(k: TokenKind) -> bool {
    k is Opaque
}

fn is_opaque(t: &Token) -> (r: bool)
    ensures
        r == is_opaque_kind(t.kind),
{
    matches!(t.kind, TokenKind::Opaque { .. })
}

/// The tokens `ts` are those of the UTF-8 text `b`.
pub open spec fn lexed(b: Seq<u8>, ts: Seq<Token>) -> bool {
    &&& valid_utf8(b)
    &&& b.len() <= usize::MAX
    &&& tiles_from(ts, 0, b.len() as int)
    &&& spans_ok(b, ts)
}

// ---------------------------------------------------------------------------
// SW001 / SW002 / SW003 — block delimiter balance
// ---------------------------------------------------------------------------

/// Which block family a token opens (0 `{for}`, 1 `{note}`, 2 `{warning}`).
pub open spec fn opens(k: TokenKind) -> Option<int> {
    match k {
        TokenKind::ForOpen => Some(0),
        TokenKind::BlockOpen { warning } => Some(if warning {
            2int
        } else {
            1
        }),
        _ => None,
    }
}

/// Which block family a token closes.
pub open spec fn closes(k: TokenKind) -> Option<int> {
    match k {
        TokenKind::ForClose => Some(0),
        TokenKind::BlockClose { warning } => Some(if warning {
            2int
        } else {
            1
        }),
        _ => None,
    }
}

pub open spec fn stray_msg(f: int) -> &'static str {
    if f == 0 {
        "`{/for}` with no matching `{for}`"
    } else if f == 1 {
        "`{/note}` with no matching `{note}`"
    } else {
        "`{/warning}` with no matching `{warning}`"
    }
}

pub open spec fn unclosed_tail(f: int) -> &'static str {
    if f == 0 {
        "` is never closed; add `{/for}`"
    } else if f == 1 {
        "` is never closed; add `{/note}`"
    } else {
        "` is never closed; add `{/warning}`"
    }
}

/// The report for an opener at `b[a..e]` that is never closed.
pub open spec fn unclosed_diag(b: Seq<u8>, f: int, a: int, e: int) -> DiagnosticView {
    dv(
        code_str(f + 1),
        Severity::Error,
        lit("`") + b.subrange(trimmed(b, a, e).0, trimmed(b, a, e).1) + lit(unclosed_tail(f)),
        a,
        e,
        None,
    )
}

/// Reports for the openers left on a stack, bottom first.
pub open spec fn unclosed(b: Seq<u8>, f: int, stack: Seq<(usize, usize)>) -> Seq<DiagnosticView> {
    stack.map_values(|p: (usize, usize)| unclosed_diag(b, f, p.0 as int, p.1 as int))
}

/// Push or pop the stack of family `f`, by index.
pub open spec fn upd(
    stacks: Seq<Seq<(usize, usize)>>,
    f: int,
    s: Seq<(usize, usize)>,
) -> Seq<Seq<(usize, usize)>> {
    stacks.update(f, s)
}

/// Pairs openers and closers with one stack per family, reporting stray
/// closers where they stand and, at the end, every opener left open.
pub open spec fn blocks_scan(
    b: Seq<u8>,
    ts: Seq<Token>,
    k: int,
    stacks: Seq<Seq<(usize, usize)>>,
) -> Seq<DiagnosticView>
    decreases ts.len() - k,
{
    if k >= ts.len() {
        unclosed(b, 0, stacks[0]) + unclosed(b, 1, stacks[1]) + unclosed(b, 2, stacks[2])
    } else {
        let t = ts[k];
        match opens(t.kind) {
            Some(f) => blocks_scan(b, ts, k + 1, upd(stacks, f, stacks[f].push((t.span.start, t.span.end)))),
            None => match closes(t.kind) {
                Some(f) => if stacks[f].len() == 0 {
                    seq![
                        dv(
                            code_str(f + 1),
                            Severity::Error,
                            lit(stray_msg(f)),
                            t.span.start as int,
                            t.span.end as int,
                            None,
                        ),
                    ] + blocks_scan(b, ts, k + 1, stacks)
                } else {
                    blocks_scan(b, ts, k + 1, upd(stacks, f, stacks[f].drop_last()))
                },
                None => blocks_scan(b, ts, k + 1, stacks),
            },
        }
    }
}

pub open spec fn blocks_spec(b: Seq<u8>, ts: Seq<Token>) -> Seq<DiagnosticView> {
    blocks_scan(b, ts, 0, seq![Seq::empty(), Seq::empty(), Seq::empty()])
}


fn stray_string(f: usize) -> (r: String)
    requires
        f < 3,
    ensures
        utf8_of(&r) == lit(stray_msg(f as int)),
{
    if f == 0 {
        string_of("`{/for}` with no matching `{for}`")
    } else if f == 1 {
        string_of("`{/note}` with no matching `{note}`")
    } else {
        string_of("`{/warning}` with no matching `{warning}`")
    }
}

fn unclosed_tail_str(f: usize) -> (r: &'static str)
    requires
        f < 3,
    ensures
        r == unclosed_tail(f as int),
{
    if f == 0 {
        "` is never closed; add `{/for}`"
    } else if f == 1 {
        "` is never closed; add `{/note}`"
    } else {
        "` is never closed; add `{/warning}`"
    }
}

/// Reports every opener left on `stack`.
fn report_unclosed(
    src: &str,
    f: usize,
    stack: &Vec<(usize, usize)>,
    out: &mut Findings,
)
    requires
        f < 3,
        valid_utf8(src.spec_bytes()),
        old(out).wf(),
        old(out).src@ == src.spec_bytes(),
        forall|j: int|
            0 <= j < stack@.len() ==> slice_ok(
                src.spec_bytes(),
                (#[trigger] stack@[j]).0 as int,
                stack@[j].1 as int,
            ),
    ensures
        final(out).wf(),
        final(out).src == old(out).src,
        final(out).vs() == old(out).vs() + unclosed(src.spec_bytes(), f as int, stack@),
{
    let ghost b = src.spec_bytes();
    let mut j: usize = 0;
    while j < stack.len()
        invariant
            f < 3,
            b == src.spec_bytes(),
            valid_utf8(b),
            j <= stack@.len(),
            out.wf(),
            out.src == old(out).src,
            out.src@ == src.spec_bytes(),
            out.vs() == old(out).vs() + unclosed(b, f as int, stack@.subrange(0, j as int)),
            forall|q: int|
                0 <= q < stack@.len() ==> slice_ok(b, (#[trigger] stack@[q]).0 as int, stack@[q].1 as int),
        decreases stack.len() - j,
    {
        let (a, e) = stack[j];
        proof {
            assert(slice_ok(b, stack@[j as int].0 as int, stack@[j as int].1 as int));
            lemma_trimmed_ok(b, a as int, e as int);
        }
        let (ta, te) = trim_range(src.as_bytes(), a, e);
        let mut m = string_of("`");
        push_slice(&mut m, src, ta, te);
        append(&mut m, unclosed_tail_str(f));
        let d = diag((f + 1) as u8, Severity::Error, m, a, e);
        proof {
            assert(utf8_of(&m) == lit("`") + b.subrange(ta as int, te as int) + lit(unclosed_tail(f as int)));
        }
        out.add((f + 1) as u8, d);
        proof {
            assert(stack@.subrange(0, j + 1) =~= stack@.subrange(0, j as int).push(stack@[j as int]));
            assert(unclosed(b, f as int, stack@.subrange(0, j + 1)) =~= unclosed(b, f as int, stack@.subrange(0, j as int)).push(unclosed_diag(b, f as int, a as int, e as int)));
        }
        j += 1;
    }
    proof {
        assert(stack@.subrange(0, j as int) =~= stack@);
    }
}

/// Pair up `{for}`, `{note}` and `{warning}` with their closers.
///
/// Uses a stack per family rather than counting, so a stray closer is
/// reported where it actually appears.
fn blocks(src: &str, tokens: &[Token], out: &mut Findings)
    requires
        lexed(src.spec_bytes(), tokens@),
        old(out).wf(),
        old(out).src@ == src.spec_bytes(),
    ensures
        final(out).wf(),
        final(out).src == old(out).src,
        final(out).vs() == old(out).vs() + blocks_spec(src.spec_bytes(), tokens@),
{
    let ghost b = src.spec_bytes();
    let ghost ts = tokens@;
    let mut fors: Vec<(usize, usize)> = Vec::new();
    let mut notes: Vec<(usize, usize)> = Vec::new();
    let mut warns: Vec<(usize, usize)> = Vec::new();
    let mut k: usize = 0;
    while k < tokens.len()
        invariant
            b == src.spec_bytes(),
            ts == tokens@,
            lexed(b, ts),
            k <= ts.len(),
            out.wf(),
            out.src == old(out).src,
            out.src@ == src.spec_bytes(),
            out.vs() + blocks_scan(b, ts, k as int, seq![fors@, notes@, warns@]) == old(out).vs()
                + blocks_spec(b, ts),
            forall|q: int| 0 <= q < fors@.len() ==> slice_ok(b, (#[trigger] fors@[q]).0 as int, fors@[q].1 as int),
            forall|q: int| 0 <= q < notes@.len() ==> slice_ok(b, (#[trigger] notes@[q]).0 as int, notes@[q].1 as int),
            forall|q: int| 0 <= q < warns@.len() ==> slice_ok(b, (#[trigger] warns@[q]).0 as int, warns@[q].1 as int),
        decreases tokens.len() - k,
    {
        let t = &tokens[k];
        let ghost stacks = seq![fors@, notes@, warns@];
        let ghost vs0 = out.vs();
        proof {
            assert(slice_ok(b, ts[k as int].span.start as int, ts[k as int].span.end as int));
        }
        let sp = (t.span.start, t.span.end);
        match t.kind {
            TokenKind::ForOpen => {
                fors.push(sp);
                proof {
                    assert(upd(stacks, 0, stacks[0].push(sp)) =~= seq![fors@, notes@, warns@]);
                }
            },
            TokenKind::BlockOpen { warning } => {
                if warning {
                    warns.push(sp);
                    proof {
                        assert(upd(stacks, 2, stacks[2].push(sp)) =~= seq![fors@, notes@, warns@]);
                    }
                } else {
                    notes.push(sp);
                    proof {
                        assert(upd(stacks, 1, stacks[1].push(sp)) =~= seq![fors@, notes@, warns@]);
                    }
                }
            },
            TokenKind::ForClose => {
                if fors.len() == 0 {
                    let d = diag(1, Severity::Error, stray_string(0), t.span.start, t.span.end);
                    out.add(1, d);
                } else {
                    fors.pop();
                    proof {
                        assert(upd(stacks, 0, stacks[0].drop_last()) =~= seq![fors@, notes@, warns@]);
                    }
                }
            },
            TokenKind::BlockClose { warning } => {
                if warning {
                    if warns.len() == 0 {
                        let d = diag(3, Severity::Error, stray_string(2), t.span.start, t.span.end);
                        out.add(3, d);
                    } else {
                        warns.pop();
                        proof {
                            assert(upd(stacks, 2, stacks[2].drop_last()) =~= seq![fors@, notes@, warns@]);
                        }
                    }
                } else {
                    if notes.len() == 0 {
                        let d = diag(2, Severity::Error, stray_string(1), t.span.start, t.span.end);
                        out.add(2, d);
                    } else {
                        notes.pop();
                        proof {
                            assert(upd(stacks, 1, stacks[1].drop_last()) =~= seq![fors@, notes@, warns@]);
                        }
                    }
                }
            },
            _ => {},
        }
        k += 1;
    }
    let ghost vs1 = out.vs();
    report_unclosed(src, 0, &fors, out);
    report_unclosed(src, 1, &notes, out);
    report_unclosed(src, 2, &warns, out);
    proof {
        let stacks = seq![fors@, notes@, warns@];
        assert(blocks_scan(b, ts, k as int, stacks) == unclosed(b, 0, fors@) + unclosed(b, 1, notes@) + unclosed(b, 2, warns@));
        assert(out.vs() =~= vs1 + (unclosed(b, 0, fors@) + unclosed(b, 1, notes@) + unclosed(b, 2, warns@)));
    }
}


// ---------------------------------------------------------------------------
// SW007 — bracket balance
// ---------------------------------------------------------------------------

pub open spec fn bracket_msg(open: bool) -> &'static str {
    if open {
        "`[[` with no closing `]]`"
    } else {
        "`]]` with no opening `[[`"
    }
}

/// One report per dangling `[[` or `]]` outside opaque regions.
pub open spec fn brackets_scan(ts: Seq<Token>, k: int) -> Seq<DiagnosticView>
    decreases ts.len() - k,
{
    if k >= ts.len() {
        Seq::empty()
    } else {
        let t = ts[k];
        let rest = brackets_scan(ts, k + 1);
        match t.kind {
            TokenKind::DanglingBracket { open } => seq![
                dv(
                    code_str(7),
                    Severity::Error,
                    lit(bracket_msg(open)),
                    t.span.start as int,
                    t.span.end as int,
                    None,
                ),
            ] + rest,
            _ => rest,
        }
    }
}

fn brackets(tokens: &[Token], out: &mut Findings)
    requires
        old(out).wf(),
        spans_ok(old(out).src@, tokens@),
    ensures
        final(out).wf(),
        final(out).src == old(out).src,
        final(out).vs() == old(out).vs() + brackets_scan(tokens@, 0),
{
    let ghost ts = tokens@;
    let mut k: usize = 0;
    while k < tokens.len()
        invariant
            ts == tokens@,
            k <= ts.len(),
            out.wf(),
            out.src == old(out).src,
            out.vs() + brackets_scan(ts, k as int) == old(out).vs() + brackets_scan(ts, 0),
            spans_ok(out.src@, ts),
        decreases tokens.len() - k,
    {
        let t = &tokens[k];
        proof {
            assert(slice_ok(out.src@, ts[k as int].span.start as int, ts[k as int].span.end as int));
        }
        if !is_opaque(t) {
            if let TokenKind::DanglingBracket { open } = t.kind {
                let m = if open {
                    string_of("`[[` with no closing `]]`")
                } else {
                    string_of("`]]` with no opening `[[`")
                };
                let ghost vs0 = out.vs();
                out.add(7, diag(7, Severity::Error, m, t.span.start, t.span.end));
                proof {
                    assert(vs0 + brackets_scan(ts, k as int) =~= out.vs() + brackets_scan(ts, k + 1));
                }
            }
        }
        k += 1;
    }
}

// ---------------------------------------------------------------------------
// SW008 — empty list items
// ---------------------------------------------------------------------------

/// Scanning the rest of a list item's line from token `j`: `None` if some
/// token there is not blank, else the end of the last token before the
/// newline (`end` if there is none).
pub open spec fn list_item_end(b: Seq<u8>, ts: Seq<Token>, j: int, end: int) -> Option<int>
    decreases ts.len() - j,
{
    if j >= ts.len() || ts[j].kind is Newline {
        Some(end)
    } else if !is_blank(b, ts[j].span.start as int, ts[j].span.end as int) {
        None
    } else {
        list_item_end(b, ts, j + 1, ts[j].span.end as int)
    }
}

pub open spec fn list_scan(b: Seq<u8>, ts: Seq<Token>, k: int) -> Seq<DiagnosticView>
    decreases ts.len() - k,
{
    if k >= ts.len() {
        Seq::empty()
    } else {
        let t = ts[k];
        let rest = list_scan(b, ts, k + 1);
        if t.kind is ListMarker && list_item_end(b, ts, k + 1, t.span.end as int) is Some {
            let e = list_item_end(b, ts, k + 1, t.span.end as int)->0;
            seq![
                dv(
                    code_str(8),
                    Severity::Warning,
                    lit("list item has no content"),
                    t.span.start as int,
                    e,
                    Some(
                        fv(
                            t.span.start as int,
                            e,
                            Seq::empty(),
                            Applicability::Safe,
                            lit("remove the empty list item"),
                        ),
                    ),
                ),
            ] + rest
        } else {
            rest
        }
    }
}

fn empty_list_items(src: &str, tokens: &[Token], out: &mut Findings)
    requires
        lexed(src.spec_bytes(), tokens@),
        old(out).wf(),
        old(out).src@ == src.spec_bytes(),
    ensures
        final(out).wf(),
        final(out).src == old(out).src,
        final(out).vs() == old(out).vs() + list_scan(src.spec_bytes(), tokens@, 0),
{
    let ghost b = src.spec_bytes();
    let ghost ts = tokens@;
    let bytes = src.as_bytes();
    let mut k: usize = 0;
    while k < tokens.len()
        invariant
            b == src.spec_bytes(),
            bytes@ == b,
            ts == tokens@,
            lexed(b, ts),
            k <= ts.len(),
            out.wf(),
            out.src == old(out).src,
            out.src@ == src.spec_bytes(),
            out.vs() + list_scan(b, ts, k as int) == old(out).vs() + list_scan(b, ts, 0),
        decreases tokens.len() - k,
    {
        let t = &tokens[k];
        if let TokenKind::ListMarker = t.kind {
            proof {
                assert(slice_ok(b, ts[k as int].span.start as int, ts[k as int].span.end as int));
            }
            let mut j = k + 1;
            let mut empty = true;
            let mut end = t.span.end;
            while empty && j < tokens.len() && !matches!(tokens[j].kind, TokenKind::Newline)
                invariant
                    b == src.spec_bytes(),
                    bytes@ == b,
                    ts == tokens@,
                    lexed(b, ts),
                    k < j <= ts.len(),
                    *t == ts[k as int],
                    slice_ok(b, t.span.start as int, end as int),
                    empty ==> list_item_end(b, ts, k + 1, t.span.end as int) == list_item_end(b, ts, j as int, end as int),
                    !empty ==> list_item_end(b, ts, k + 1, t.span.end as int) is None,
                decreases tokens.len() - j + (if empty { 1int } else { 0int }),
            {
                let u = &tokens[j];
                proof {
                    assert(slice_ok(b, ts[j as int].span.start as int, ts[j as int].span.end as int));
                    lemma_tiles_order(ts, 0, b.len() as int, k as int, j as int);
                    lemma_tiles_index(ts, 0, b.len() as int);
                    assert(ts[k as int].span.start <= ts[k as int].span.end);
                }
                if !blank(bytes, u.span.start, u.span.end) {
                    empty = false;
                } else {
                    proof {
                        assert(ts[j as int].span.start <= ts[j as int].span.end);
                        assert(t.span.start <= t.span.end);
                        assert(slice_ok(b, t.span.start as int, u.span.end as int));
                    }
                    end = u.span.end;
                    j += 1;
                }
            }
            if empty {
                let ghost vs0 = out.vs();
                let d = diag_fix(
                    8,
                    Severity::Warning,
                    string_of("list item has no content"),
                    t.span.start,
                    end,
                    t.span.start,
                    end,
                    new_string(),
                    Applicability::Safe,
                    string_of("remove the empty list item"),
                );
                out.add(8, d);
                proof {
                    assert(vs0 + list_scan(b, ts, k as int) =~= out.vs() + list_scan(b, ts, k + 1));
                }
            }
        }
        k += 1;
    }
}

// ---------------------------------------------------------------------------
// SW011 — empty macro arguments
// ---------------------------------------------------------------------------

/// Scanning from token `j` to the macro's closer: whether any token on the
/// way is not blank, and the end of the last token scanned.
pub open spec fn macro_scan(b: Seq<u8>, ts: Seq<Token>, j: int, end: int, content: bool) -> (
    bool,
    int,
)
    decreases ts.len() - j,
{
    if j >= ts.len() {
        (content, end)
    } else if ts[j].kind is MacroClose {
        (content, ts[j].span.end as int)
    } else {
        macro_scan(
            b,
            ts,
            j + 1,
            ts[j].span.end as int,
            content || !is_blank(b, ts[j].span.start as int, ts[j].span.end as int),
        )
    }
}

pub open spec fn macro_msg(k: MacroKind) -> &'static str {
    match k {
        MacroKind::Key => "`{key}` has an empty argument",
        MacroKind::Button => "`{button}` has an empty argument",
        MacroKind::Menu => "`{menu}` has an empty argument",
        MacroKind::Filepath => "`{filepath}` has an empty argument",
        MacroKind::Pref => "`{pref}` has an empty argument",
    }
}

pub open spec fn macros_scan(b: Seq<u8>, ts: Seq<Token>, k: int) -> Seq<DiagnosticView>
    decreases ts.len() - k,
{
    if k >= ts.len() {
        Seq::empty()
    } else {
        let t = ts[k];
        let rest = macros_scan(b, ts, k + 1);
        match t.kind {
            TokenKind::MacroOpen { kind } => {
                let r = macro_scan(b, ts, k + 1, t.span.end as int, false);
                if !r.0 {
                    seq![
                        dv(
                            code_str(11),
                            Severity::Warning,
                            lit(macro_msg(kind)),
                            t.span.start as int,
                            r.1,
                            None,
                        ),
                    ] + rest
                } else {
                    rest
                }
            },
            _ => rest,
        }
    }
}

fn macro_msg_string(k: MacroKind) -> (r: String)
    ensures
        utf8_of(&r) == lit(macro_msg(k)),
{
    match k {
        MacroKind::Key => string_of("`{key}` has an empty argument"),
        MacroKind::Button => string_of("`{button}` has an empty argument"),
        MacroKind::Menu => string_of("`{menu}` has an empty argument"),
        MacroKind::Filepath => string_of("`{filepath}` has an empty argument"),
        MacroKind::Pref => string_of("`{pref}` has an empty argument"),
    }
}

fn empty_macros(src: &str, tokens: &[Token], out: &mut Findings)
    requires
        lexed(src.spec_bytes(), tokens@),
        old(out).wf(),
        old(out).src@ == src.spec_bytes(),
    ensures
        final(out).wf(),
        final(out).src == old(out).src,
        final(out).vs() == old(out).vs() + macros_scan(src.spec_bytes(), tokens@, 0),
{
    let ghost b = src.spec_bytes();
    let ghost ts = tokens@;
    let bytes = src.as_bytes();
    let mut k: usize = 0;
    while k < tokens.len()
        invariant
            b == src.spec_bytes(),
            bytes@ == b,
            ts == tokens@,
            lexed(b, ts),
            k <= ts.len(),
            out.wf(),
            out.src == old(out).src,
            out.src@ == src.spec_bytes(),
            out.vs() + macros_scan(b, ts, k as int) == old(out).vs() + macros_scan(b, ts, 0),
        decreases tokens.len() - k,
    {
        let t = &tokens[k];
        if let TokenKind::MacroOpen { kind } = t.kind {
            proof {
                assert(slice_ok(b, ts[k as int].span.start as int, ts[k as int].span.end as int));
            }
            let mut has_content = false;
            let mut end = t.span.end;
            let mut j = k + 1;
            let mut closed = false;
            while !closed && j < tokens.len()
                invariant
                    b == src.spec_bytes(),
                    bytes@ == b,
                    ts == tokens@,
                    lexed(b, ts),
                    k < j <= ts.len(),
                    *t == ts[k as int],
                    slice_ok(b, t.span.start as int, end as int),
                    !closed ==> macro_scan(b, ts, k + 1, t.span.end as int, false) == macro_scan(b, ts, j as int, end as int, has_content),
                    closed ==> macro_scan(b, ts, k + 1, t.span.end as int, false) == (has_content, end as int),
                decreases tokens.len() - j + (if closed { 0int } else { 1int }),
            {
                let u = &tokens[j];
                proof {
                    assert(slice_ok(b, ts[j as int].span.start as int, ts[j as int].span.end as int));
                    lemma_tiles_order(ts, 0, b.len() as int, k as int, j as int);
                    lemma_tiles_index(ts, 0, b.len() as int);
                    assert(ts[k as int].span.start <= ts[k as int].span.end);
                    assert(ts[j as int].span.start <= ts[j as int].span.end);
                }
                if let TokenKind::MacroClose = u.kind {
                    end = u.span.end;
                    closed = true;
                } else {
                    proof {
                        assert(slice_ok(b, ts[j as int].span.start as int, ts[j as int].span.end as int));
                    }
                    end = u.span.end;
                    if !blank(bytes, u.span.start, u.span.end) {
                        has_content = true;
                    }
                    j += 1;
                }
            }
            proof {
                assert(macro_scan(b, ts, k + 1, t.span.end as int, false) == (has_content, end as int));
            }
            if !has_content {
                let ghost vs0 = out.vs();
                out.add(11, diag(11, Severity::Warning, macro_msg_string(kind), t.span.start, end));
                proof {
                    assert(vs0 + macros_scan(b, ts, k as int) =~= out.vs() + macros_scan(b, ts, k + 1));
                }
            }
        }
        k += 1;
    }
}

// ---------------------------------------------------------------------------
// SW004 — bold balance
// ---------------------------------------------------------------------------

pub open spec fn bold_msg(count: nat) -> Seq<u8> {
    lit("unbalanced `'''`: ") + dec(count) + lit(
        " bold markers in this paragraph, so one is unpaired",
    )
}

/// The report for a paragraph whose bold markers are `bolds`: one, at the
/// last marker, if their number is odd.
pub open spec fn para_report(bolds: Seq<(usize, usize)>) -> Seq<DiagnosticView> {
    if bolds.len() % 2 == 1 {
        seq![
            dv(
                code_str(4),
                Severity::Error,
                bold_msg(bolds.len()),
                bolds.last().0 as int,
                bolds.last().1 as int,
                None,
            ),
        ]
    } else {
        Seq::empty()
    }
}

/// Counts `'''` per **paragraph**: a paragraph ends at a newline that
/// follows a blank line (two newlines with only white space between).
pub open spec fn bold_scan(
    b: Seq<u8>,
    ts: Seq<Token>,
    k: int,
    bolds: Seq<(usize, usize)>,
    blank_run: int,
) -> Seq<DiagnosticView>
    decreases ts.len() - k,
{
    if k >= ts.len() {
        para_report(bolds)
    } else {
        let t = ts[k];
        if t.kind is Newline {
            if blank_run + 1 >= 2 {
                para_report(bolds) + bold_scan(b, ts, k + 1, Seq::empty(), blank_run + 1)
            } else {
                bold_scan(b, ts, k + 1, bolds, blank_run + 1)
            }
        } else {
            let blank2 = if is_blank(b, t.span.start as int, t.span.end as int) {
                blank_run
            } else {
                0
            };
            let bolds2 = if !is_opaque_kind(t.kind) && t.kind is Bold {
                bolds.push((t.span.start, t.span.end))
            } else {
                bolds
            };
            bold_scan(b, ts, k + 1, bolds2, blank2)
        }
    }
}

fn report_para(bolds: &Vec<(usize, usize)>, out: &mut Findings)
    requires
        old(out).wf(),
        forall|q: int| 0 <= q < bolds@.len() ==> #[trigger] slice_ok(old(out).src@, bolds@[q].0 as int, bolds@[q].1 as int),
    ensures
        final(out).wf(),
        final(out).src == old(out).src,
        final(out).vs() == old(out).vs() + para_report(bolds@),
{
    let n = bolds.len();
    if n % 2 == 1 {
        let last = bolds[n - 1];
        proof {
            assert(slice_ok(old(out).src@, bolds@[n - 1].0 as int, bolds@[n - 1].1 as int));
        }
        let mut m = string_of("unbalanced `'''`: ");
        push_decimal(&mut m, n);
        append(&mut m, " bold markers in this paragraph, so one is unpaired");
        let ghost vs0 = out.vs();
        out.add(4, diag(4, Severity::Error, m, last.0, last.1));
        proof {
            assert(out.vs() =~= vs0 + para_report(bolds@));
        }
    } else {
        proof {
            assert(old(out).vs() + para_report(bolds@) =~= old(out).vs());
        }
    }
}

/// Report paragraphs containing an odd number of `'''`.
fn bold_balance(src: &str, tokens: &[Token], out: &mut Findings)
    requires
        lexed(src.spec_bytes(), tokens@),
        old(out).wf(),
        old(out).src@ == src.spec_bytes(),
    ensures
        final(out).wf(),
        final(out).src == old(out).src,
        final(out).vs() == old(out).vs() + bold_scan(src.spec_bytes(), tokens@, 0, Seq::empty(), 0),
{
    let ghost b = src.spec_bytes();
    let ghost ts = tokens@;
    let bytes = src.as_bytes();
    let mut bolds: Vec<(usize, usize)> = Vec::new();
    let mut blank_run: usize = 0;
    let mut k: usize = 0;
    while k < tokens.len()
        invariant
            b == src.spec_bytes(),
            bytes@ == b,
            ts == tokens@,
            lexed(b, ts),
            k <= ts.len(),
            blank_run <= k,
            out.wf(),
            out.src == old(out).src,
            out.src@ == src.spec_bytes(),
            out.vs() + bold_scan(b, ts, k as int, bolds@, blank_run as int) == old(out).vs()
                + bold_scan(b, ts, 0, Seq::empty(), 0),
            forall|q: int| 0 <= q < bolds@.len() ==> #[trigger] slice_ok(b, bolds@[q].0 as int, bolds@[q].1 as int),
        decreases tokens.len() - k,
    {
        let t = &tokens[k];
        let ghost vs0 = out.vs();
        let ghost bolds0 = bolds@;
        let ghost blank0 = blank_run;
        if let TokenKind::Newline = t.kind {
            blank_run += 1;
            if blank_run >= 2 {
                report_para(&bolds, out);
                bolds.clear();
                proof {
                    assert(vs0 + bold_scan(b, ts, k as int, bolds0, blank0 as int) =~= out.vs()
                        + bold_scan(b, ts, k + 1, bolds@, blank_run as int));
                }
            }
        } else {
            proof {
                assert(slice_ok(b, ts[k as int].span.start as int, ts[k as int].span.end as int));
            }
            if !blank(bytes, t.span.start, t.span.end) {
                blank_run = 0;
            }
            if !is_opaque(t) {
                if let TokenKind::Bold = t.kind {
                    let ghost before = bolds@;
                    bolds.push((t.span.start, t.span.end));
                    proof {
                        assert forall|q: int| 0 <= q < bolds@.len() implies #[trigger] slice_ok(b, bolds@[q].0 as int, bolds@[q].1 as int) by {
                            if q < before.len() {
                                assert(bolds@[q] == before[q]);
                            }
                        }
                    }
                }
            }
        }
        k += 1;
    }
    report_para(&bolds, out);
}

// ---------------------------------------------------------------------------
// SW005 — heading marker symmetry
// ---------------------------------------------------------------------------

/// The first newline token at or after `j`, or the end.
pub open spec fn next_newline(ts: Seq<Token>, j: int) -> int
    decreases ts.len() - j,
{
    if j >= ts.len() || ts[j].kind is Newline {
        j
    } else {
        next_newline(ts, j + 1)
    }
}

/// The last heading marker among tokens `from..to`.
pub open spec fn last_marker(ts: Seq<Token>, from: int, to: int) -> Option<int>
    decreases to - from,
{
    if to <= from {
        None
    } else if ts[to - 1].kind is HeadingMarker {
        Some(to - 1)
    } else {
        last_marker(ts, from, to - 1)
    }
}

pub proof fn lemma_next_newline(ts: Seq<Token>, j: int)
    requires
        0 <= j,
    ensures
        j <= next_newline(ts, j),
        j <= ts.len() ==> next_newline(ts, j) <= ts.len(),
    decreases ts.len() - j,
{
    if j < ts.len() && !(ts[j].kind is Newline) {
        lemma_next_newline(ts, j + 1);
    }
}

pub proof fn lemma_last_marker(ts: Seq<Token>, from: int, to: int)
    ensures
        last_marker(ts, from, to) matches Some(c) ==> from <= c < to && ts[c].kind is HeadingMarker,
    decreases to - from,
{
    if to > from && !(ts[to - 1].kind is HeadingMarker) {
        lemma_last_marker(ts, from, to - 1);
    }
}

pub open spec fn level_of(k: TokenKind) -> int {
    match k {
        TokenKind::HeadingMarker { level } => level as int,
        _ => 0,
    }
}

pub open spec fn asym_msg(open: nat, close: nat) -> Seq<u8> {
    lit("heading opens with ") + dec(open) + lit(" `=` but closes with ") + dec(close) + lit(
        "; the level is ambiguous",
    )
}

/// The report for a heading opened by token `i` and closed by token `c`
/// with runs of different lengths; its fix keeps the opening run.
pub open spec fn asym_report(b: Seq<u8>, ts: Seq<Token>, i: int, c: int) -> DiagnosticView {
    let open = level_of(ts[i].kind);
    let close = level_of(ts[c].kind);
    let tr = trimmed(b, ts[i].span.end as int, ts[c].span.start as int);
    let start = ts[i].span.start as int;
    let end = ts[c].span.end as int;
    dv(
        code_str(5),
        Severity::Error,
        asym_msg(open as nat, close as nat),
        start,
        end,
        Some(
            fv(
                start,
                end,
                eq_run(open as nat) + lit(" ") + b.subrange(tr.0, tr.1) + lit(" ") + eq_run(
                    open as nat,
                ),
                Applicability::Unsafe,
                lit("make both runs ") + dec(open as nat) + lit(" `=` long"),
            ),
        ),
    )
}

/// For each heading marker, the last marker before the next newline closes
/// it: a missing closer and a closer of a different length are reported.
/// Scanning resumes at that newline.
pub open spec fn heading_scan(b: Seq<u8>, ts: Seq<Token>, i: int) -> Seq<DiagnosticView>
    decreases ts.len() - i,
{
    if i >= ts.len() || i < 0 {
        Seq::empty()
    } else if ts[i].kind is HeadingMarker {
        let j = next_newline(ts, i + 1);
        let d = match last_marker(ts, i + 1, j) {
            Some(c) => if level_of(ts[c].kind) != level_of(ts[i].kind) {
                seq![asym_report(b, ts, i, c)]
            } else {
                Seq::empty()
            },
            None => seq![
                dv(
                    code_str(5),
                    Severity::Error,
                    lit("heading has no closing `=`"),
                    ts[i].span.start as int,
                    ts[i].span.end as int,
                    None,
                ),
            ],
        };
        if i < j <= ts.len() {
            d + heading_scan(b, ts, j)
        } else {
            d
        }
    } else {
        heading_scan(b, ts, i + 1)
    }
}

fn report_asym(src: &str, tokens: &[Token], i: usize, cj: usize, out: &mut Findings)
    requires
        lexed(src.spec_bytes(), tokens@),
        old(out).wf(),
        old(out).src@ == src.spec_bytes(),
        i < cj < tokens@.len(),
        tokens@[i as int].kind is HeadingMarker,
        tokens@[cj as int].kind is HeadingMarker,
    ensures
        final(out).wf(),
        final(out).src == old(out).src,
        final(out).vs() == old(out).vs().push(asym_report(src.spec_bytes(), tokens@, i as int, cj as int)),
{
    let ghost b = src.spec_bytes();
    let ghost ts = tokens@;
    let bytes = src.as_bytes();
    let t = &tokens[i];
    let c = &tokens[cj];
    let open = match t.kind {
        TokenKind::HeadingMarker { level } => level,
        _ => 0,
    };
    let clevel = match c.kind {
        TokenKind::HeadingMarker { level } => level,
        _ => 0,
    };
    proof {
        lemma_tiles_order(ts, 0, b.len() as int, i as int, cj as int);
        assert(slice_ok(b, ts[i as int].span.start as int, ts[i as int].span.end as int));
        assert(slice_ok(b, ts[cj as int].span.start as int, ts[cj as int].span.end as int));
        lemma_trimmed_ok(b, t.span.end as int, c.span.start as int);
        lemma_tiles_index(ts, 0, b.len() as int);
        assert(ts[i as int].span.start <= ts[i as int].span.end);
        assert(slice_ok(b, t.span.start as int, c.span.end as int));
    }
    let (ta, te) = trim_range(bytes, t.span.end, c.span.start);
    let mut m = string_of("heading opens with ");
    push_decimal(&mut m, open);
    append(&mut m, " `=` but closes with ");
    push_decimal(&mut m, clevel);
    append(&mut m, "; the level is ambiguous");
    let mut rep = new_string();
    push_eq_run(&mut rep, open);
    append(&mut rep, " ");
    push_slice(&mut rep, src, ta, te);
    append(&mut rep, " ");
    push_eq_run(&mut rep, open);
    let mut desc = string_of("make both runs ");
    push_decimal(&mut desc, open);
    append(&mut desc, " `=` long");
    let d = diag_fix(
        5,
        Severity::Error,
        m,
        t.span.start,
        c.span.end,
        t.span.start,
        c.span.end,
        rep,
        Applicability::Unsafe,
        desc,
    );
    proof {
        assert(utf8_of(&m) =~= asym_msg(open as nat, clevel as nat));
        assert(d@ == asym_report(b, ts, i as int, cj as int));
    }
    out.add(5, d);
}

fn headings(src: &str, tokens: &[Token], out: &mut Findings)
    requires
        lexed(src.spec_bytes(), tokens@),
        old(out).wf(),
        old(out).src@ == src.spec_bytes(),
    ensures
        final(out).wf(),
        final(out).src == old(out).src,
        final(out).vs() == old(out).vs() + heading_scan(src.spec_bytes(), tokens@, 0),
{
    let ghost b = src.spec_bytes();
    let ghost ts = tokens@;
    let bytes = src.as_bytes();
    let mut i: usize = 0;
    while i < tokens.len()
        invariant
            b == src.spec_bytes(),
            bytes@ == b,
            ts == tokens@,
            lexed(b, ts),
            i <= ts.len(),
            out.wf(),
            out.src == old(out).src,
            out.src@ == src.spec_bytes(),
            out.vs() + heading_scan(b, ts, i as int) == old(out).vs() + heading_scan(b, ts, 0),
        decreases tokens.len() - i,
    {
        let t = &tokens[i];
        if let TokenKind::HeadingMarker { level: open } = t.kind {
            let mut j = i + 1;
            let mut close: Option<(usize, usize)> = None;
            proof {
                lemma_next_newline(ts, i + 1);
            }
            while j < tokens.len() && !matches!(tokens[j].kind, TokenKind::Newline)
                invariant
                    ts == tokens@,
                    i < j <= ts.len(),
                    next_newline(ts, i + 1) == next_newline(ts, j as int),
                    match last_marker(ts, i + 1, j as int) {
                        Some(c) => close == Some((c as usize, level_of(ts[c].kind) as usize)),
                        None => close is None,
                    },
                decreases tokens.len() - j,
            {
                if let TokenKind::HeadingMarker { level } = tokens[j].kind {
                    close = Some((j, level));
                }
                j += 1;
            }
            proof {
                assert(next_newline(ts, j as int) == j);
                lemma_last_marker(ts, i + 1, j as int);
            }
            let ghost vs0 = out.vs();
            match close {
                Some((cj, clevel)) => {
                    if clevel != open {
                        report_asym(src, tokens, i, cj, out);
                    }
                },
                None => {
                    out.add(
                        5,
                        diag(
                            5,
                            Severity::Error,
                            string_of("heading has no closing `=`"),
                            t.span.start,
                            t.span.end,
                        ),
                    );
                },
            }
            proof {
                assert(vs0 + heading_scan(b, ts, i as int) =~= out.vs() + heading_scan(b, ts, j as int));
            }
            i = j;
        } else {
            i += 1;
        }
    }
}

// ---------------------------------------------------------------------------
// SW006 — image parameters
// ---------------------------------------------------------------------------

/// Image parameters accepted by Kitsune (`IMAGE_PARAMS` in its parser).
pub open spec fn image_param(k: int) -> Seq<u8> {
    if k == 0 {
        seq![97u8, 108, 116]
    } else if k == 1 {
        seq![97u8, 108, 105, 103, 110]
    } else if k == 2 {
        seq![99u8, 97, 112, 116, 105, 111, 110]
    } else if k == 3 {
        seq![118u8, 97, 108, 105, 103, 110]
    } else if k == 4 {
        seq![102u8, 114, 97, 109, 101]
    } else if k == 5 {
        seq![112u8, 97, 103, 101]
    } else if k == 6 {
        seq![108u8, 105, 110, 107]
    } else if k == 7 {
        seq![119u8, 105, 100, 116, 104]
    } else {
        seq![104u8, 101, 105, 103, 104, 116]
    }
}

fn image_param_exec(k: usize) -> (r: Vec<u8>)
    ensures
        r@ == image_param(k as int),
{
    if k == 0 {
        vec![97u8, 108, 116]
    } else if k == 1 {
        vec![97u8, 108, 105, 103, 110]
    } else if k == 2 {
        vec![99u8, 97, 112, 116, 105, 111, 110]
    } else if k == 3 {
        vec![118u8, 97, 108, 105, 103, 110]
    } else if k == 4 {
        vec![102u8, 114, 97, 109, 101]
    } else if k == 5 {
        vec![112u8, 97, 103, 101]
    } else if k == 6 {
        vec![108u8, 105, 110, 107]
    } else if k == 7 {
        vec![119u8, 105, 100, 116, 104]
    } else {
        vec![104u8, 101, 105, 103, 104, 116]
    }
}

/// `b[s..t]`, lowercased, is one of the accepted image parameters.
pub open spec fn is_image_param(b: Seq<u8>, s: int, t: int) -> bool {
    exists|k: int| 0 <= k < 9 && #[trigger] name_is(b, s, t, image_param(k))
}

fn is_image_param_exec(b: &[u8], s: usize, t: usize) -> (r: bool)
    requires
        s <= t <= b.len(),
    ensures
        r == is_image_param(b@, s as int, t as int),
{
    let mut k: usize = 0;
    while k < 9
        invariant
            k <= 9,
            s <= t <= b.len(),
            forall|j: int| 0 <= j < k ==> !#[trigger] name_is(b@, s as int, t as int, image_param(j)),
        decreases 9 - k,
    {
        let p = image_param_exec(k);
        if t - s == p.len() && bytes_match_at_ci(b, s, p.as_slice()) {
            assert(name_is(b@, s as int, t as int, image_param(k as int)));
            return true;
        }
        k += 1;
    }
    false
}

pub open spec fn image_msg(b: Seq<u8>, ks: int, ke: int) -> Seq<u8> {
    lit("unknown `[[Image:]]` parameter `") + lowered(b, ks, ke) + lit(
        "`; allowed: alt, align, caption, valign, frame, page, link, width, height",
    )
}

/// The report for the image parameter `b[p..q]`: its key is what precedes
/// the first `=`, trimmed; an empty key or an accepted one is not reported.
pub open spec fn param_report(b: Seq<u8>, p: int, q: int) -> Seq<DiagnosticView> {
    let kr = match first_byte(b, EQ, p, q) {
        Some(x) => x,
        None => q,
    };
    let ks = trimmed(b, p, kr).0;
    let ke = trimmed(b, p, kr).1;
    if ks >= ke || is_image_param(b, ks, ke) {
        Seq::empty()
    } else {
        seq![dv(code_str(6), Severity::Error, image_msg(b, ks, ke), ks, ke, None)]
    }
}

/// The parts of `b[p..e]` split at `|`; the first (`n == 0`) is the image name.
pub open spec fn parts_scan(b: Seq<u8>, p: int, e: int, n: int) -> Seq<DiagnosticView>
    decreases e + 1 - p,
{
    let q = match first_byte(b, PIPE, p, e) {
        Some(x) => x,
        None => e,
    };
    let here = if n > 0 {
        param_report(b, p, q)
    } else {
        Seq::empty()
    };
    if p <= q < e {
        here + parts_scan(b, q + 1, e, n + 1)
    } else {
        here
    }
}

/// The reports for `[[Image:...]]` links: the text inside the brackets
/// (all leading `[` and trailing `]` removed) split into parameters.
pub open spec fn image_scan(b: Seq<u8>, ts: Seq<Token>, k: int) -> Seq<DiagnosticView>
    decreases ts.len() - k,
{
    if k >= ts.len() {
        Seq::empty()
    } else {
        let t = ts[k];
        let rest = image_scan(b, ts, k + 1);
        if t.kind == (TokenKind::Link { kind: LinkKind::Image }) {
            let s = t.span.start as int;
            let e = t.span.end as int;
            let lead = run_len(b, LBRACKET, s, e);
            let trail = run_len_back(b, RBRACKET, s + lead, e);
            parts_scan(b, s + lead, e - trail, 0) + rest
        } else {
            rest
        }
    }
}

fn image_params(src: &str, tokens: &[Token], out: &mut Findings)
    requires
        lexed(src.spec_bytes(), tokens@),
        old(out).wf(),
        old(out).src@ == src.spec_bytes(),
    ensures
        final(out).wf(),
        final(out).src == old(out).src,
        final(out).vs() == old(out).vs() + image_scan(src.spec_bytes(), tokens@, 0),
{
    let ghost b = src.spec_bytes();
    let ghost ts = tokens@;
    let bytes = src.as_bytes();
    let mut k: usize = 0;
    while k < tokens.len()
        invariant
            b == src.spec_bytes(),
            bytes@ == b,
            ts == tokens@,
            lexed(b, ts),
            k <= ts.len(),
            out.wf(),
            out.src == old(out).src,
            out.src@ == src.spec_bytes(),
            out.vs() + image_scan(b, ts, k as int) == old(out).vs() + image_scan(b, ts, 0),
        decreases tokens.len() - k,
    {
        let t = &tokens[k];
        if let TokenKind::Link { kind: LinkKind::Image } = t.kind {
            let ghost vs0 = out.vs();
            proof {
                assert(slice_ok(b, ts[k as int].span.start as int, ts[k as int].span.end as int));
            }
            let s = t.span.start;
            let e = t.span.end;
            let lead = count_run(bytes, LBRACKET, s, e);
            let trail = run_len_back_exec(bytes, RBRACKET, s + lead, e);
            proof {
                lemma_run_len(b, LBRACKET, s as int, e as int);
                lemma_run_len_back(b, RBRACKET, (s + lead) as int, e as int);
                if lead > 0 {
                    lemma_boundary_after_ascii(b, (s + lead) as int);
                }
                if trail > 0 {
                    lemma_boundary_ascii(b, (e - trail) as int);
                }
            }
            image_parts(src, s + lead, e - trail, out);
            proof {
                assert(vs0 + image_scan(b, ts, k as int) =~= out.vs() + image_scan(b, ts, k + 1));
            }
        }
        k += 1;
    }
}

/// Reports the parameters of the link text `src[from..e]`.
fn image_parts(src: &str, from: usize, e: usize, out: &mut Findings)
    requires
        valid_utf8(src.spec_bytes()),
        slice_ok(src.spec_bytes(), from as int, e as int),
        old(out).wf(),
        old(out).src@ == src.spec_bytes(),
    ensures
        final(out).wf(),
        final(out).src == old(out).src,
        final(out).vs() == old(out).vs() + parts_scan(src.spec_bytes(), from as int, e as int, 0),
{
    let ghost b = src.spec_bytes();
    let bytes = src.as_bytes();
    let mut p = from;
    let mut n: usize = 0;
    let mut done = false;
    while !done
        invariant
            b == src.spec_bytes(),
            bytes@ == b,
            valid_utf8(b),
            from <= p <= e <= b.len(),
            is_char_boundary(b, p as int),
            is_char_boundary(b, e as int),
            n <= p - from,
            out.wf(),
            out.src == old(out).src,
            out.src@ == src.spec_bytes(),
            !done ==> out.vs() + parts_scan(b, p as int, e as int, n as int) == old(out).vs()
                + parts_scan(b, from as int, e as int, 0),
            done ==> out.vs() == old(out).vs() + parts_scan(b, from as int, e as int, 0),
        decreases e + 1 - p + (if done { 0int } else { 1int }),
    {
        proof {
            lemma_first_byte(b, PIPE, p as int, e as int);
        }
        let q = match find_byte(bytes, PIPE, p, e) {
            Some(x) => x,
            None => e,
        };
        let ghost vs0 = out.vs();
        proof {
            if q < e {
                lemma_boundary_ascii(b, q as int);
                lemma_boundary_after_ascii(b, q + 1);
            }
        }
        if n > 0 {
            param_report_exec(src, p, q, out);
        }
        proof {
            if n == 0 {
                assert(out.vs() =~= vs0 + Seq::<DiagnosticView>::empty());
            }
        }
        if q < e {
            proof {
                assert(vs0 + parts_scan(b, p as int, e as int, n as int) =~= out.vs() + parts_scan(b, q + 1, e as int, n + 1));
            }
            p = q + 1;
            n += 1;
        } else {
            done = true;
        }
    }
}

fn param_report_exec(src: &str, p: usize, q: usize, out: &mut Findings)
    requires
        valid_utf8(src.spec_bytes()),
        slice_ok(src.spec_bytes(), p as int, q as int),
        old(out).wf(),
        old(out).src@ == src.spec_bytes(),
    ensures
        final(out).wf(),
        final(out).src == old(out).src,
        final(out).vs() == old(out).vs() + param_report(src.spec_bytes(), p as int, q as int),
{
    let ghost b = src.spec_bytes();
    let bytes = src.as_bytes();
    proof {
        lemma_first_byte(b, EQ, p as int, q as int);
    }
    let kr = match find_byte(bytes, EQ, p, q) {
        Some(x) => x,
        None => q,
    };
    proof {
        if kr < q {
            lemma_boundary_ascii(b, kr as int);
        }
        lemma_trimmed_ok(b, p as int, kr as int);
    }
    let (ks, ke) = trim_range(bytes, p, kr);
    if ks >= ke || is_image_param_exec(bytes, ks, ke) {
        proof {
            assert(old(out).vs() + param_report(b, p as int, q as int) =~= old(out).vs());
        }
        return;
    }
    proof {
        encode_utf8_valid_utf8(src@);
        lemma_first_byte(b, EQ, p as int, q as int);
        if p < b.len() {
        }
    }
    let ghost vs0 = out.vs();
    let mut m = string_of("unknown `[[Image:]]` parameter `");
    push_lowered(&mut m, src, ks, ke);
    append(&mut m, "`; allowed: alt, align, caption, valign, frame, page, link, width, height");
    out.add(6, diag(6, Severity::Error, m, ks, ke));
    proof {
        assert(utf8_of(&m) =~= image_msg(b, ks as int, ke as int));
        assert(out.vs() =~= vs0 + param_report(b, p as int, q as int));
    }
}

// ---------------------------------------------------------------------------
// SW009 / SW010 — Markdown written by mistake
// ---------------------------------------------------------------------------

pub open spec fn lit_http_word() -> Seq<u8> {
    seq![104u8, 116, 116, 112]
}

pub open spec fn lit_stars() -> Seq<u8> {
    seq![42u8, 42]
}

/// The wiki form of the Markdown link `[label](url)`, where the label is
/// `b[k+1..rb]` and the url `b[rb+2..rp]`: `[url label]` for a url
/// starting with `http`, else `[[url|label]]`.
pub open spec fn link_replacement(b: Seq<u8>, k: int, rb: int, rp: int) -> Seq<u8> {
    let url = b.subrange(rb + 2, rp);
    let label = b.subrange(k + 1, rb);
    if rp - (rb + 2) >= 4 && matches_at(b, rb + 2, lit_http_word()) {
        lit("[") + url + lit(" ") + label + lit("]")
    } else {
        lit("[[") + url + lit("|") + label + lit("]]")
    }
}

pub open spec fn link_report(b: Seq<u8>, k: int, rb: int, rp: int) -> DiagnosticView {
    dv(
        code_str(9),
        Severity::Error,
        lit("Markdown link syntax; SUMO uses `[url label]` or `[[Page|text]]`"),
        k,
        rp + 1,
        Some(
            fv(
                k,
                rp + 1,
                link_replacement(b, k, rb, rp),
                Applicability::Safe,
                lit("rewrite as wiki link syntax"),
            ),
        ),
    )
}

/// Markdown links `[label](url)` in the text `b[k..te]`: a non-empty label,
/// and a non-empty url without spaces.
pub open spec fn md_link_scan(b: Seq<u8>, te: int, k: int) -> Seq<DiagnosticView>
    decreases te - k,
{
    if k >= te || k < 0 {
        Seq::empty()
    } else if b[k] != LBRACKET {
        md_link_scan(b, te, k + 1)
    } else {
        match first_byte(b, RBRACKET, k, te) {
            None => Seq::empty(),
            Some(rb) => if !(rb + 1 < te && b[rb + 1] == 40) {
                md_link_scan(b, te, k + 1)
            } else {
                match first_byte(b, 41, rb, te) {
                    None => Seq::empty(),
                    Some(rp) => if rb == k + 1 || rp == rb + 2 || first_byte(b, SPACE, rb + 2, rp) is Some {
                        if k < rb + 1 <= te {
                            md_link_scan(b, te, rb + 1)
                        } else {
                            Seq::empty()
                        }
                    } else if k < rp + 1 <= te {
                        seq![link_report(b, k, rb, rp)] + md_link_scan(b, te, rp + 1)
                    } else {
                        seq![link_report(b, k, rb, rp)]
                    },
                }
            },
        }
    }
}

pub open spec fn bold_report(b: Seq<u8>, p: int, q: int) -> DiagnosticView {
    dv(
        code_str(10),
        Severity::Error,
        lit("Markdown bold syntax; SUMO uses `'''bold'''`"),
        p,
        q + 2,
        Some(
            fv(
                p,
                q + 2,
                lit("'''") + b.subrange(p + 2, q) + lit("'''"),
                Applicability::Safe,
                lit("rewrite as `'''bold'''`"),
            ),
        ),
    )
}

/// Markdown bold `**text**` in `b[k..te]`: non-empty, one line, no `*`.
pub open spec fn md_bold_scan(b: Seq<u8>, te: int, k: int) -> Seq<DiagnosticView>
    decreases te + 1 - k,
{
    match first_match_in(b, lit_stars(), k, te) {
        None => Seq::empty(),
        Some(p) => match first_match_in(b, lit_stars(), p + 2, te) {
            None => Seq::empty(),
            Some(q) => if q == p + 2 || first_byte(b, NL, p + 2, q) is Some || first_byte(
                b,
                STAR,
                p + 2,
                q,
            ) is Some {
                if k < p + 2 <= te + 1 {
                    md_bold_scan(b, te, p + 2)
                } else {
                    Seq::empty()
                }
            } else if k < q + 2 <= te + 1 {
                seq![bold_report(b, p, q)] + md_bold_scan(b, te, q + 2)
            } else {
                seq![bold_report(b, p, q)]
            },
        },
    }
}

/// Only `Text` tokens are examined, so `[[Page|text]]`, `[http://… label]`
/// and opaque regions cannot trigger these.
pub open spec fn md_scan(b: Seq<u8>, ts: Seq<Token>, k: int) -> Seq<DiagnosticView>
    decreases ts.len() - k,
{
    if k >= ts.len() {
        Seq::empty()
    } else {
        let t = ts[k];
        let rest = md_scan(b, ts, k + 1);
        if t.kind is Text {
            md_link_scan(b, t.span.end as int, t.span.start as int) + md_bold_scan(
                b,
                t.span.end as int,
                t.span.start as int,
            ) + rest
        } else {
            rest
        }
    }
}

fn md_links(src: &str, ts_: usize, te: usize, out: &mut Findings)
    requires
        valid_utf8(src.spec_bytes()),
        slice_ok(src.spec_bytes(), ts_ as int, te as int),
        old(out).wf(),
        old(out).src@ == src.spec_bytes(),
    ensures
        final(out).wf(),
        final(out).src == old(out).src,
        final(out).vs() == old(out).vs() + md_link_scan(src.spec_bytes(), te as int, ts_ as int),
{
    let ghost b = src.spec_bytes();
    let bytes = src.as_bytes();
    let mut k = ts_;
    let mut stop = false;
    while !stop && k < te
        invariant
            b == src.spec_bytes(),
            bytes@ == b,
            valid_utf8(b),
            ts_ <= k,
            te <= b.len(),
            out.wf(),
            out.src == old(out).src,
            out.src@ == src.spec_bytes(),
            out.vs() + md_link_scan(b, te as int, k as int) == old(out).vs() + md_link_scan(b, te as int, ts_ as int),
            stop ==> md_link_scan(b, te as int, k as int) == Seq::<DiagnosticView>::empty(),
        decreases te - k + (if stop { 0int } else { 1int }),
    {
        if bytes[k] != LBRACKET {
            k += 1;
        } else {
            proof {
                lemma_first_byte(b, RBRACKET, k as int, te as int);
            }
            match find_byte(bytes, RBRACKET, k, te) {
                None => {
                    stop = true;
                },
                Some(rb) => {
                    if !(rb + 1 < te && bytes[rb + 1] == 40) {
                        k += 1;
                    } else {
                        proof {
                            lemma_first_byte(b, 41, rb as int, te as int);
                        }
                        match find_byte(bytes, 41, rb, te) {
                            None => {
                                stop = true;
                            },
                            Some(rp) => {
                                proof {
                                    lemma_first_byte(b, SPACE, rb + 2, rp as int);
                                }
                                if rb == k + 1 || rp == rb + 2 || find_byte(bytes, SPACE, rb + 2, rp).is_some() {
                                    k = rb + 1;
                                } else {
                                    let ghost vs0 = out.vs();
                                    report_md_link(src, k, rb, rp, out);
                                    proof {
                                        assert(vs0 + md_link_scan(b, te as int, k as int) =~= out.vs() + md_link_scan(b, te as int, rp + 1));
                                    }
                                    k = rp + 1;
                                }
                            },
                        }
                    }
                },
            }
        }
    }
    proof {
        if !stop {
            assert(md_link_scan(b, te as int, k as int) == Seq::<DiagnosticView>::empty());
        }
        assert(out.vs() =~= old(out).vs() + md_link_scan(b, te as int, ts_ as int));
    }
}

fn report_md_link(src: &str, k: usize, rb: usize, rp: usize, out: &mut Findings)
    requires
        valid_utf8(src.spec_bytes()),
        k + 1 < rb + 2 < rp < src.spec_bytes().len(),
        src.spec_bytes()[k as int] == LBRACKET,
        src.spec_bytes()[rb as int] == RBRACKET,
        src.spec_bytes()[rb + 1] == 40,
        src.spec_bytes()[rp as int] == 41,
        old(out).wf(),
        old(out).src@ == src.spec_bytes(),
    ensures
        final(out).wf(),
        final(out).src == old(out).src,
        final(out).vs() == old(out).vs().push(link_report(src.spec_bytes(), k as int, rb as int, rp as int)),
{
    let ghost b = src.spec_bytes();
    let bytes = src.as_bytes();
    let n = bytes.len();
    proof {
        lemma_boundary_ascii(b, k as int);
        lemma_boundary_after_ascii(b, k + 1);
        lemma_boundary_ascii(b, rb as int);
        lemma_boundary_after_ascii(b, rb + 2);
        lemma_boundary_ascii(b, rp as int);
        lemma_boundary_after_ascii(b, rp + 1);
    }
    let http: [u8; 4] = [104, 116, 116, 112];
    assert(http@ == lit_http_word());
    let mut rep = new_string();
    if rp - (rb + 2) >= 4 && bytes_match_at(bytes, rb + 2, &http) {
        append(&mut rep, "[");
        push_slice(&mut rep, src, rb + 2, rp);
        append(&mut rep, " ");
        push_slice(&mut rep, src, k + 1, rb);
        append(&mut rep, "]");
    } else {
        append(&mut rep, "[[");
        push_slice(&mut rep, src, rb + 2, rp);
        append(&mut rep, "|");
        push_slice(&mut rep, src, k + 1, rb);
        append(&mut rep, "]]");
    }
    proof {
        assert(utf8_of(&rep) =~= link_replacement(b, k as int, rb as int, rp as int));
    }
    let d = diag_fix(
        9,
        Severity::Error,
        string_of("Markdown link syntax; SUMO uses `[url label]` or `[[Page|text]]`"),
        k,
        rp + 1,
        k,
        rp + 1,
        rep,
        Applicability::Safe,
        string_of("rewrite as wiki link syntax"),
    );
    out.add(9, d);
}

fn md_bolds(src: &str, ts_: usize, te: usize, out: &mut Findings)
    requires
        valid_utf8(src.spec_bytes()),
        slice_ok(src.spec_bytes(), ts_ as int, te as int),
        old(out).wf(),
        old(out).src@ == src.spec_bytes(),
    ensures
        final(out).wf(),
        final(out).src == old(out).src,
        final(out).vs() == old(out).vs() + md_bold_scan(src.spec_bytes(), te as int, ts_ as int),
{
    let ghost b = src.spec_bytes();
    let bytes = src.as_bytes();
    let stars: [u8; 2] = [42, 42];
    assert(stars@ == lit_stars());
    let mut k = ts_;
    let mut stop = false;
    while !stop
        invariant
            b == src.spec_bytes(),
            bytes@ == b,
            stars@ == lit_stars(),
            valid_utf8(b),
            ts_ <= k <= te + 1,
            k <= te,
            te <= b.len(),
            out.wf(),
            out.src == old(out).src,
            out.src@ == src.spec_bytes(),
            !stop ==> out.vs() + md_bold_scan(b, te as int, k as int) == old(out).vs() + md_bold_scan(b, te as int, ts_ as int),
            stop ==> out.vs() == old(out).vs() + md_bold_scan(b, te as int, ts_ as int),
        decreases te + 1 - k + (if stop { 0int } else { 1int }),
    {
        proof {
            lemma_first_match_in(b, lit_stars(), k as int, te as int);
        }
        match find_lit_in(bytes, &stars, k, te) {
            None => {
                stop = true;
            },
            Some(p) => {
                proof {
                    lemma_first_match_in(b, lit_stars(), p + 2, te as int);
                }
                match find_lit_in(bytes, &stars, p + 2, te) {
                    None => {
                        stop = true;
                    },
                    Some(q) => {
                        proof {
                            lemma_first_byte(b, NL, p + 2, q as int);
                            lemma_first_byte(b, STAR, p + 2, q as int);
                        }
                        if q == p + 2 || find_byte(bytes, NL, p + 2, q).is_some() || find_byte(bytes, STAR, p + 2, q).is_some() {
                            k = p + 2;
                        } else {
                            let ghost vs0 = out.vs();
                            proof {
                                assert(b[p as int + 1] == lit_stars()[1]);
                                assert(b[q as int] == lit_stars()[0]);
                                assert(b[q as int + 1] == lit_stars()[1]);
                                assert(b[p as int] == lit_stars()[0]);
                                lemma_boundary_ascii(b, p as int);
                                lemma_boundary_after_ascii(b, p + 2);
                                lemma_boundary_ascii(b, q as int);
                                lemma_boundary_after_ascii(b, q + 2);
                            }
                            let mut rep = string_of("'''");
                            push_slice(&mut rep, src, p + 2, q);
                            append(&mut rep, "'''");
                            let d = diag_fix(
                                10,
                                Severity::Error,
                                string_of("Markdown bold syntax; SUMO uses `'''bold'''`"),
                                p,
                                q + 2,
                                p,
                                q + 2,
                                rep,
                                Applicability::Safe,
                                string_of("rewrite as `'''bold'''`"),
                            );
                            out.add(10, d);
                            proof {
                                assert(vs0 + md_bold_scan(b, te as int, k as int) =~= out.vs() + md_bold_scan(b, te as int, q + 2));
                            }
                            k = q + 2;
                        }
                    },
                }
            },
        }
    }
}

/// Detect Markdown link and bold syntax in text runs.
fn markdown_syntax(src: &str, tokens: &[Token], out: &mut Findings)
    requires
        lexed(src.spec_bytes(), tokens@),
        old(out).wf(),
        old(out).src@ == src.spec_bytes(),
    ensures
        final(out).wf(),
        final(out).src == old(out).src,
        final(out).vs() == old(out).vs() + md_scan(src.spec_bytes(), tokens@, 0),
{
    let ghost b = src.spec_bytes();
    let ghost ts = tokens@;
    let mut k: usize = 0;
    while k < tokens.len()
        invariant
            b == src.spec_bytes(),
            ts == tokens@,
            lexed(b, ts),
            k <= ts.len(),
            out.wf(),
            out.src == old(out).src,
            out.src@ == src.spec_bytes(),
            out.vs() + md_scan(b, ts, k as int) == old(out).vs() + md_scan(b, ts, 0),
        decreases tokens.len() - k,
    {
        let t = &tokens[k];
        if let TokenKind::Text = t.kind {
            let ghost vs0 = out.vs();
            proof {
                assert(slice_ok(b, ts[k as int].span.start as int, ts[k as int].span.end as int));
            }
            md_links(src, t.span.start, t.span.end, out);
            md_bolds(src, t.span.start, t.span.end, out);
            proof {
                assert(vs0 + md_scan(b, ts, k as int) =~= out.vs() + md_scan(b, ts, k + 1));
            }
        }
        k += 1;
    }
}

// ---------------------------------------------------------------------------
// All rules, in order
// ---------------------------------------------------------------------------

/// What every rule reports, rule after rule, before ordering.
pub open spec fn all_rules(b: Seq<u8>, ts: Seq<Token>) -> Seq<DiagnosticView> {
    blocks_spec(b, ts) + bold_scan(b, ts, 0, Seq::empty(), 0) + heading_scan(b, ts, 0)
        + image_scan(b, ts, 0) + brackets_scan(ts, 0) + list_scan(b, ts, 0) + md_scan(b, ts, 0)
        + macros_scan(b, ts, 0)
}

/// Ordering key: position, then code.
pub open spec fn key_le(x: DiagnosticView, y: DiagnosticView) -> bool {
    x.start < y.start || (x.start == y.start && rank_of(x.code) <= rank_of(y.code))
}

/// Insert `x` after every element whose key is not greater than its own.
pub open spec fn insert_sorted(s: Seq<DiagnosticView>, x: DiagnosticView) -> Seq<DiagnosticView>
    decreases s.len(),
{
    if s.len() == 0 {
        seq![x]
    } else if key_le(s.last(), x) {
        s.push(x)
    } else {
        insert_sorted(s.drop_last(), x).push(s.last())
    }
}

/// Stable sort by [`key_le`].
pub open spec fn sort_diags(s: Seq<DiagnosticView>) -> Seq<DiagnosticView>
    decreases s.len(),
{
    if s.len() == 0 {
        Seq::empty()
    } else {
        insert_sorted(sort_diags(s.drop_last()), s.last())
    }
}

/// Everything [`check`] reports for the tokens `ts` of the UTF-8 text `b`.
pub open spec fn check_spec(b: Seq<u8>, ts: Seq<Token>) -> Seq<DiagnosticView> {
    sort_diags(all_rules(b, ts))
}

proof fn lemma_insert_at(s: Seq<DiagnosticView>, x: DiagnosticView, p: int)
    requires
        0 <= p <= s.len(),
        p > 0 ==> key_le(s[p - 1], x),
        forall|j: int| p <= j < s.len() ==> !key_le(#[trigger] s[j], x),
    ensures
        insert_sorted(s, x) == s.insert(p, x),
    decreases s.len(),
{
    if s.len() == 0 {
        assert(s.insert(p, x) =~= seq![x]);
    } else if p == s.len() {
        assert(s.insert(p, x) =~= s.push(x));
    } else {
        let t = s.drop_last();
        lemma_insert_at(t, x, p);
        assert(s.insert(p, x) =~= t.insert(p, x).push(s.last()));
    }
}

fn key_le_exec(a: &Diagnostic, ra: u8, d: &Diagnostic, rd: u8) -> (r: bool)
    requires
        ra as int == rank_of(a.code),
        rd as int == rank_of(d.code),
    ensures
        r == key_le(a@, d@),
{
    a.span.start < d.span.start || (a.span.start == d.span.start && ra <= rd)
}

/// Stable insertion sort of the findings by position, then code.
fn sorted(f: &Findings) -> (r: Vec<Diagnostic>)
    requires
        f.wf(),
    ensures
        views(r@) == sort_diags(f.vs()),
        reports_ok(f.src@, views(r@)),
{
    let ghost all = f.vs();
    let mut res: Vec<Diagnostic> = Vec::new();
    let mut rks: Vec<u8> = Vec::new();
    let mut k: usize = 0;
    proof {
        assert(views(res@) =~= sort_diags(all.subrange(0, 0)));
    }
    while k < f.diags.len()
        invariant
            f.wf(),
            all == f.vs(),
            k <= f.diags@.len(),
            rks@.len() == res@.len(),
            forall|j: int| 0 <= j < rks@.len() ==> #[trigger] rks@[j] as int == rank_of(res@[j].code),
            views(res@) == sort_diags(all.subrange(0, k as int)),
            reports_ok(f.src@, views(res@)),
        decreases f.diags.len() - k,
    {
        let d = f.diags[k].clone();
        let r = f.ranks[k];
        proof {
            assert(r as int == rank_of(f.diags@[k as int].code));
            assert(report_ok(f.src@, all[k as int]));
        }
        let mut p = res.len();
        while p > 0 && !key_le_exec(&res[p - 1], rks[p - 1], &d, r)
            invariant
                p <= res@.len(),
                rks@.len() == res@.len(),
                forall|j: int| 0 <= j < rks@.len() ==> #[trigger] rks@[j] as int == rank_of(res@[j].code),
                r as int == rank_of(d.code),
                forall|j: int| p <= j < res@.len() ==> !key_le(#[trigger] views(res@)[j], d@),
            decreases p,
        {
            p -= 1;
        }
        proof {
            let vs = views(res@);
            if p > 0 {
                assert(vs[p - 1] == res@[p - 1]@);
            }
            lemma_insert_at(vs, d@, p as int);
            assert(all.subrange(0, k + 1).drop_last() =~= all.subrange(0, k as int));
            assert(all.subrange(0, k + 1).last() == d@);
        }
        let ghost old_res = res@;
        res.insert(p, d);
        rks.insert(p, r);
        proof {
            assert(views(res@) =~= views(old_res).insert(p as int, views(res@)[p as int]));
            assert forall|j: int| 0 <= j < views(res@).len() implies #[trigger] report_ok(f.src@, views(res@)[j]) by {
                if j < p {
                    assert(views(res@)[j] == views(old_res)[j]);
                } else if j > p {
                    assert(views(res@)[j] == views(old_res)[j - 1]);
                }
            }
            assert forall|j: int| 0 <= j < rks@.len() implies #[trigger] rks@[j] as int == rank_of(res@[j].code) by {
                if j < p {
                    assert(res@[j] == old_res[j]);
                } else if j > p {
                    assert(res@[j] == old_res[j - 1]);
                }
            }
        }
        k += 1;
    }
    proof {
        assert(all.subrange(0, k as int) =~= all);
    }
    res
}

/// Run every rule over an already-lexed document, ordering the diagnostics
/// by position and then code.
pub fn check(input: &str, tokens: &[Token]) -> (r: Vec<Diagnostic>)
    requires
        tiles_from(tokens@, 0, input.spec_bytes().len() as int),
        spans_ok(input.spec_bytes(), tokens@),
    ensures
        views(r@) == check_spec(input.spec_bytes(), tokens@),
        reports_ok(input.spec_bytes(), views(r@)),
{
    let ghost b = input.spec_bytes();
    let n = input.as_bytes().len();
    proof {
        encode_utf8_valid_utf8(input@);
    }
    let mut out = Findings::new(Ghost(b));
    blocks(input, tokens, &mut out);
    let ghost v1 = out.vs();
    bold_balance(input, tokens, &mut out);
    let ghost v2 = out.vs();
    headings(input, tokens, &mut out);
    let ghost v3 = out.vs();
    image_params(input, tokens, &mut out);
    let ghost v4 = out.vs();
    brackets(tokens, &mut out);
    let ghost v5 = out.vs();
    empty_list_items(input, tokens, &mut out);
    let ghost v6 = out.vs();
    markdown_syntax(input, tokens, &mut out);
    let ghost v7 = out.vs();
    empty_macros(input, tokens, &mut out);
    proof {
        assert(out.vs() =~= all_rules(b, tokens@));
    }
    sorted(&out)
}

// ---------------------------------------------------------------------------
// Laws of the ordering
// ---------------------------------------------------------------------------

/// Adjacent diagnostics are in key order.
pub open spec fn is_sorted(s: Seq<DiagnosticView>) -> bool {
    forall|i: int| 0 <= i < s.len() - 1 ==> key_le(#[trigger] s[i], s[i + 1])
}

proof fn lemma_insert_sorted_parts(s: Seq<DiagnosticView>, x: DiagnosticView)
    ensures
        insert_sorted(s, x).len() == s.len() + 1,
        insert_sorted(s, x).to_multiset() == s.to_multiset().insert(x),
        forall|j: int|
            0 <= j < insert_sorted(s, x).len() ==> #[trigger] insert_sorted(s, x)[j] == x || s.contains(insert_sorted(s, x)[j]),
    decreases s.len(),
{
    broadcast use vstd::seq_lib::to_multiset_build;
    broadcast use vstd::multiset::group_multiset_axioms;

    if s.len() == 0 {
        assert(seq![x] =~= Seq::<DiagnosticView>::empty().push(x));
        assert(s =~= Seq::<DiagnosticView>::empty());
    } else if key_le(s.last(), x) {
        let r = s.push(x);
        assert forall|j: int| 0 <= j < r.len() implies #[trigger] r[j] == x || s.contains(r[j]) by {
            if j < s.len() {
                assert(s[j] == r[j]);
            }
        }
    } else {
        let t = s.drop_last();
        lemma_insert_sorted_parts(t, x);
        let r = insert_sorted(t, x).push(s.last());
        assert(s =~= t.push(s.last()));
        assert(r.to_multiset() =~= s.to_multiset().insert(x));
        assert forall|j: int| 0 <= j < r.len() implies #[trigger] r[j] == x || s.contains(r[j]) by {
            if j < r.len() - 1 {
                let e = insert_sorted(t, x)[j];
                assert(r[j] == e);
                if e != x {
                    let w = choose|w: int| 0 <= w < t.len() && t[w] == e;
                    assert(s[w] == e);
                }
            } else {
                assert(s[s.len() - 1] == r[j]);
            }
        }
    }
}

proof fn lemma_insert_sorted_sorted(s: Seq<DiagnosticView>, x: DiagnosticView)
    requires
        is_sorted(s),
    ensures
        is_sorted(insert_sorted(s, x)),
    decreases s.len(),
{
    if s.len() == 0 {
    } else if key_le(s.last(), x) {
        let r = s.push(x);
        assert forall|i: int| 0 <= i < r.len() - 1 implies key_le(#[trigger] r[i], r[i + 1]) by {
            if i < s.len() - 1 {
                assert(r[i] == s[i] && r[i + 1] == s[i + 1]);
            }
        }
    } else {
        let t = s.drop_last();
        let l = s.last();
        assert(is_sorted(t)) by {
            assert forall|i: int| 0 <= i < t.len() - 1 implies key_le(#[trigger] t[i], t[i + 1]) by {
                assert(s[i] == t[i] && s[i + 1] == t[i + 1]);
            }
        }
        lemma_insert_sorted_sorted(t, x);
        lemma_insert_sorted_parts(t, x);
        let m = insert_sorted(t, x);
        let r = m.push(l);
        // every element of `t` is at most `l`, and so is `x`
        assert forall|w: int| 0 <= w < t.len() implies key_le(#[trigger] t[w], l) by {
            lemma_sorted_le_last(s, w);
        }
        assert forall|i: int| 0 <= i < r.len() - 1 implies key_le(#[trigger] r[i], r[i + 1]) by {
            if i < m.len() - 1 {
                assert(r[i] == m[i] && r[i + 1] == m[i + 1]);
            } else {
                assert(r[i] == m[m.len() - 1]);
                let e = m[m.len() - 1];
                if e != x {
                    let w = choose|w: int| 0 <= w < t.len() && t[w] == e;
                }
            }
        }
    }
}

proof fn lemma_sorted_le_last(s: Seq<DiagnosticView>, w: int)
    requires
        is_sorted(s),
        0 <= w < s.len(),
    ensures
        key_le(s[w], s[s.len() - 1]),
    decreases s.len() - w,
{
    if w < s.len() - 1 {
        lemma_sorted_le_last(s, w + 1);
        assert(key_le(s[w], s[w + 1]));
    }
}

/// The ordering is a stable sort: sorted by position then code, with
/// exactly the same diagnostics.
pub proof fn lemma_sort_diags(s: Seq<DiagnosticView>)
    ensures
        is_sorted(sort_diags(s)),
        sort_diags(s).to_multiset() == s.to_multiset(),
        sort_diags(s).len() == s.len(),
    decreases s.len(),
{
    broadcast use vstd::seq_lib::to_multiset_build;

    if s.len() == 0 {
        assert(sort_diags(s) =~= s);
    } else {
        let t = s.drop_last();
        lemma_sort_diags(t);
        lemma_insert_sorted_sorted(sort_diags(t), s.last());
        lemma_insert_sorted_parts(sort_diags(t), s.last());
        assert(s =~= t.push(s.last()));
    }
}

/// **The diagnostics of [`check`]** are exactly those the rules report, in
/// order of position, then code.
pub proof fn lemma_check_ordered(b: Seq<u8>, ts: Seq<Token>)
    ensures
        is_sorted(check_spec(b, ts)),
        check_spec(b, ts).to_multiset() == all_rules(b, ts).to_multiset(),
{
    lemma_sort_diags(all_rules(b, ts));
}


/// Names of opaque region kinds, for diagnostics and tests.
pub open spec fn opaque_name_spec(o: Opaque) -> &'static str {
    match o {
        Opaque::Nowiki => "nowiki",
        Opaque::Preformatted => "preformatted",
        Opaque::Pre => "pre",
        Opaque::Comment => "comment",
    }
}

pub fn opaque_name(o: Opaque) -> (r: &'static str)
    ensures
        r == opaque_name_spec(o),
{
    match o {
        Opaque::Nowiki => "nowiki",
        Opaque::Preformatted => "preformatted",
        Opaque::Pre => "pre",
        Opaque::Comment => "comment",
    }
}


// ---------------------------------------------------------------------------
// What SW009 and SW010 report
// ---------------------------------------------------------------------------

/// `b[s..e]` is a Markdown link `[label](url)` whose label ends at `rb`: no
/// `]` in the label, a non-empty label, `(` right after the `]`, a non-empty
/// url without `)` or spaces, closed by `)`.
pub open spec fn link_shape(b: Seq<u8>, s: int, rb: int, e: int) -> bool {
    &&& 0 <= s
    &&& s + 1 < rb
    &&& rb + 2 < e - 1
    &&& e <= b.len()
    &&& b[s] == LBRACKET
    &&& b[rb] == RBRACKET
    &&& b[rb + 1] == 40
    &&& b[e - 1] == 41
    &&& forall|q: int| s <= q < rb ==> b[q] != RBRACKET
    &&& forall|q: int| rb <= q < e - 1 ==> b[q] != 41
    &&& forall|q: int| rb + 2 <= q < e - 1 ==> b[q] != SPACE
}

/// `b[s..e]` is Markdown bold `**text**`: non-empty text on one line,
/// without `*`.
pub open spec fn bold_shape(b: Seq<u8>, s: int, e: int) -> bool {
    &&& 0 <= s
    &&& s + 2 < e - 2
    &&& e <= b.len()
    &&& matches_at(b, s, lit_stars())
    &&& matches_at(b, e - 2, lit_stars())
    &&& forall|q: int| s + 2 <= q < e - 2 ==> b[q] != NL && b[q] != STAR
}

/// `d` reports Markdown written inside `b[lo..hi]`: a link, rewritten as a
/// wiki link, or bold, rewritten as `'''text'''`, both with a safe fix over
/// exactly the Markdown.
pub open spec fn md_report(b: Seq<u8>, d: DiagnosticView, lo: int, hi: int) -> bool {
    &&& lo <= d.start
    &&& d.end <= hi
    &&& {
        ||| exists|rb: int| #[trigger] link_shape(b, d.start as int, rb, d.end as int) && d == link_report(
            b,
            d.start as int,
            rb,
            d.end - 1,
        )
        ||| bold_shape(b, d.start as int, d.end as int) && d == bold_report(b, d.start as int, d.end - 2)
    }
}

pub open spec fn md_reports(b: Seq<u8>, ds: Seq<DiagnosticView>, lo: int, hi: int) -> bool {
    forall|j: int| 0 <= j < ds.len() ==> md_report(b, #[trigger] ds[j], lo, hi)
}

proof fn lemma_md_reports_concat(b: Seq<u8>, xs: Seq<DiagnosticView>, ys: Seq<DiagnosticView>, lo: int, hi: int)
    requires
        md_reports(b, xs, lo, hi),
        md_reports(b, ys, lo, hi),
    ensures
        md_reports(b, xs + ys, lo, hi),
{
    assert forall|j: int| 0 <= j < (xs + ys).len() implies md_report(b, #[trigger] (xs + ys)[j], lo, hi) by {
        if j < xs.len() {
            assert((xs + ys)[j] == xs[j]);
        } else {
            assert((xs + ys)[j] == ys[j - xs.len()]);
        }
    }
}

proof fn lemma_md_reports_wider(b: Seq<u8>, ds: Seq<DiagnosticView>, lo: int, hi: int, lo2: int)
    requires
        md_reports(b, ds, lo, hi),
        lo2 <= lo,
    ensures
        md_reports(b, ds, lo2, hi),
{
    assert forall|j: int| 0 <= j < ds.len() implies md_report(b, #[trigger] ds[j], lo2, hi) by {
        assert(md_report(b, ds[j], lo, hi));
    }
}

proof fn lemma_md_link_scan(b: Seq<u8>, te: int, k: int)
    requires
        te <= b.len(),
        0 <= k,
        te <= usize::MAX,
    ensures
        md_reports(b, md_link_scan(b, te, k), k, te),
    decreases te - k,
{
    if k >= te {
    } else if b[k] != LBRACKET {
        lemma_md_link_scan(b, te, k + 1);
        lemma_md_reports_wider(b, md_link_scan(b, te, k + 1), k + 1, te, k);
    } else {
        lemma_first_byte(b, RBRACKET, k, te);
        match first_byte(b, RBRACKET, k, te) {
            None => {},
            Some(rb) => if !(rb + 1 < te && b[rb + 1] == 40) {
                lemma_md_link_scan(b, te, k + 1);
                lemma_md_reports_wider(b, md_link_scan(b, te, k + 1), k + 1, te, k);
            } else {
                lemma_first_byte(b, 41, rb, te);
                match first_byte(b, 41, rb, te) {
                    None => {},
                    Some(rp) => {
                        lemma_first_byte(b, SPACE, rb + 2, rp);
                        if rb == k + 1 || rp == rb + 2 || first_byte(b, SPACE, rb + 2, rp) is Some {
                            if k < rb + 1 <= te {
                                lemma_md_link_scan(b, te, rb + 1);
                                lemma_md_reports_wider(b, md_link_scan(b, te, rb + 1), rb + 1, te, k);
                            }
                        } else {
                            let d = link_report(b, k, rb, rp);
                            assert(b[rb] == RBRACKET);
                            assert(rb != rp);
                            assert(link_shape(b, k, rb, rp + 1));
                            assert(d.start == k && d.end == rp + 1);
                            assert(md_report(b, d, k, te));
                            let one = seq![d];
                            assert(md_reports(b, one, k, te));
                            if k < rp + 1 <= te {
                                lemma_md_link_scan(b, te, rp + 1);
                                lemma_md_reports_wider(b, md_link_scan(b, te, rp + 1), rp + 1, te, k);
                                lemma_md_reports_concat(b, one, md_link_scan(b, te, rp + 1), k, te);
                            }
                        }
                    },
                }
            },
        }
    }
}

proof fn lemma_md_bold_scan(b: Seq<u8>, te: int, k: int)
    requires
        te <= b.len(),
        0 <= k,
        te <= usize::MAX,
    ensures
        md_reports(b, md_bold_scan(b, te, k), k, te),
    decreases te + 1 - k,
{
    lemma_first_match_in(b, lit_stars(), k, te);
    match first_match_in(b, lit_stars(), k, te) {
        None => {},
        Some(p) => {
            lemma_first_match_in(b, lit_stars(), p + 2, te);
            match first_match_in(b, lit_stars(), p + 2, te) {
                None => {},
                Some(q) => {
                    lemma_first_byte(b, NL, p + 2, q);
                    lemma_first_byte(b, STAR, p + 2, q);
                    if q == p + 2 || first_byte(b, NL, p + 2, q) is Some || first_byte(b, STAR, p + 2, q) is Some {
                        if k < p + 2 <= te + 1 {
                            lemma_md_bold_scan(b, te, p + 2);
                            lemma_md_reports_wider(b, md_bold_scan(b, te, p + 2), p + 2, te, k);
                        }
                    } else {
                        let d = bold_report(b, p, q);
                        assert(bold_shape(b, p, q + 2));
                        assert(md_report(b, d, k, te));
                        let one = seq![d];
                        assert(md_reports(b, one, k, te));
                        if k < q + 2 <= te + 1 {
                            lemma_md_bold_scan(b, te, q + 2);
                            lemma_md_reports_wider(b, md_bold_scan(b, te, q + 2), q + 2, te, k);
                            lemma_md_reports_concat(b, one, md_bold_scan(b, te, q + 2), k, te);
                        }
                    }
                },
            }
        },
    }
}

/// SW009 and SW010, stated directly: every report lies inside one text
/// token and is a Markdown link `[label](url)` (non-empty label, non-empty
/// url without spaces) or Markdown bold `**text**` (non-empty, one line, no
/// `*`), with a safe fix that rewrites exactly that span in wiki syntax.
pub proof fn lemma_md_scan_reports(b: Seq<u8>, ts: Seq<Token>, k: int)
    requires
        lexed(b, ts),
        0 <= k,
    ensures
        forall|j: int| 0 <= j < md_scan(b, ts, k).len() ==> exists|m: int|
            #![trigger ts[m]]
            k <= m < ts.len() && ts[m].kind is Text && md_report(
                b,
                #[trigger] md_scan(b, ts, k)[j],
                ts[m].span.start as int,
                ts[m].span.end as int,
            ),
    decreases ts.len() - k,
{
    if k < ts.len() {
        lemma_md_scan_reports(b, ts, k + 1);
        let rest = md_scan(b, ts, k + 1);
        let t = ts[k];
        if t.kind is Text {
            lemma_tiles_index(ts, 0, b.len() as int);
            lemma_tiles_end(ts, 0, b.len() as int, k);
            let a = t.span.start as int;
            let e = t.span.end as int;
            lemma_md_link_scan(b, e, a);
            lemma_md_bold_scan(b, e, a);
            let mine = md_link_scan(b, e, a) + md_bold_scan(b, e, a);
            lemma_md_reports_concat(b, md_link_scan(b, e, a), md_bold_scan(b, e, a), a, e);
            let all = mine + rest;
            assert(md_scan(b, ts, k) == all);
            assert forall|j: int| 0 <= j < all.len() implies exists|m: int|
                #![trigger ts[m]]
                k <= m < ts.len() && ts[m].kind is Text && md_report(
                    b,
                    #[trigger] all[j],
                    ts[m].span.start as int,
                    ts[m].span.end as int,
                ) by {
                if j < mine.len() {
                    assert(all[j] == mine[j]);
                    assert(md_report(b, mine[j], a, e));
                    assert(ts[k] == t);
                } else {
                    assert(all[j] == rest[j - mine.len()]);
                }
            }
        }
    }
}


// ---------------------------------------------------------------------------
// What SW004 reports
// ---------------------------------------------------------------------------

/// `x` is the span of a `'''` token of `ts`.
pub open spec fn bold_span(ts: Seq<Token>, x: (usize, usize)) -> bool {
    exists|m: int|
        #![trigger ts[m]]
        0 <= m < ts.len() && ts[m].kind is Bold && ts[m].span.start == x.0 && ts[m].span.end == x.1
}

/// `d` is an SW004 report on a `'''` token of `ts`, with no fix.
pub open spec fn on_bold_marker(ts: Seq<Token>, d: DiagnosticView) -> bool {
    &&& d.code == code_str(4)
    &&& d.fix is None
    &&& bold_span(ts, (d.start, d.end))
}

/// A paragraph is reported only when it holds an odd number of `'''`
/// markers, and the report sits on the last of them.
proof fn lemma_para_report(ts: Seq<Token>, bolds: Seq<(usize, usize)>)
    requires
        forall|q: int| 0 <= q < bolds.len() ==> bold_span(ts, #[trigger] bolds[q]),
    ensures
        para_report(bolds).len() > 0 <==> bolds.len() % 2 == 1,
        forall|j: int| 0 <= j < para_report(bolds).len() ==> on_bold_marker(ts, #[trigger] para_report(bolds)[j]),
{
    if bolds.len() % 2 == 1 {
        assert(bold_span(ts, bolds[bolds.len() - 1]));
        let d = para_report(bolds)[0];
        assert((d.start, d.end) == bolds.last());
    }
}

/// SW004, stated directly: every report sits on a `'''` token, with no fix.
pub proof fn lemma_bold_scan_reports(
    b: Seq<u8>,
    ts: Seq<Token>,
    k: int,
    bolds: Seq<(usize, usize)>,
    blank_run: int,
)
    requires
        0 <= k,
        forall|q: int| 0 <= q < bolds.len() ==> bold_span(ts, #[trigger] bolds[q]),
    ensures
        forall|j: int|
            0 <= j < bold_scan(b, ts, k, bolds, blank_run).len() ==> on_bold_marker(
                ts,
                #[trigger] bold_scan(b, ts, k, bolds, blank_run)[j],
            ),
    decreases ts.len() - k,
{
    if k >= ts.len() {
        lemma_para_report(ts, bolds);
    } else {
        let t = ts[k];
        if t.kind is Newline {
            if blank_run + 1 >= 2 {
                lemma_para_report(ts, bolds);
                lemma_bold_scan_reports(b, ts, k + 1, Seq::empty(), blank_run + 1);
                let x = para_report(bolds);
                let y = bold_scan(b, ts, k + 1, Seq::empty(), blank_run + 1);
                assert(bold_scan(b, ts, k, bolds, blank_run) == x + y);
                assert forall|j: int| 0 <= j < (x + y).len() implies on_bold_marker(ts, #[trigger] (x + y)[j]) by {
                    if j < x.len() {
                        assert((x + y)[j] == x[j]);
                    } else {
                        assert((x + y)[j] == y[j - x.len()]);
                    }
                }
            } else {
                lemma_bold_scan_reports(b, ts, k + 1, bolds, blank_run + 1);
                assert(bold_scan(b, ts, k, bolds, blank_run) == bold_scan(b, ts, k + 1, bolds, blank_run + 1));
            }
        } else {
            let blank2 = if is_blank(b, t.span.start as int, t.span.end as int) {
                blank_run
            } else {
                0
            };
            let bolds2 = if !is_opaque_kind(t.kind) && t.kind is Bold {
                bolds.push((t.span.start, t.span.end))
            } else {
                bolds
            };
            assert forall|q: int| 0 <= q < bolds2.len() implies bold_span(ts, #[trigger] bolds2[q]) by {
                if q < bolds.len() {
                    assert(bolds2[q] == bolds[q]);
                } else {
                    assert(ts[k] == t);
                }
            }
            lemma_bold_scan_reports(b, ts, k + 1, bolds2, blank2);
            assert(bold_scan(b, ts, k, bolds, blank_run) == bold_scan(b, ts, k + 1, bolds2, blank2));
        }
    }
}


// ---------------------------------------------------------------------------
// What SW006 reports
// ---------------------------------------------------------------------------

/// `d` reports, within `b[lo..hi]`, a parameter name that is none of the
/// nine Kitsune accepts: an error over the trimmed name, with no fix.
pub open spec fn unknown_param_report(b: Seq<u8>, d: DiagnosticView, lo: int, hi: int) -> bool {
    &&& d.code == code_str(6)
    &&& d.fix is None
    &&& lo <= d.start < d.end <= hi
    &&& !is_image_param(b, d.start as int, d.end as int)
}

pub open spec fn unknown_param_reports(b: Seq<u8>, ds: Seq<DiagnosticView>, lo: int, hi: int) -> bool {
    forall|j: int| 0 <= j < ds.len() ==> unknown_param_report(b, #[trigger] ds[j], lo, hi)
}

proof fn lemma_param_reports_concat(b: Seq<u8>, xs: Seq<DiagnosticView>, ys: Seq<DiagnosticView>, lo: int, hi: int)
    requires
        unknown_param_reports(b, xs, lo, hi),
        unknown_param_reports(b, ys, lo, hi),
    ensures
        unknown_param_reports(b, xs + ys, lo, hi),
{
    assert forall|j: int| 0 <= j < (xs + ys).len() implies unknown_param_report(b, #[trigger] (xs + ys)[j], lo, hi) by {
        if j < xs.len() {
            assert((xs + ys)[j] == xs[j]);
        } else {
            assert((xs + ys)[j] == ys[j - xs.len()]);
        }
    }
}

proof fn lemma_parts_scan(b: Seq<u8>, p: int, e: int, n: int)
    requires
        0 <= p,
        e <= b.len(),
        b.len() <= usize::MAX,
    ensures
        unknown_param_reports(b, parts_scan(b, p, e, n), p, e),
    decreases e + 1 - p,
{
    lemma_first_byte(b, PIPE, p, e);
    let q = match first_byte(b, PIPE, p, e) {
        Some(x) => x,
        None => e,
    };
    let here = if n > 0 {
        param_report(b, p, q)
    } else {
        Seq::empty()
    };
    if n > 0 {
        if p <= q {
            lemma_first_byte(b, EQ, p, q);
            let kr = match first_byte(b, EQ, p, q) {
                Some(x) => x,
                None => q,
            };
            lemma_skip_ws(b, p, kr);
            let ks = trimmed(b, p, kr).0;
            lemma_skip_ws_back(b, ks, kr);
            let ke = trimmed(b, p, kr).1;
            assert(p <= ks <= ke <= kr <= q <= e);
            if !(ks >= ke || is_image_param(b, ks, ke)) {
                let d = here[0];
                assert(d.start == ks && d.end == ke);
                assert(unknown_param_report(b, d, p, e));
            }
        } else {
            assert(first_byte(b, EQ, p, q) is None);
            assert(skip_ws(b, p, q) == p);
            assert(skip_ws_back(b, p, q) == q);
            assert(here.len() == 0);
        }
    }
    assert(unknown_param_reports(b, here, p, e));
    if p <= q < e {
        lemma_parts_scan(b, q + 1, e, n + 1);
        let rest = parts_scan(b, q + 1, e, n + 1);
        assert(unknown_param_reports(b, rest, p, e)) by {
            assert forall|j: int| 0 <= j < rest.len() implies unknown_param_report(b, #[trigger] rest[j], p, e) by {
                assert(unknown_param_report(b, rest[j], q + 1, e));
            }
        }
        lemma_param_reports_concat(b, here, rest, p, e);
    }
}

/// `d` is an SW006 report inside an `[[Image:...]]` link token of `ts`
/// from index `k` on.
pub open spec fn in_image_link(b: Seq<u8>, ts: Seq<Token>, k: int, d: DiagnosticView) -> bool {
    exists|m: int|
        #![trigger ts[m]]
        k <= m < ts.len() && ts[m].kind == (TokenKind::Link { kind: LinkKind::Image })
            && unknown_param_report(b, d, ts[m].span.start as int, ts[m].span.end as int)
}

/// SW006, stated directly: every report lies inside an `[[Image:...]]` link
/// token and names a parameter (the trimmed text before `=` in a `|` part
/// after the image name) that is none of the nine Kitsune accepts, with no
/// fix.
pub proof fn lemma_image_scan_reports(b: Seq<u8>, ts: Seq<Token>, k: int)
    requires
        lexed(b, ts),
        0 <= k,
    ensures
        forall|j: int|
            0 <= j < image_scan(b, ts, k).len() ==> in_image_link(b, ts, k, #[trigger] image_scan(b, ts, k)[j]),
    decreases ts.len() - k,
{
    if k < ts.len() {
        lemma_image_scan_reports(b, ts, k + 1);
        let rest = image_scan(b, ts, k + 1);
        let t = ts[k];
        if t.kind == (TokenKind::Link { kind: LinkKind::Image }) {
            lemma_tiles_index(ts, 0, b.len() as int);
            lemma_tiles_end(ts, 0, b.len() as int, k);
            let s = t.span.start as int;
            let e = t.span.end as int;
            lemma_run_len(b, LBRACKET, s, e);
            let lead = run_len(b, LBRACKET, s, e);
            if s + lead > e {
                assert(s == e);
            }
            lemma_run_len_back(b, RBRACKET, s + lead, e);
            let trail = run_len_back(b, RBRACKET, s + lead, e);
            lemma_parts_scan(b, s + lead, e - trail, 0);
            let mine = parts_scan(b, s + lead, e - trail, 0);
            let all = mine + rest;
            assert(image_scan(b, ts, k) == all);
            assert forall|j: int| 0 <= j < all.len() implies in_image_link(b, ts, k, #[trigger] all[j]) by {
                if j < mine.len() {
                    assert(all[j] == mine[j]);
                    assert(unknown_param_report(b, mine[j], s + lead, e - trail));
                    assert(ts[k] == t);
                } else {
                    assert(all[j] == rest[j - mine.len()]);
                    assert(in_image_link(b, ts, k + 1, rest[j - mine.len()]));
                    let m = choose|m: int|
                        #![trigger ts[m]]
                        k + 1 <= m < ts.len() && ts[m].kind == (TokenKind::Link { kind: LinkKind::Image })
                            && unknown_param_report(b, rest[j - mine.len()], ts[m].span.start as int, ts[m].span.end as int);
                    assert(ts[m] == ts[m]);
                }
            }
        } else {
            assert(image_scan(b, ts, k) == rest);
            assert forall|j: int| 0 <= j < rest.len() implies in_image_link(b, ts, k, #[trigger] rest[j]) by {
                assert(in_image_link(b, ts, k + 1, rest[j]));
                let m = choose|m: int|
                    #![trigger ts[m]]
                    k + 1 <= m < ts.len() && ts[m].kind == (TokenKind::Link { kind: LinkKind::Image })
                        && unknown_param_report(b, rest[j], ts[m].span.start as int, ts[m].span.end as int);
                assert(ts[m] == ts[m]);
            }
        }
    }
}


// ---------------------------------------------------------------------------
// A stray block closer is always reported
// ---------------------------------------------------------------------------

/// The closer of block family `f`: `{/for}`, `{/note}`, `{/warning}`.
pub open spec fn family_closer(f: int) -> TokenKind {
    if f == 0 {
        TokenKind::ForClose
    } else if f == 1 {
        TokenKind::BlockClose { warning: false }
    } else {
        TokenKind::BlockClose { warning: true }
    }
}

/// The opener of block family `f`: `{for ...}`, `{note}`, `{warning}`.
pub open spec fn family_opener(f: int) -> TokenKind {
    if f == 0 {
        TokenKind::ForOpen
    } else if f == 1 {
        TokenKind::BlockOpen { warning: false }
    } else {
        TokenKind::BlockOpen { warning: true }
    }
}

/// `ds` holds a report with code `code` over `start..end`.
pub open spec fn reports_at(ds: Seq<DiagnosticView>, code: &'static str, start: usize, end: usize) -> bool {
    exists|j: int| 0 <= j < ds.len() && (#[trigger] ds[j]).code == code && ds[j].start == start && ds[j].end == end
}

proof fn lemma_blocks_stray(
    b: Seq<u8>,
    ts: Seq<Token>,
    k: int,
    stacks: Seq<Seq<(usize, usize)>>,
    m: int,
    f: int,
)
    requires
        0 <= f < 3,
        0 <= k <= m < ts.len(),
        stacks.len() == 3,
        stacks[f].len() == 0,
        ts[m].kind == family_closer(f),
        forall|q: int| k <= q < m ==> (#[trigger] ts[q]).kind != family_opener(f),
    ensures
        reports_at(blocks_scan(b, ts, k, stacks), code_str(f + 1), ts[m].span.start, ts[m].span.end),
    decreases m - k,
{
    let t = ts[k];
    let r = blocks_scan(b, ts, k, stacks);
    if k == m {
        assert(closes(t.kind) == Some(f));
        assert(opens(t.kind) is None);
        assert(r[0].code == code_str(f + 1));
    } else {
        assert(t.kind != family_opener(f));
        match opens(t.kind) {
            Some(g) => {
                assert(g != f);
                let s2 = upd(stacks, g, stacks[g].push((t.span.start, t.span.end)));
                assert(s2[f] == stacks[f]);
                lemma_blocks_stray(b, ts, k + 1, s2, m, f);
            },
            None => match closes(t.kind) {
                Some(g) => if stacks[g].len() == 0 {
                    lemma_blocks_stray(b, ts, k + 1, stacks, m, f);
                    let rest = blocks_scan(b, ts, k + 1, stacks);
                    let j = choose|j: int| 0 <= j < rest.len() && (#[trigger] rest[j]).code == code_str(f + 1) && rest[j].start == ts[m].span.start && rest[j].end == ts[m].span.end;
                    assert(r[j + 1] == rest[j]);
                } else {
                    assert(g != f);
                    let s2 = upd(stacks, g, stacks[g].drop_last());
                    assert(s2[f] == stacks[f]);
                    lemma_blocks_stray(b, ts, k + 1, s2, m, f);
                },
                None => {
                    lemma_blocks_stray(b, ts, k + 1, stacks, m, f);
                },
            },
        }
    }
}

/// SW001 / SW002 / SW003: a `{/for}`, `{/note}` or `{/warning}` with no
/// opener of its own family anywhere before it is reported, with its
/// family's code, over exactly the closer.
pub proof fn lemma_stray_closer_reported(b: Seq<u8>, ts: Seq<Token>, m: int, f: int)
    requires
        0 <= f < 3,
        0 <= m < ts.len(),
        ts[m].kind == family_closer(f),
        forall|q: int| 0 <= q < m ==> (#[trigger] ts[q]).kind != family_opener(f),
    ensures
        reports_at(check_spec(b, ts), code_str(f + 1), ts[m].span.start, ts[m].span.end),
{
    let st: Seq<Seq<(usize, usize)>> = seq![Seq::empty(), Seq::empty(), Seq::empty()];
    lemma_blocks_stray(b, ts, 0, st, m, f);
    let bs = blocks_spec(b, ts);
    let all = all_rules(b, ts);
    let j = choose|j: int| 0 <= j < bs.len() && (#[trigger] bs[j]).code == code_str(f + 1) && bs[j].start == ts[m].span.start && bs[j].end == ts[m].span.end;
    let d = bs[j];
    assert(all[j] == d);
    assert(all.contains(d));
    lemma_sort_diags(all);
    vstd::seq_lib::to_multiset_contains(all, d);
    vstd::seq_lib::to_multiset_contains(check_spec(b, ts), d);
    assert(check_spec(b, ts).contains(d));
    let i = choose|i: int| 0 <= i < check_spec(b, ts).len() && check_spec(b, ts)[i] == d;
    assert(check_spec(b, ts)[i] == d);
}


// ---------------------------------------------------------------------------
// An empty list item is always reported
// ---------------------------------------------------------------------------

proof fn lemma_list_item_end(b: Seq<u8>, ts: Seq<Token>, j: int, n: int, end: int)
    requires
        0 <= j <= n <= ts.len(),
        n == ts.len() || ts[n].kind is Newline,
        forall|q: int|
            j <= q < n ==> !((#[trigger] ts[q]).kind is Newline) && skip_ws(b, ts[q].span.start as int, ts[q].span.end as int)
                >= ts[q].span.end,
    ensures
        list_item_end(b, ts, j, end) == Some(
            if n > j {
                ts[n - 1].span.end as int
            } else {
                end
            },
        ),
    decreases n - j,
{
    if j < n {
        assert(!(ts[j].kind is Newline));
        lemma_list_item_end(b, ts, j + 1, n, ts[j].span.end as int);
    }
}

/// `ds` holds the SW008 report of an empty list item over `start..end`,
/// with a safe fix that deletes exactly that span.
pub open spec fn reports_empty_item(ds: Seq<DiagnosticView>, start: int, end: int) -> bool {
    exists|j: int|
        0 <= j < ds.len() && (#[trigger] ds[j]).code == code_str(8) && ds[j].start == start && ds[j].end
            == end && ds[j].fix is Some && ds[j].fix->0.start == start && ds[j].fix->0.end == end
            && ds[j].fix->0.replacement == Seq::<u8>::empty() && ds[j].fix->0.applicability
            == Applicability::Safe
}

proof fn lemma_list_scan_has(b: Seq<u8>, ts: Seq<Token>, k: int, m: int, e: int)
    requires
        0 <= k <= m < ts.len(),
        ts[m].kind is ListMarker,
        list_item_end(b, ts, m + 1, ts[m].span.end as int) == Some(e),
        0 <= e <= usize::MAX,
    ensures
        reports_empty_item(list_scan(b, ts, k), ts[m].span.start as int, e),
    decreases m - k,
{
    let r = list_scan(b, ts, k);
    if k == m {
        assert(r[0].code == code_str(8));
        assert(r[0].start == ts[m].span.start as int);
        assert(r[0].end == e);
        assert(r[0].fix->0.start == ts[m].span.start as int);
        assert(r[0].fix->0.end == e);
    } else {
        lemma_list_scan_has(b, ts, k + 1, m, e);
        let rest = list_scan(b, ts, k + 1);
        let j = choose|j: int|
            0 <= j < rest.len() && (#[trigger] rest[j]).code == code_str(8) && rest[j].start == ts[m].span.start as int
                && rest[j].end == e && rest[j].fix is Some && rest[j].fix->0.start == ts[m].span.start as int
                && rest[j].fix->0.end == e && rest[j].fix->0.replacement == Seq::<u8>::empty()
                && rest[j].fix->0.applicability == Applicability::Safe;
        let t = ts[k];
        if t.kind is ListMarker && list_item_end(b, ts, k + 1, t.span.end as int) is Some {
            assert(r[j + 1] == rest[j]);
        } else {
            assert(r[j] == rest[j]);
        }
    }
}

/// SW008: a list marker followed on its line only by tokens whose text is
/// white space, or by nothing, is reported as an empty item from the marker
/// through the last of those tokens, with a safe fix deleting exactly that.
pub proof fn lemma_empty_list_item_reported(b: Seq<u8>, ts: Seq<Token>, m: int, n: int)
    requires
        lexed(b, ts),
        0 <= m < n <= ts.len(),
        ts[m].kind is ListMarker,
        n == ts.len() || ts[n].kind is Newline,
        forall|q: int|
            m < q < n ==> !((#[trigger] ts[q]).kind is Newline) && skip_ws(b, ts[q].span.start as int, ts[q].span.end as int)
                >= ts[q].span.end,
    ensures
        reports_empty_item(
            check_spec(b, ts),
            ts[m].span.start as int,
            if n > m + 1 {
                ts[n - 1].span.end as int
            } else {
                ts[m].span.end as int
            },
        ),
{
    let e = if n > m + 1 {
        ts[n - 1].span.end as int
    } else {
        ts[m].span.end as int
    };
    lemma_list_item_end(b, ts, m + 1, n, ts[m].span.end as int);
    lemma_list_scan_has(b, ts, 0, m, e);
    let ls = list_scan(b, ts, 0);
    let j = choose|j: int|
        0 <= j < ls.len() && (#[trigger] ls[j]).code == code_str(8) && ls[j].start == ts[m].span.start as int
            && ls[j].end == e && ls[j].fix is Some && ls[j].fix->0.start == ts[m].span.start as int
            && ls[j].fix->0.end == e && ls[j].fix->0.replacement == Seq::<u8>::empty()
            && ls[j].fix->0.applicability == Applicability::Safe;
    let d = ls[j];
    let pre = blocks_spec(b, ts) + bold_scan(b, ts, 0, Seq::empty(), 0) + heading_scan(b, ts, 0)
        + image_scan(b, ts, 0) + brackets_scan(ts, 0);
    let all = all_rules(b, ts);
    assert(all == pre + ls + md_scan(b, ts, 0) + macros_scan(b, ts, 0));
    assert((pre + ls)[pre.len() + j] == d);
    assert((pre + ls + md_scan(b, ts, 0))[pre.len() + j] == d);
    assert(all[pre.len() + j] == d);
    assert(all.contains(d));
    lemma_sort_diags(all);
    vstd::seq_lib::to_multiset_contains(all, d);
    vstd::seq_lib::to_multiset_contains(check_spec(b, ts), d);
    let i = choose|i: int| 0 <= i < check_spec(b, ts).len() && check_spec(b, ts)[i] == d;
    assert(check_spec(b, ts)[i] == d);
}


// ---------------------------------------------------------------------------
// Paragraphs of bold markers
// ---------------------------------------------------------------------------

/// Token `q` holds only white space (or nothing).
pub open spec fn blank_token(b: Seq<u8>, ts: Seq<Token>, q: int) -> bool {
    skip_ws(b, ts[q].span.start as int, ts[q].span.end as int) >= ts[q].span.end
}

/// Before token `k` there is a newline followed only by newlines and
/// white-space tokens.
pub open spec fn after_line_break(b: Seq<u8>, ts: Seq<Token>, k: int) -> bool {
    exists|k0: int|
        #![trigger ts[k0]]
        0 <= k0 < k && ts[k0].kind is Newline && forall|q: int|
            k0 < q < k ==> (#[trigger] ts[q]).kind is Newline || blank_token(b, ts, q)
}

/// Token `k` ends a paragraph: a newline after a line of only white space
/// (two newlines with only white space between them).
pub open spec fn paragraph_break(b: Seq<u8>, ts: Seq<Token>, k: int) -> bool {
    0 <= k < ts.len() && ts[k].kind is Newline && after_line_break(b, ts, k)
}

proof fn lemma_break_step(b: Seq<u8>, ts: Seq<Token>, k: int)
    requires
        0 <= k < ts.len(),
    ensures
        ts[k].kind is Newline ==> after_line_break(b, ts, k + 1),
        !(ts[k].kind is Newline) && blank_token(b, ts, k) ==> (after_line_break(b, ts, k + 1)
            <==> after_line_break(b, ts, k)),
        !(ts[k].kind is Newline) && !blank_token(b, ts, k) ==> !after_line_break(b, ts, k + 1),
{
    if ts[k].kind is Newline {
        assert(ts[k].kind is Newline);
    } else if blank_token(b, ts, k) {
        if after_line_break(b, ts, k + 1) {
            let k0 = choose|k0: int|
                #![trigger ts[k0]]
                0 <= k0 < k + 1 && ts[k0].kind is Newline && forall|q: int|
                    k0 < q < k + 1 ==> (#[trigger] ts[q]).kind is Newline || blank_token(b, ts, q);
            assert(k0 < k);
            assert(ts[k0].kind is Newline);
        }
        if after_line_break(b, ts, k) {
            let k0 = choose|k0: int|
                #![trigger ts[k0]]
                0 <= k0 < k && ts[k0].kind is Newline && forall|q: int|
                    k0 < q < k ==> (#[trigger] ts[q]).kind is Newline || blank_token(b, ts, q);
            assert(ts[k0].kind is Newline);
            assert forall|q: int| k0 < q < k + 1 implies (#[trigger] ts[q]).kind is Newline || blank_token(b, ts, q) by {
                if q < k {
                    assert(ts[q].kind is Newline || blank_token(b, ts, q));
                }
            }
        }
    } else {
        if after_line_break(b, ts, k + 1) {
            let k0 = choose|k0: int|
                #![trigger ts[k0]]
                0 <= k0 < k + 1 && ts[k0].kind is Newline && forall|q: int|
                    k0 < q < k + 1 ==> (#[trigger] ts[q]).kind is Newline || blank_token(b, ts, q);
            assert(ts[k0].kind is Newline);
            assert(ts[k].kind is Newline || blank_token(b, ts, k));
        }
    }
}

/// The scan from `k` reports the bold marker `m`, when no other marker
/// shares its paragraph.
proof fn lemma_bold_scan_lonely(
    b: Seq<u8>,
    ts: Seq<Token>,
    k: int,
    bolds: Seq<(usize, usize)>,
    run: int,
    m: int,
)
    requires
        0 <= k,
        0 <= m < ts.len(),
        ts[m].kind is Bold,
        run >= 0,
        (run >= 1) == after_line_break(b, ts, k),
        forall|m2: int|
            0 <= m2 < ts.len() && m2 != m && (#[trigger] ts[m2]).kind is Bold ==> exists|kb: int|
                #![trigger paragraph_break(b, ts, kb)]
                (if m2 < m {
                    m2 < kb < m
                } else {
                    m < kb < m2
                }) && paragraph_break(b, ts, kb),
        k <= m ==> (bolds.len() > 0 ==> exists|q: int|
            #![trigger ts[q]]
            0 <= q < k && ts[q].kind is Bold && forall|kb: int|
                q < kb < k ==> !paragraph_break(b, ts, kb)),
        k > m ==> bolds == seq![(ts[m].span.start, ts[m].span.end)] && forall|kb: int|
            m < kb < k ==> !paragraph_break(b, ts, kb),
    ensures
        exists|j: int|
            0 <= j < bold_scan(b, ts, k, bolds, run).len() && (#[trigger] bold_scan(b, ts, k, bolds, run)[j]).code
                == code_str(4) && bold_scan(b, ts, k, bolds, run)[j].start == ts[m].span.start
                && bold_scan(b, ts, k, bolds, run)[j].end == ts[m].span.end,
    decreases ts.len() - k,
{
    let res = bold_scan(b, ts, k, bolds, run);
    if k >= ts.len() {
        assert(res == para_report(bolds));
        assert(res[0].code == code_str(4));
    } else {
        lemma_break_step(b, ts, k);
        let t = ts[k];
        if k == m && bolds.len() > 0 {
            let q = choose|q: int|
                #![trigger ts[q]]
                0 <= q < k && ts[q].kind is Bold && forall|kb: int| q < kb < k ==> !paragraph_break(b, ts, kb);
            assert(ts[q].kind is Bold);
            let kb = choose|kb: int|
                #![trigger paragraph_break(b, ts, kb)]
                (if q < m {
                    q < kb < m
                } else {
                    m < kb < q
                }) && paragraph_break(b, ts, kb);
            assert(false);
        }
        if k > m && t.kind is Bold {
            assert(ts[k].kind is Bold);
            let kb = choose|kb: int|
                #![trigger paragraph_break(b, ts, kb)]
                (if k < m {
                    k < kb < m
                } else {
                    m < kb < k
                }) && paragraph_break(b, ts, kb);
            assert(false);
        }
        if t.kind is Newline {
            if run + 1 >= 2 {
                assert(paragraph_break(b, ts, k));
                if k > m {
                    assert(res == para_report(bolds) + bold_scan(b, ts, k + 1, Seq::empty(), run + 1));
                    assert(res[0] == para_report(bolds)[0]);
                } else {
                    lemma_bold_scan_lonely(b, ts, k + 1, Seq::empty(), run + 1, m);
                    let x = para_report(bolds);
                    let y = bold_scan(b, ts, k + 1, Seq::empty(), run + 1);
                    assert(res == x + y);
                    let j = choose|j: int|
                        0 <= j < y.len() && (#[trigger] y[j]).code == code_str(4) && y[j].start == ts[m].span.start
                            && y[j].end == ts[m].span.end;
                    assert(res[x.len() + j] == y[j]);
                }
            } else {
                assert(!paragraph_break(b, ts, k));
                if k <= m && k + 1 <= m && bolds.len() > 0 {
                    let q = choose|q: int|
                        #![trigger ts[q]]
                        0 <= q < k && ts[q].kind is Bold && forall|kb: int| q < kb < k ==> !paragraph_break(b, ts, kb);
                    assert(ts[q].kind is Bold);
                    assert forall|kb: int| q < kb < k + 1 implies !paragraph_break(b, ts, kb) by {}
                }
                lemma_bold_scan_lonely(b, ts, k + 1, bolds, run + 1, m);
                assert(res == bold_scan(b, ts, k + 1, bolds, run + 1));
            }
        } else {
            let blank2 = if is_blank(b, t.span.start as int, t.span.end as int) {
                run
            } else {
                0
            };
            let bolds2 = if !is_opaque_kind(t.kind) && t.kind is Bold {
                bolds.push((t.span.start, t.span.end))
            } else {
                bolds
            };
            assert(!paragraph_break(b, ts, k));
            if k == m {
                assert(bolds2 =~= seq![(ts[m].span.start, ts[m].span.end)]);
            } else if k < m && bolds2.len() > 0 {
                if t.kind is Bold {
                    assert(ts[k].kind is Bold);
                    assert forall|kb: int| k < kb < k + 1 implies !paragraph_break(b, ts, kb) by {}
                } else {
                    let q = choose|q: int|
                        #![trigger ts[q]]
                        0 <= q < k && ts[q].kind is Bold && forall|kb: int| q < kb < k ==> !paragraph_break(b, ts, kb);
                    assert(ts[q].kind is Bold);
                    assert forall|kb: int| q < kb < k + 1 implies !paragraph_break(b, ts, kb) by {}
                }
            }
            lemma_bold_scan_lonely(b, ts, k + 1, bolds2, blank2, m);
            assert(res == bold_scan(b, ts, k + 1, bolds2, blank2));
        }
    }
}

/// SW004 counts `'''` per paragraph, paragraphs ending at a newline after a
/// line of only white space: a bold marker that no other marker shares its
/// paragraph with is unpaired, and is reported, over exactly that marker.
pub proof fn lemma_lonely_bold_reported(b: Seq<u8>, ts: Seq<Token>, m: int)
    requires
        0 <= m < ts.len(),
        ts[m].kind is Bold,
        forall|m2: int|
            0 <= m2 < ts.len() && m2 != m && (#[trigger] ts[m2]).kind is Bold ==> exists|kb: int|
                #![trigger paragraph_break(b, ts, kb)]
                (if m2 < m {
                    m2 < kb < m
                } else {
                    m < kb < m2
                }) && paragraph_break(b, ts, kb),
    ensures
        reports_at(check_spec(b, ts), code_str(4), ts[m].span.start, ts[m].span.end),
{
    lemma_bold_scan_lonely(b, ts, 0, Seq::empty(), 0, m);
    let bs = bold_scan(b, ts, 0, Seq::empty(), 0);
    let j = choose|j: int|
        0 <= j < bs.len() && (#[trigger] bs[j]).code == code_str(4) && bs[j].start == ts[m].span.start && bs[j].end
            == ts[m].span.end;
    let d = bs[j];
    let bl = blocks_spec(b, ts);
    let all = all_rules(b, ts);
    assert((bl + bs)[bl.len() + j] == d);
    assert(all[bl.len() + j] == d);
    assert(all.contains(d));
    lemma_sort_diags(all);
    vstd::seq_lib::to_multiset_contains(all, d);
    vstd::seq_lib::to_multiset_contains(check_spec(b, ts), d);
    let i = choose|i: int| 0 <= i < check_spec(b, ts).len() && check_spec(b, ts)[i] == d;
    assert(check_spec(b, ts)[i] == d);
}

} // verus!
