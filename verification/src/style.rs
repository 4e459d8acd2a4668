//! Opinionated formatting.
//!
//! The guiding constraint is **churn avoidance**. Every source change, however
//! cosmetic, is surfaced to volunteer localizers who then have to look at it. A
//! formatter that rewrites hundreds of headings for no rendered difference
//! spends other people's time, so the default policy is the one that changes as
//! little as possible while still removing genuine inconsistency.
//!
//! Hence [`HeadingSpacing::PreserveDominant`] as the default: each article is
//! normalised to **its own** majority style. An article that already picks a
//! lane is left completely untouched (see [`lemma_format_keeps_a_lane`]).
//!
//! When the community settles the `= H =` versus `=H=` question, set
//! [`Style::heading_spacing`] to [`HeadingSpacing::Spaced`] or
//! [`HeadingSpacing::Tight`] and the same code enforces it.
use vstd::prelude::*;
use vstd::utf8::*;
use vstd::string::*;
use crate::diagnostic::{
    count_byte, lemma_count_concat, lemma_count_shift, lemma_count_split, lemma_count_zero, Applicability,
    DiagnosticView, Severity,
};
use crate::lexer::{
    in_heading_tail, last_byte, lex, lemma_lex_boundaries, lemma_lex_markers, lemma_lex_nl,
    lemma_lex_placed, lemma_lex_tiles,
    lemma_line_end, lemma_tiles_end, lemma_tiles_index, lemma_tiles_order, lex_spec, line_end,
    marker_bytes, markers_ok, markers_placed, nl_ok, nls_ok, no_nl, opens_line, line_opens_before,
    tiles_from, Opaque, Token, TokenKind, NL,
};
use crate::rules::{
    asym_report, code_str, dv, heading_scan, lit, eq_run, lemma_last_marker, lemma_next_newline, last_marker, level_of, lexed, next_newline,
    push_eq_run, push_slice,
};
use crate::scan::{
    append, bytes_eq, find_byte, lemma_boundary_after_ascii, lemma_boundary_ascii, lemma_boundary_ends,
    lemma_first_byte, lemma_skip_ws, lemma_skip_ws_back, lemma_skip_ws_back_run, lemma_skip_ws_bytes,
    lemma_trimmed_ok, lemma_ws_run_after_nl, lemma_ws_run_skip, new_string, skip_ws, skip_ws_back,
    slice_ok, trim_range, trimmed, utf8_of, ws_byte, ws_run,
};

verus! {

/// How `= Heading =` should be spaced.
#[derive(Debug, Clone, Copy, PartialEq, Eq, Structural)]
pub enum HeadingSpacing {
    /// Normalise each article to whichever style it already uses most.
    /// Articles that are already consistent are not modified. Ties are left
    /// alone.
    PreserveDominant,
    /// Always `= Heading =`.
    Spaced,
    /// Always `=Heading=`.
    Tight,
}

impl Default for HeadingSpacing {
    fn default() -> (r: Self)
        ensures
            r == HeadingSpacing::PreserveDominant,
    {
        HeadingSpacing::PreserveDominant
    }
}

/// Style options.
///
/// The default is deliberately the least invasive setting available:
/// per-article heading normalisation, and no whitespace changes at all.
#[derive(Debug, Clone, Copy)]
pub struct Style {
    pub heading_spacing: HeadingSpacing,
    /// Strip trailing spaces and tabs from lines. **Off by default**: it is by
    /// far the largest source of churn, for no rendered difference.
    ///
    /// Never applied inside `<pre>`, `<nowiki>` or space-indented
    /// preformatted lines, where trailing whitespace is content rather than
    /// sloppiness.
    pub trailing_whitespace: bool,
}

impl Default for Style {
    fn default() -> (r: Self)
        ensures
            r.heading_spacing == HeadingSpacing::PreserveDominant,
            !r.trailing_whitespace,
    {
        Style { heading_spacing: HeadingSpacing::default(), trailing_whitespace: false }
    }
}

impl Style {
    /// The Thunderbird preset. Currently the defaults; kept as a named entry
    /// point so the community's heading decision lands in exactly one place.
    pub fn thunderbird() -> (r: Self)
        ensures
            r.heading_spacing == HeadingSpacing::PreserveDominant,
            !r.trailing_whitespace,
    {
        Self::default()
    }
}

// ---------------------------------------------------------------------------
// Headings
// ---------------------------------------------------------------------------

/// One heading found in the token stream. Offsets are bytes of the input.
#[derive(Clone, Copy)]
pub struct Heading {
    /// The whole heading, opening marker through closing marker.
    pub start: usize,
    pub end: usize,
    /// Length of the opening `=` run.
    pub level: usize,
    /// Length of the closing `=` run.
    pub close_level: usize,
    /// Between the two markers.
    pub inner_start: usize,
    pub inner_end: usize,
    /// The title: the inner text, trimmed.
    pub title_start: usize,
    pub title_end: usize,
    /// Whether it is written with exactly one space on both sides of the
    /// title.
    pub spaced: bool,
}

/// `b[a..e]` is one space, its own trimmed text, and one space.
pub open spec fn is_spaced(b: Seq<u8>, a: int, e: int) -> bool {
    let tr = trimmed(b, a, e);
    b.subrange(a, e) == seq![32u8] + b.subrange(tr.0, tr.1) + seq![32u8]
}

/// The heading opened by marker token `i` and closed by marker token `c`.
pub open spec fn heading_at(b: Seq<u8>, ts: Seq<Token>, i: int, c: int) -> Heading {
    let a = ts[i].span.end as int;
    let e = ts[c].span.start as int;
    Heading {
        start: ts[i].span.start,
        end: ts[c].span.end,
        level: level_of(ts[i].kind) as usize,
        close_level: level_of(ts[c].kind) as usize,
        inner_start: a as usize,
        inner_end: e as usize,
        title_start: trimmed(b, a, e).0 as usize,
        title_end: trimmed(b, a, e).1 as usize,
        spaced: is_spaced(b, a, e),
    }
}

/// The headings from token `i` on: a marker is closed by the last marker
/// before the next newline, and the scan resumes at that newline.
pub open spec fn heading_list(b: Seq<u8>, ts: Seq<Token>, i: int) -> Seq<Heading>
    decreases ts.len() - i,
{
    if i >= ts.len() || i < 0 {
        Seq::empty()
    } else if ts[i].kind is HeadingMarker {
        let j = next_newline(ts, i + 1);
        let h = match last_marker(ts, i + 1, j) {
            Some(c) => seq![heading_at(b, ts, i, c)],
            None => Seq::empty(),
        };
        if i < j <= ts.len() {
            h + heading_list(b, ts, j)
        } else {
            h
        }
    } else {
        heading_list(b, ts, i + 1)
    }
}

/// A heading's offsets are ordered and lie on character boundaries.
pub open spec fn heading_ok(b: Seq<u8>, h: Heading) -> bool {
    &&& h.start <= h.inner_start <= h.title_start <= h.title_end <= h.inner_end <= h.end
    &&& slice_ok(b, h.start as int, h.end as int)
    &&& slice_ok(b, h.title_start as int, h.title_end as int)
    &&& slice_ok(b, h.inner_start as int, h.inner_end as int)
}

pub open spec fn headings_ok(b: Seq<u8>, hs: Seq<Heading>) -> bool {
    forall|k: int| 0 <= k < hs.len() ==> #[trigger] heading_ok(b, hs[k])
}

/// Whether `b[x..x + n]` equals `b[y..y + n]`.
fn same_bytes(b: &[u8], x: usize, y: usize, n: usize) -> (r: bool)
    requires
        x + n <= b.len(),
        y + n <= b.len(),
    ensures
        r == (b@.subrange(x as int, x + n) == b@.subrange(y as int, y + n)),
{
    let mut k: usize = 0;
    while k < n
        invariant
            k <= n,
            x + n <= b.len(),
            y + n <= b.len(),
            b@.subrange(x as int, x + k) == b@.subrange(y as int, y + k),
        decreases n - k,
    {
        if b[x + k] != b[y + k] {
            proof {
                assert(b@.subrange(x as int, x + n)[k as int] == b@[x + k]);
                assert(b@.subrange(y as int, y + n)[k as int] == b@[y + k]);
            }
            return false;
        }
        proof {
            assert(b@.subrange(x as int, x + k + 1) =~= b@.subrange(x as int, x + k).push(b@[x + k]));
            assert(b@.subrange(y as int, y + k + 1) =~= b@.subrange(y as int, y + k).push(b@[y + k]));
        }
        k += 1;
    }
    true
}

/// The test `heading_from` makes for [`is_spaced`].
proof fn lemma_spaced_check(b: Seq<u8>, a: int, e: int, ta: int, te: int, spaced: bool)
    requires
        0 <= a <= ta <= te <= e <= b.len(),
        (ta, te) == trimmed(b, a, e),
        spaced == (e - a >= 2 && e - a - 2 == te - ta && b[a] == 32 && b[e - 1] == 32
            && b.subrange(a + 1, a + 1 + (te - ta)) == b.subrange(ta, te)),
    ensures
        spaced == is_spaced(b, a, e),
{
    let s = seq![32u8] + b.subrange(ta, te) + seq![32u8];
    if spaced {
        assert(b.subrange(a, e) =~= s);
    }
    if b.subrange(a, e) == s {
        assert(s.len() == te - ta + 2);
        assert(b.subrange(a, e).len() == e - a);
        assert(b.subrange(a, e)[0] == b[a]);
        assert(b.subrange(a, e)[e - a - 1] == b[e - 1]);
        assert(s[0] == 32);
        assert(s[e - a - 1] == 32);
        assert(b.subrange(a + 1, a + 1 + (te - ta)) =~= b.subrange(a, e).subrange(1, e - a - 1));
        assert(s.subrange(1, e - a - 1) =~= b.subrange(ta, te));
    }
}

/// The heading opened by token `i` and closed by token `cj`.
fn heading_from(src: &str, tokens: &[Token], i: usize, cj: usize) -> (h: Heading)
    requires
        lexed(src.spec_bytes(), tokens@),
        i < cj < tokens@.len(),
        tokens@[i as int].kind is HeadingMarker,
        tokens@[cj as int].kind is HeadingMarker,
    ensures
        h == heading_at(src.spec_bytes(), tokens@, i as int, cj as int),
        heading_ok(src.spec_bytes(), h),
{
    let ghost b = src.spec_bytes();
    let ghost ts = tokens@;
    let bytes = src.as_bytes();
    let t = &tokens[i];
    let c = &tokens[cj];
    let level = match t.kind {
        TokenKind::HeadingMarker { level } => level,
        _ => 0,
    };
    let close_level = match c.kind {
        TokenKind::HeadingMarker { level } => level,
        _ => 0,
    };
    proof {
        lemma_tiles_order(ts, 0, b.len() as int, i as int, cj as int);
        lemma_tiles_index(ts, 0, b.len() as int);
        assert(slice_ok(b, ts[i as int].span.start as int, ts[i as int].span.end as int));
        assert(slice_ok(b, ts[cj as int].span.start as int, ts[cj as int].span.end as int));
        lemma_trimmed_ok(b, t.span.end as int, c.span.start as int);
    }
    let a = t.span.end;
    let e = c.span.start;
    let (ta, te) = trim_range(bytes, a, e);
    let spaced = e - a >= 2 && e - a - 2 == te - ta && bytes[a] == 32 && bytes[e - 1] == 32 && same_bytes(
        bytes,
        a + 1,
        ta,
        te - ta,
    );
    proof {
        lemma_spaced_check(b, a as int, e as int, ta as int, te as int, spaced);
    }
    Heading {
        start: t.span.start,
        end: c.span.end,
        level,
        close_level,
        inner_start: a,
        inner_end: e,
        title_start: ta,
        title_end: te,
        spaced,
    }
}

/// The headings of the document, in order.
fn headings(src: &str, tokens: &[Token]) -> (out: Vec<Heading>)
    requires
        lexed(src.spec_bytes(), tokens@),
    ensures
        out@ == heading_list(src.spec_bytes(), tokens@, 0),
        headings_ok(src.spec_bytes(), out@),
{
    let ghost b = src.spec_bytes();
    let ghost ts = tokens@;
    let mut out: Vec<Heading> = Vec::new();
    let mut i: usize = 0;
    while i < tokens.len()
        invariant
            b == src.spec_bytes(),
            ts == tokens@,
            lexed(b, ts),
            i <= ts.len(),
            out@ + heading_list(b, ts, i as int) == heading_list(b, ts, 0),
            headings_ok(b, out@),
        decreases tokens.len() - i,
    {
        if let TokenKind::HeadingMarker { .. } = tokens[i].kind {
            let mut j = i + 1;
            let mut close: Option<usize> = None;
            proof {
                lemma_next_newline(ts, i + 1);
            }
            while j < tokens.len() && !matches!(tokens[j].kind, TokenKind::Newline)
                invariant
                    ts == tokens@,
                    i < j <= ts.len(),
                    next_newline(ts, i + 1) == next_newline(ts, j as int),
                    match last_marker(ts, i + 1, j as int) {
                        Some(c) => close == Some(c as usize),
                        None => close is None,
                    },
                decreases tokens.len() - j,
            {
                if let TokenKind::HeadingMarker { .. } = tokens[j].kind {
                    close = Some(j);
                }
                j += 1;
            }
            proof {
                assert(next_newline(ts, j as int) == j);
                lemma_last_marker(ts, i + 1, j as int);
            }
            let ghost before = out@;
            if let Some(cj) = close {
                let h = heading_from(src, tokens, i, cj);
                out.push(h);
            }
            proof {
                assert(before + heading_list(b, ts, i as int) =~= out@ + heading_list(b, ts, j as int));
                assert forall|k: int| 0 <= k < out@.len() implies #[trigger] heading_ok(b, out@[k]) by {
                    if k < before.len() {
                        assert(out@[k] == before[k]);
                    }
                }
            }
            i = j;
        } else {
            i += 1;
        }
    }
    proof {
        assert(out@ + heading_list(b, ts, i as int) =~= out@);
    }
    out
}

// ---------------------------------------------------------------------------
// Heading rewrites
// ---------------------------------------------------------------------------

/// How many of the headings are spaced.
pub open spec fn count_spaced(hs: Seq<Heading>) -> nat
    decreases hs.len(),
{
    if hs.len() == 0 {
        0
    } else {
        count_spaced(hs.drop_last()) + if hs.last().spaced {
            1nat
        } else {
            0nat
        }
    }
}

/// The heading style a document is brought to: `Some(true)` for spaced,
/// `Some(false)` for tight, `None` to leave headings alone. Under
/// `PreserveDominant` the majority decides (a heading that is not spaced
/// counts as tight), and a tie gives no mandate.
pub open spec fn target_spacing(spacing: HeadingSpacing, hs: Seq<Heading>) -> Option<bool> {
    match spacing {
        HeadingSpacing::Spaced => Some(true),
        HeadingSpacing::Tight => Some(false),
        HeadingSpacing::PreserveDominant => {
            let spaced = count_spaced(hs) as int;
            let tight = hs.len() - spaced;
            if spaced > tight {
                Some(true)
            } else if spaced < tight {
                Some(false)
            } else {
                None
            }
        },
    }
}

/// The heading `h` of `b` written in the wanted style, at its own level.
pub open spec fn heading_text(b: Seq<u8>, h: Heading, spaced: bool) -> Seq<u8> {
    let t = b.subrange(h.title_start as int, h.title_end as int);
    let eq = eq_run(h.level as nat);
    if spaced {
        eq + seq![32u8] + t + seq![32u8] + eq
    } else {
        eq + t + eq
    }
}

/// A replacement of the bytes `start..end` by `text`.
pub struct Edit {
    pub start: usize,
    pub end: usize,
    pub text: String,
}

pub open spec fn edit_view(e: Edit) -> (int, int, Seq<u8>) {
    (e.start as int, e.end as int, utf8_of(&e.text))
}

pub open spec fn edit_views(es: Seq<Edit>) -> Seq<(int, int, Seq<u8>)> {
    es.map_values(|e: Edit| edit_view(e))
}

/// The rewrites that bring the headings `hs` of `b` to the wanted style. An
/// asymmetric heading is left for a human: its correct level is a guess.
/// A heading already written as wanted needs no edit.
pub open spec fn heading_edits(b: Seq<u8>, hs: Seq<Heading>, spaced: bool) -> Seq<(int, int, Seq<u8>)>
    decreases hs.len(),
{
    if hs.len() == 0 {
        Seq::empty()
    } else {
        let rest = heading_edits(b, hs.drop_last(), spaced);
        let h = hs.last();
        let want = heading_text(b, h, spaced);
        if h.level != h.close_level || b.subrange(h.start as int, h.end as int) == want {
            rest
        } else {
            rest.push((h.start as int, h.end as int, want))
        }
    }
}

/// `b` from `at` on, with the edits from index `k` on applied; an edit that
/// starts before `at` overlaps one already applied and is skipped.
pub open spec fn apply_edits(b: Seq<u8>, es: Seq<(int, int, Seq<u8>)>, k: int, at: int) -> Seq<u8>
    decreases es.len() - k,
{
    if k >= es.len() || k < 0 {
        b.subrange(at, b.len() as int)
    } else if es[k].0 < at {
        apply_edits(b, es, k + 1, at)
    } else {
        b.subrange(at, es[k].0) + es[k].2 + apply_edits(b, es, k + 1, es[k].1)
    }
}

/// The heading edits that `spacing` asks of the document `b` with tokens `ts`.
pub open spec fn format_edits(b: Seq<u8>, ts: Seq<Token>, spacing: HeadingSpacing) -> Seq<(int, int, Seq<u8>)> {
    let hs = heading_list(b, ts, 0);
    match target_spacing(spacing, hs) {
        Some(spaced) => heading_edits(b, hs, spaced),
        None => Seq::empty(),
    }
}

/// The document with its headings rewritten.
pub open spec fn rewrite_headings(b: Seq<u8>, ts: Seq<Token>, spacing: HeadingSpacing) -> Seq<u8> {
    apply_edits(b, format_edits(b, ts, spacing), 0, 0)
}

fn target(spacing: HeadingSpacing, hs: &Vec<Heading>) -> (r: Option<bool>)
    ensures
        r == target_spacing(spacing, hs@),
{
    match spacing {
        HeadingSpacing::Spaced => Some(true),
        HeadingSpacing::Tight => Some(false),
        HeadingSpacing::PreserveDominant => {
            let mut spaced: usize = 0;
            let mut k: usize = 0;
            while k < hs.len()
                invariant
                    k <= hs@.len(),
                    spaced == count_spaced(hs@.subrange(0, k as int)),
                    spaced <= k,
                decreases hs.len() - k,
            {
                proof {
                    assert(hs@.subrange(0, k + 1).drop_last() =~= hs@.subrange(0, k as int));
                }
                if hs[k].spaced {
                    spaced += 1;
                }
                k += 1;
            }
            proof {
                assert(hs@.subrange(0, k as int) =~= hs@);
            }
            let tight = hs.len() - spaced;
            if spaced > tight {
                Some(true)
            } else if spaced < tight {
                Some(false)
            } else {
                None
            }
        },
    }
}

/// `x[a..e]` equals `y`.
fn slice_equals(x: &[u8], a: usize, e: usize, y: &[u8]) -> (r: bool)
    requires
        a <= e <= x.len(),
    ensures
        r == (x@.subrange(a as int, e as int) == y@),
{
    if e - a != y.len() {
        return false;
    }
    let mut k: usize = 0;
    while k < y.len()
        invariant
            a <= e <= x.len(),
            e - a == y.len(),
            k <= y.len(),
            x@.subrange(a as int, a + k) == y@.subrange(0, k as int),
        decreases y.len() - k,
    {
        if x[a + k] != y[k] {
            proof {
                assert(x@.subrange(a as int, e as int)[k as int] == x@[a + k]);
            }
            return false;
        }
        proof {
            assert(x@.subrange(a as int, a + k + 1) =~= x@.subrange(a as int, a + k).push(x@[a + k]));
            assert(y@.subrange(0, k + 1) =~= y@.subrange(0, k as int).push(y@[k as int]));
        }
        k += 1;
    }
    proof {
        assert(y@.subrange(0, k as int) =~= y@);
    }
    true
}

/// The heading written in the wanted style.
fn heading_want(src: &str, h: &Heading, spaced: bool) -> (r: String)
    requires
        heading_ok(src.spec_bytes(), *h),
    ensures
        utf8_of(&r) == heading_text(src.spec_bytes(), *h, spaced),
{
    let ghost b = src.spec_bytes();
    let ghost t = b.subrange(h.title_start as int, h.title_end as int);
    let ghost eq = eq_run(h.level as nat);
    proof {
        reveal_strlit(" ");
        assert(is_ascii(" "));
        is_ascii_spec_bytes(" ");
        assert(" ".spec_bytes() =~= seq![32u8]);
    }
    let mut w = new_string();
    push_eq_run(&mut w, h.level);
    assert(utf8_of(&w) =~= eq);
    if spaced {
        append(&mut w, " ");
        push_slice(&mut w, src, h.title_start, h.title_end);
        append(&mut w, " ");
        assert(utf8_of(&w) =~= eq + seq![32u8] + t + seq![32u8]);
    } else {
        push_slice(&mut w, src, h.title_start, h.title_end);
        assert(utf8_of(&w) =~= eq + t);
    }
    push_eq_run(&mut w, h.level);
    w
}

/// The heading edits, in document order.
fn edits_for(src: &str, hs: &Vec<Heading>, spaced: bool) -> (r: Vec<Edit>)
    requires
        headings_ok(src.spec_bytes(), hs@),
    ensures
        edit_views(r@) == heading_edits(src.spec_bytes(), hs@, spaced),
        forall|k: int| 0 <= k < r@.len() ==> #[trigger] slice_ok(src.spec_bytes(), r@[k].start as int, r@[k].end as int),
{
    let ghost b = src.spec_bytes();
    let bytes = src.as_bytes();
    let mut out: Vec<Edit> = Vec::new();
    let mut k: usize = 0;
    while k < hs.len()
        invariant
            b == src.spec_bytes(),
            bytes@ == b,
            headings_ok(b, hs@),
            k <= hs@.len(),
            edit_views(out@) == heading_edits(b, hs@.subrange(0, k as int), spaced),
            forall|q: int| 0 <= q < out@.len() ==> #[trigger] slice_ok(b, out@[q].start as int, out@[q].end as int),
        decreases hs.len() - k,
    {
        let h = &hs[k];
        proof {
            assert(heading_ok(b, hs@[k as int]));
            assert(hs@.subrange(0, k + 1).drop_last() =~= hs@.subrange(0, k as int));
            assert(hs@.subrange(0, k + 1).last() == hs@[k as int]);
        }
        if h.level == h.close_level {
            let want = heading_want(src, h, spaced);
            let same = slice_equals(bytes, h.start, h.end, want.as_str().as_bytes());
            if !same {
                let ghost before = out@;
                out.push(Edit { start: h.start, end: h.end, text: want });
                proof {
                    assert(edit_views(out@) =~= edit_views(before).push(edit_view(out@[out@.len() - 1])));
                    assert forall|q: int| 0 <= q < out@.len() implies #[trigger] slice_ok(b, out@[q].start as int, out@[q].end as int) by {
                        if q < before.len() {
                            assert(out@[q] == before[q]);
                        }
                    }
                }
            }
        }
        k += 1;
    }
    proof {
        assert(hs@.subrange(0, k as int) =~= hs@);
    }
    out
}

// ---------------------------------------------------------------------------
// Trailing white space
// ---------------------------------------------------------------------------

/// Tokens whose trailing white space is content: `<pre>`, `<nowiki>` and
/// space-indented preformatted lines.
pub open spec fn is_protected(k: TokenKind) -> bool {
    match k {
        TokenKind::Opaque { kind } => kind is Pre || kind is Nowiki || kind is Preformatted,
        _ => false,
    }
}

/// The spans of the protected tokens, in order.
pub open spec fn protected_spans(ts: Seq<Token>) -> Seq<(int, int)>
    decreases ts.len(),
{
    if ts.len() == 0 {
        Seq::empty()
    } else {
        let rest = protected_spans(ts.drop_last());
        if is_protected(ts.last().kind) {
            rest.push((ts.last().span.start as int, ts.last().span.end as int))
        } else {
            rest
        }
    }
}

/// The (0-based) line of `b` that byte offset `p` falls on.
pub open spec fn line_of(b: Seq<u8>, p: int) -> int {
    count_byte(b, 10, 0, p)
}

/// Line `n` of `b` is touched by one of the spans `ps`.
pub open spec fn line_protected(b: Seq<u8>, ps: Seq<(int, int)>, n: int) -> bool
    decreases ps.len(),
{
    if ps.len() == 0 {
        false
    } else {
        let last = ps.last();
        let hi = if last.1 < b.len() {
            last.1
        } else {
            b.len() as int
        };
        (line_of(b, last.0) <= n <= line_of(b, hi)) || line_protected(b, ps.drop_last(), n)
    }
}

/// End of `t[a..e]` once trailing spaces and tabs are dropped.
pub open spec fn rtrim_end(t: Seq<u8>, a: int, e: int) -> int
    decreases e - a,
{
    if e > a && (t[e - 1] == 32 || t[e - 1] == 9) {
        rtrim_end(t, a, e - 1)
    } else {
        e
    }
}

/// `t` from the start `a` of its line `n` on, with trailing spaces and tabs
/// dropped from every line that no span of `ps` (offsets into the unrewritten
/// `b`) touches.
pub open spec fn strip_lines(t: Seq<u8>, a: int, n: int, b: Seq<u8>, ps: Seq<(int, int)>) -> Seq<u8>
    decreases t.len() - a,
{
    let e = line_end(t, a);
    let kept = if line_protected(b, ps, n) {
        t.subrange(a, e)
    } else {
        t.subrange(a, rtrim_end(t, a, e))
    };
    if a <= e < t.len() {
        kept + seq![10u8] + strip_lines(t, e + 1, n + 1, b, ps)
    } else {
        kept
    }
}

proof fn lemma_rtrim_end(t: Seq<u8>, a: int, e: int)
    requires
        0 <= a <= e <= t.len(),
    ensures
        a <= rtrim_end(t, a, e) <= e,
        rtrim_end(t, a, e) < e ==> t[rtrim_end(t, a, e)] == 32 || t[rtrim_end(t, a, e)] == 9,
    decreases e - a,
{
    if e > a && (t[e - 1] == 32 || t[e - 1] == 9) {
        lemma_rtrim_end(t, a, e - 1);
    }
}

fn rtrim(t: &[u8], a: usize, e: usize) -> (r: usize)
    requires
        a <= e <= t.len(),
    ensures
        r == rtrim_end(t@, a as int, e as int),
{
    let mut k = e;
    while k > a && (t[k - 1] == 32 || t[k - 1] == 9)
        invariant
            a <= k <= e <= t.len(),
            rtrim_end(t@, a as int, k as int) == rtrim_end(t@, a as int, e as int),
        decreases k,
    {
        k -= 1;
    }
    k
}

/// The spans of the protected tokens.
fn protected(tokens: &[Token]) -> (r: Vec<(usize, usize)>)
    ensures
        span_views(r@) == protected_spans(tokens@),
{
    let mut r: Vec<(usize, usize)> = Vec::new();
    let mut k: usize = 0;
    while k < tokens.len()
        invariant
            k <= tokens@.len(),
            span_views(r@) == protected_spans(
                tokens@.subrange(0, k as int),
            ),
        decreases tokens.len() - k,
    {
        let t = &tokens[k];
        proof {
            assert(tokens@.subrange(0, k + 1).drop_last() =~= tokens@.subrange(0, k as int));
            assert(tokens@.subrange(0, k + 1).last() == tokens@[k as int]);
        }
        let ghost before = r@;
        let keep = match t.kind {
            TokenKind::Opaque { kind: Opaque::Pre } => true,
            TokenKind::Opaque { kind: Opaque::Nowiki } => true,
            TokenKind::Opaque { kind: Opaque::Preformatted } => true,
            _ => false,
        };
        if keep {
            r.push((t.span.start, t.span.end));
            proof {
                assert(span_views(r@) =~= span_views(before).push((t.span.start as int, t.span.end as int)));
            }
        }
        k += 1;
    }
    proof {
        assert(tokens@.subrange(0, k as int) =~= tokens@);
    }
    r
}

/// Number of `\n` in `b[..e]`.
fn count_newlines(b: &[u8], e: usize) -> (r: usize)
    requires
        e <= b.len(),
    ensures
        r == line_of(b@, e as int),
{
    let mut n: usize = 0;
    let mut k: usize = 0;
    while k < e
        invariant
            k <= e <= b.len(),
            n == count_byte(b@, 10, 0, k as int),
            n <= k,
        decreases e - k,
    {
        if b[k] == 10 {
            n += 1;
        }
        k += 1;
    }
    n
}

/// `r` is the inclusive range of lines of `b` that the span `p` touches.
pub open spec fn line_range_of(b: Seq<u8>, p: (usize, usize), r: (usize, usize)) -> bool {
    let hi = if p.1 < b.len() {
        p.1 as int
    } else {
        b.len() as int
    };
    &&& r.0 == line_of(b, p.0 as int)
    &&& r.1 == line_of(b, hi)
}

pub open spec fn span_views(ps: Seq<(usize, usize)>) -> Seq<(int, int)> {
    ps.map_values(|p: (usize, usize)| (p.0 as int, p.1 as int))
}

/// The lines that the spans `ps` of `source` touch, as inclusive ranges.
fn protected_lines(source: &[u8], ps: &Vec<(usize, usize)>) -> (r: Vec<(usize, usize)>)
    requires
        forall|k: int| 0 <= k < ps@.len() ==> #[trigger] ps@[k].0 <= source@.len(),
    ensures
        r@.len() == ps@.len(),
        forall|k: int| 0 <= k < r@.len() ==> #[trigger] line_range_of(source@, ps@[k], r@[k]),
{
    let mut r: Vec<(usize, usize)> = Vec::new();
    let mut k: usize = 0;
    while k < ps.len()
        invariant
            k <= ps@.len(),
            r@.len() == k,
            forall|k: int| 0 <= k < ps@.len() ==> #[trigger] ps@[k].0 <= source@.len(),
            forall|q: int| 0 <= q < k ==> #[trigger] line_range_of(source@, ps@[q], r@[q]),
        decreases ps.len() - k,
    {
        let (s, e) = ps[k];
        let hi = if e < source.len() {
            e
        } else {
            source.len()
        };
        let first = count_newlines(source, s);
        let last = count_newlines(source, hi);
        r.push((first, last));
        k += 1;
    }
    r
}

/// Whether line `n` falls in one of the ranges: the same as
/// [`line_protected`] for the spans the ranges were computed from.
fn in_ranges(ranges: &Vec<(usize, usize)>, n: usize, Ghost(b): Ghost<Seq<u8>>, Ghost(ps): Ghost<Seq<(usize, usize)>>) -> (r: bool)
    requires
        ranges@.len() == ps.len(),
        forall|k: int| 0 <= k < ranges@.len() ==> #[trigger] line_range_of(b, ps[k], ranges@[k]),
    ensures
        r == line_protected(b, span_views(ps), n as int),
{
    let mut found = false;
    let mut k: usize = 0;
    while k < ranges.len()
        invariant
            k <= ranges@.len(),
            ranges@.len() == ps.len(),
            forall|k: int| 0 <= k < ranges@.len() ==> #[trigger] line_range_of(b, ps[k], ranges@[k]),
            found == line_protected(b, span_views(ps.subrange(0, k as int)), n as int),
        decreases ranges.len() - k,
    {
        proof {
            assert(span_views(ps.subrange(0, k + 1)).drop_last() =~= span_views(ps.subrange(0, k as int)));
            assert(span_views(ps.subrange(0, k + 1)).last() == (ps[k as int].0 as int, ps[k as int].1 as int));
            assert(line_range_of(b, ps[k as int], ranges@[k as int]));
        }
        let (lo, hi) = ranges[k];
        if lo <= n && n <= hi {
            found = true;
        }
        k += 1;
    }
    proof {
        assert(ps.subrange(0, k as int) =~= ps);
    }
    found
}

/// Remove trailing spaces and tabs from the lines of `text`, except those
/// lines that a protected span of `source` touches.
///
/// Protected spans are byte ranges into the input before rewriting; lines are
/// matched by their number.
fn strip_trailing_whitespace(text: &str, source: &str, spans: &Vec<(usize, usize)>) -> (r: String)
    requires
        forall|k: int| 0 <= k < spans@.len() ==> #[trigger] spans@[k].0 <= source.spec_bytes().len(),
    ensures
        utf8_of(&r) == strip_lines(text.spec_bytes(), 0, 0, source.spec_bytes(), span_views(spans@)),
{
    let ghost t = text.spec_bytes();
    let ghost b = source.spec_bytes();
    let ghost ps = span_views(spans@);
    let tb = text.as_bytes();
    let ranges = protected_lines(source.as_bytes(), spans);
    let n = tb.len();
    proof {
        encode_utf8_valid_utf8(text@);
        lemma_boundary_ends(t);
        reveal_strlit("\n");
        assert(is_ascii("\n"));
        is_ascii_spec_bytes("\n");
        assert("\n".spec_bytes() =~= seq![10u8]);
    }
    let mut out = new_string();
    let mut a: usize = 0;
    let mut line: usize = 0;
    let mut done = false;
    while !done
        invariant
            t == text.spec_bytes(),
            b == source.spec_bytes(),
            ps == span_views(spans@),
            tb@ == t,
            n == t.len(),
            valid_utf8(t),
            ranges@.len() == spans@.len(),
            forall|k: int| 0 <= k < ranges@.len() ==> #[trigger] line_range_of(b, spans@[k], ranges@[k]),
            "\n".spec_bytes() == seq![10u8],
            is_char_boundary(t, n as int),
            a <= n,
            line <= a,
            is_char_boundary(t, a as int),
            done ==> utf8_of(&out) == strip_lines(t, 0, 0, b, ps),
            !done ==> utf8_of(&out) + strip_lines(t, a as int, line as int, b, ps) == strip_lines(t, 0, 0, b, ps),
        decreases (if done { 0int } else { n + 1 - a }),
    {
        let e = match find_byte(tb, 10, a, n) {
            Some(p) => p,
            None => n,
        };
        proof {
            lemma_first_byte(t, 10, a as int, n as int);
            assert(e as int == line_end(t, a as int));
            if e < n {
                lemma_boundary_ascii(t, e as int);
            }
        }
        let prot = in_ranges(&ranges, line, Ghost(b), Ghost(spans@));
        let keep = if prot {
            e
        } else {
            rtrim(tb, a, e)
        };
        proof {
            lemma_rtrim_end(t, a as int, e as int);
            if keep < e {
                lemma_boundary_ascii(t, keep as int);
            }
        }
        let ghost o = utf8_of(&out);
        push_slice(&mut out, text, a, keep);
        proof {
            let kept = if line_protected(b, ps, line as int) {
                t.subrange(a as int, e as int)
            } else {
                t.subrange(a as int, rtrim_end(t, a as int, e as int))
            };
            assert(kept == t.subrange(a as int, keep as int));
            assert(utf8_of(&out) == o + kept);
            if e < n {
                assert(strip_lines(t, a as int, line as int, b, ps) == kept + seq![10u8] + strip_lines(t, e + 1, line + 1, b, ps));
            } else {
                assert(strip_lines(t, a as int, line as int, b, ps) == kept);
            }
        }
        if e < n {
            append(&mut out, "\n");
            proof {
                lemma_boundary_after_ascii(t, e + 1);
                assert(utf8_of(&out) + strip_lines(t, e + 1, line + 1, b, ps) =~= o + strip_lines(t, a as int, line as int, b, ps));
            }
            a = e + 1;
            line += 1;
        } else {
            proof {
                assert(utf8_of(&out) == o + strip_lines(t, a as int, line as int, b, ps));
            }
            done = true;
        }
    }
    out
}

// ---------------------------------------------------------------------------
// Formatting
// ---------------------------------------------------------------------------

/// One pass of `style` over the document `b` with tokens `ts`: headings
/// brought to the wanted spacing, then trailing white space dropped if asked.
pub open spec fn restyle_spec(b: Seq<u8>, ts: Seq<Token>, style: Style) -> Seq<u8> {
    let h = rewrite_headings(b, ts, style.heading_spacing);
    if style.trailing_whitespace {
        strip_lines(h, 0, 0, b, protected_spans(ts))
    } else {
        h
    }
}

/// One pass of `style` over `input`, given its tokens: headings are brought
/// to the wanted spacing (asymmetric ones are left alone), then,
/// if asked, trailing white space is dropped outside protected regions.
fn restyle(input: &str, tokens: &[Token], style: &Style) -> (r: String)
    requires
        lexed(input.spec_bytes(), tokens@),
    ensures
        utf8_of(&r) == restyle_spec(input.spec_bytes(), tokens@, *style),
{
    let ghost b = input.spec_bytes();
    let hs = headings(input, tokens);
    let want = target(style.heading_spacing, &hs);
    let edits: Vec<Edit> = match want {
        Some(spaced) => edits_for(input, &hs, spaced),
        None => Vec::new(),
    };
    let ghost es = edit_views(edits@);
    proof {
        assert(es == format_edits(b, tokens@, style.heading_spacing)) by {
            if want is None {
                assert(es =~= Seq::<(int, int, Seq<u8>)>::empty());
            }
        }
        lemma_boundary_ends(b);
    }
    let n = input.as_bytes().len();
    let mut out = new_string();
    let mut at: usize = 0;
    let mut j: usize = 0;
    while j < edits.len()
        invariant
            b == input.spec_bytes(),
            n == b.len(),
            es == edit_views(edits@),
            forall|k: int| 0 <= k < edits@.len() ==> #[trigger] slice_ok(b, edits@[k].start as int, edits@[k].end as int),
            j <= edits@.len(),
            at <= n,
            is_char_boundary(b, at as int),
            utf8_of(&out) + apply_edits(b, es, j as int, at as int) == apply_edits(b, es, 0, 0),
        decreases edits.len() - j,
    {
        let ed = &edits[j];
        proof {
            assert(es[j as int] == edit_view(edits@[j as int]));
            assert(slice_ok(b, edits@[j as int].start as int, edits@[j as int].end as int));
        }
        if ed.start >= at {
            let ghost o = utf8_of(&out);
            push_slice(&mut out, input, at, ed.start);
            append(&mut out, ed.text.as_str());
            proof {
                assert(utf8_of(&out) + apply_edits(b, es, j + 1, ed.end as int) =~= o + apply_edits(b, es, j as int, at as int));
            }
            at = ed.end;
        }
        j += 1;
    }
    push_slice(&mut out, input, at, n);
    if style.trailing_whitespace {
        let spans = protected(tokens);
        proof {
            lemma_tiles_index(tokens@, 0, b.len() as int);
            assert forall|j: int| 0 <= j < tokens@.len() implies #[trigger] tokens@[j].span.start <= b.len() by {
                lemma_tiles_end(tokens@, 0, b.len() as int, j);
            }
            lemma_protected_bounded(tokens@, b.len() as int);
            assert forall|k: int| 0 <= k < spans@.len() implies #[trigger] spans@[k].0 <= b.len() by {
                assert(span_views(spans@)[k] == (spans@[k].0 as int, spans@[k].1 as int));
            }
        }
        out = strip_trailing_whitespace(out.as_str(), input, &spans);
    }
    out
}

/// What [`format`] produces for the document `b` with tokens `ts`: one pass
/// of the style, kept only if a second pass over it changes nothing;
/// otherwise the document is left as it is.
pub open spec fn format_spec(b: Seq<u8>, ts: Seq<Token>, style: Style) -> Seq<u8> {
    let once = restyle_spec(b, ts, style);
    if restyle_spec(once, lex_spec(once), style) == once {
        once
    } else {
        b
    }
}

/// Apply `style` to `input`, given its tokens. Returns the formatted text.
///
/// Headings are brought to the wanted spacing (asymmetric ones are left
/// alone), then, if asked, trailing white space is dropped outside
/// protected regions. A rewrite can change how the text lexes (a space
/// removed inside a heading can turn an external link's opener into a whole
/// link that swallows the next line, and `= =` written tight is `==`, which
/// is no heading), so the result is kept only when
/// formatting it again would change nothing; otherwise `input` comes back
/// unchanged. Formatting therefore always settles: see
/// [`lemma_format_idempotent`].
pub fn format(input: &str, tokens: &[Token], style: &Style) -> (r: String)
    requires
        lexed(input.spec_bytes(), tokens@),
    ensures
        utf8_of(&r) == format_spec(input.spec_bytes(), tokens@, *style),
{
    let once = restyle(input, tokens, style);
    let once_str = once.as_str();
    // Reading the byte length tells the proof that it fits in a `usize`.
    let _byte_len = once_str.as_bytes().len();
    proof {
        let y = utf8_of(&once);
        assert(once_str.spec_bytes() == y);
        encode_utf8_valid_utf8(once@);
        lemma_lex_tiles(y);
        lemma_lex_boundaries(y);
    }
    let again_tokens = lex(once_str);
    let twice = restyle(once_str, again_tokens.as_slice(), style);
    if bytes_eq(twice.as_str().as_bytes(), once_str.as_bytes()) {
        once
    } else {
        let mut out = new_string();
        append(&mut out, input);
        out
    }
}

/// Protected spans are token spans, so they start no later than the tokens
/// end.
proof fn lemma_protected_bounded(ts: Seq<Token>, len: int)
    requires
        forall|j: int| 0 <= j < ts.len() ==> #[trigger] ts[j].span.start <= len,
    ensures
        forall|k: int| 0 <= k < protected_spans(ts).len() ==> #[trigger] protected_spans(ts)[k].0 <= len,
    decreases ts.len(),
{
    if ts.len() > 0 {
        let p = ts.drop_last();
        assert forall|j: int| 0 <= j < p.len() implies #[trigger] p[j].span.start <= len by {
            assert(p[j] == ts[j]);
        }
        lemma_protected_bounded(p, len);
        let r = protected_spans(p);
        assert forall|k: int| 0 <= k < protected_spans(ts).len() implies #[trigger] protected_spans(ts)[k].0 <= len by {
            if k < r.len() {
                assert(protected_spans(ts)[k] == r[k]);
            } else {
                assert(ts[ts.len() - 1].span.start <= len);
            }
        }
    }
}

// ---------------------------------------------------------------------------
// What formatting keeps
// ---------------------------------------------------------------------------

/// The heading `h` as it stands in `b`: opening run, inner text, closing
/// run, with the title being the trimmed inner text.
pub open spec fn heading_shape(b: Seq<u8>, h: Heading) -> bool {
    &&& 1 <= h.level
    &&& 1 <= h.close_level
    &&& h.start + h.level == h.inner_start
    &&& h.inner_start <= h.inner_end
    &&& h.inner_end + h.close_level == h.end
    &&& h.end <= b.len()
    &&& forall|q: int| h.start <= q < h.inner_start ==> b[q] == 61
    &&& forall|q: int| h.inner_end <= q < h.end ==> b[q] == 61
    &&& (h.title_start as int, h.title_end as int) == trimmed(b, h.inner_start as int, h.inner_end as int)
    &&& h.spaced == is_spaced(b, h.inner_start as int, h.inner_end as int)
}

/// Written `=Title=`: no white space between the markers and the title.
pub open spec fn is_tight(h: Heading) -> bool {
    h.title_start == h.inner_start && h.title_end == h.inner_end
}

proof fn lemma_heading_at_shape(b: Seq<u8>, ts: Seq<Token>, i: int, c: int)
    requires
        tiles_from(ts, 0, b.len() as int),
        markers_ok(b, ts),
        0 <= i < c < ts.len(),
        ts[i].kind is HeadingMarker,
        ts[c].kind is HeadingMarker,
    ensures
        heading_shape(b, heading_at(b, ts, i, c)),
{
    lemma_tiles_order(ts, 0, b.len() as int, i, c);
    lemma_tiles_index(ts, 0, b.len() as int);
    assert(marker_bytes(b, ts[i]));
    assert(marker_bytes(b, ts[c]));
    let a = ts[i].span.end as int;
    let e = ts[c].span.start as int;
    lemma_skip_ws(b, a, e);
    lemma_skip_ws_back(b, trimmed(b, a, e).0, e);
}

proof fn lemma_heading_list_shape(b: Seq<u8>, ts: Seq<Token>, i: int)
    requires
        tiles_from(ts, 0, b.len() as int),
        markers_ok(b, ts),
        0 <= i,
    ensures
        forall|k: int| 0 <= k < heading_list(b, ts, i).len() ==> #[trigger] heading_shape(b, heading_list(b, ts, i)[k]),
    decreases ts.len() - i,
{
    if i < ts.len() {
        if ts[i].kind is HeadingMarker {
            let j = next_newline(ts, i + 1);
            lemma_next_newline(ts, i + 1);
            lemma_last_marker(ts, i + 1, j);
            let h: Seq<Heading> = match last_marker(ts, i + 1, j) {
                Some(c) => seq![heading_at(b, ts, i, c)],
                None => Seq::empty(),
            };
            if let Some(c) = last_marker(ts, i + 1, j) {
                lemma_heading_at_shape(b, ts, i, c);
            }
            assert forall|k: int| 0 <= k < h.len() implies #[trigger] heading_shape(b, h[k]) by {}
            if i < j <= ts.len() {
                lemma_heading_list_shape(b, ts, j);
                let rest = heading_list(b, ts, j);
                assert(heading_list(b, ts, i) == h + rest);
                assert forall|k: int| 0 <= k < (h + rest).len() implies #[trigger] heading_shape(b, (h + rest)[k]) by {
                    if k < h.len() {
                        assert((h + rest)[k] == h[k]);
                    } else {
                        assert((h + rest)[k] == rest[k - h.len()]);
                    }
                }
            }
        } else {
            lemma_heading_list_shape(b, ts, i + 1);
            assert(heading_list(b, ts, i) == heading_list(b, ts, i + 1));
        }
    }
}

/// A symmetric heading reads: its run, its inner text, its run again.
proof fn lemma_heading_bytes(b: Seq<u8>, h: Heading)
    requires
        heading_shape(b, h),
        h.level == h.close_level,
    ensures
        b.subrange(h.start as int, h.end as int) == eq_run(h.level as nat) + b.subrange(
            h.inner_start as int,
            h.inner_end as int,
        ) + eq_run(h.level as nat),
{
    assert(b.subrange(h.start as int, h.end as int) =~= eq_run(h.level as nat) + b.subrange(
        h.inner_start as int,
        h.inner_end as int,
    ) + eq_run(h.level as nat));
}

/// A heading already written in the wanted style reads as what the
/// formatter would write.
proof fn lemma_heading_in_lane(b: Seq<u8>, h: Heading, spaced: bool)
    requires
        heading_shape(b, h),
        h.level == h.close_level,
        spaced ==> h.spaced,
        !spaced ==> is_tight(h),
    ensures
        b.subrange(h.start as int, h.end as int) == heading_text(b, h, spaced),
{
    lemma_heading_bytes(b, h);
    let eq = eq_run(h.level as nat);
    let t = b.subrange(h.title_start as int, h.title_end as int);
    if spaced {
        assert(b.subrange(h.start as int, h.end as int) =~= eq + seq![32u8] + t + seq![32u8] + eq);
    } else {
        assert(b.subrange(h.start as int, h.end as int) =~= eq + t + eq);
    }
}

/// A tight heading is not spaced.
proof fn lemma_tight_not_spaced(b: Seq<u8>, h: Heading)
    requires
        heading_shape(b, h),
        is_tight(h),
    ensures
        !h.spaced,
{
    let a = h.inner_start as int;
    let e = h.inner_end as int;
    if h.spaced {
        assert(b.subrange(a, e).len() == (seq![32u8] + b.subrange(a, e) + seq![32u8]).len());
    }
}

proof fn lemma_no_edits(b: Seq<u8>, hs: Seq<Heading>, spaced: bool)
    requires
        forall|k: int| 0 <= k < hs.len() ==> #[trigger] heading_shape(b, hs[k]),
        forall|k: int| 0 <= k < hs.len() ==> spaced ==> (#[trigger] hs[k]).spaced,
        forall|k: int| 0 <= k < hs.len() ==> !spaced ==> is_tight(#[trigger] hs[k]),
    ensures
        heading_edits(b, hs, spaced) == Seq::<(int, int, Seq<u8>)>::empty(),
    decreases hs.len(),
{
    if hs.len() > 0 {
        let p = hs.drop_last();
        assert forall|k: int| 0 <= k < p.len() implies #[trigger] heading_shape(b, p[k]) && (spaced ==> p[k].spaced) && (!spaced ==> is_tight(p[k])) by {
            assert(p[k] == hs[k]);
            assert(heading_shape(b, hs[k]));
        }
        lemma_no_edits(b, p, spaced);
        let h = hs.last();
        assert(heading_shape(b, hs[hs.len() - 1]));
        assert(spaced ==> hs[hs.len() - 1].spaced);
        assert(!spaced ==> is_tight(hs[hs.len() - 1]));
        if h.level == h.close_level {
            lemma_heading_in_lane(b, h, spaced);
        }
    }
}

proof fn lemma_count_spaced(hs: Seq<Heading>, all: bool)
    requires
        forall|k: int| 0 <= k < hs.len() ==> (#[trigger] hs[k]).spaced == all,
    ensures
        count_spaced(hs) == if all {
            hs.len()
        } else {
            0
        },
    decreases hs.len(),
{
    if hs.len() > 0 {
        let p = hs.drop_last();
        assert forall|k: int| 0 <= k < p.len() implies (#[trigger] p[k]).spaced == all by {
            assert(p[k] == hs[k]);
        }
        lemma_count_spaced(p, all);
        assert(hs[hs.len() - 1].spaced == all);
    }
}

/// No churn: a document whose headings all already follow one style
/// (all `= Title =`, or all `=Title=`) is returned byte for byte unchanged
/// when trailing white space is left alone, unless the style demands the
/// other lane.
pub proof fn lemma_format_keeps_a_lane(b: Seq<u8>, style: Style)
    requires
        b.len() <= usize::MAX,
        !style.trailing_whitespace,
        ({
            let hs = heading_list(b, lex_spec(b), 0);
            ||| (forall|k: int| 0 <= k < hs.len() ==> (#[trigger] hs[k]).spaced) && style.heading_spacing != HeadingSpacing::Tight
            ||| (forall|k: int| 0 <= k < hs.len() ==> is_tight(#[trigger] hs[k])) && style.heading_spacing != HeadingSpacing::Spaced
        }),
    ensures
        format_spec(b, lex_spec(b), style) == b,
{
    let ts = lex_spec(b);
    lemma_lex_tiles(b);
    lemma_lex_markers(b);
    lemma_heading_list_shape(b, ts, 0);
    let hs = heading_list(b, ts, 0);
    let all_spaced = (forall|k: int| 0 <= k < hs.len() ==> (#[trigger] hs[k]).spaced) && style.heading_spacing != HeadingSpacing::Tight;
    if all_spaced {
        lemma_count_spaced(hs, true);
        if target_spacing(style.heading_spacing, hs) is Some {
            assert(target_spacing(style.heading_spacing, hs) == Some(true));
            lemma_no_edits(b, hs, true);
        }
    } else {
        assert forall|k: int| 0 <= k < hs.len() implies !(#[trigger] hs[k]).spaced by {
            lemma_tight_not_spaced(b, hs[k]);
        }
        lemma_count_spaced(hs, false);
        if target_spacing(style.heading_spacing, hs) is Some {
            assert(target_spacing(style.heading_spacing, hs) == Some(false));
            lemma_no_edits(b, hs, false);
        }
    }
    assert(format_edits(b, ts, style.heading_spacing) =~= Seq::<(int, int, Seq<u8>)>::empty());
    assert(b.subrange(0, b.len() as int) =~= b);
}

/// A tie gives no mandate: under `PreserveDominant`, a document with as many
/// spaced headings as others keeps its headings as they are.
pub proof fn lemma_format_tie_keeps_headings(b: Seq<u8>, ts: Seq<Token>)
    requires
        2 * count_spaced(heading_list(b, ts, 0)) == heading_list(b, ts, 0).len(),
    ensures
        rewrite_headings(b, ts, HeadingSpacing::PreserveDominant) == b,
{
    assert(b.subrange(0, b.len() as int) =~= b);
}

/// The number of lines breaks in `s`.
pub open spec fn newlines(s: Seq<u8>) -> int {
    count_byte(s, 10, 0, s.len() as int)
}

proof fn lemma_strip_from_lines(t: Seq<u8>, a: int, n: int, b: Seq<u8>, ps: Seq<(int, int)>)
    requires
        0 <= a <= t.len(),
    ensures
        newlines(strip_lines(t, a, n, b, ps)) == count_byte(t, 10, a, t.len() as int),
    decreases t.len() - a,
{
    lemma_first_byte(t, 10, a, t.len() as int);
    let e = line_end(t, a);
    lemma_rtrim_end(t, a, e);
    let kept = if line_protected(b, ps, n) {
        t.subrange(a, e)
    } else {
        t.subrange(a, rtrim_end(t, a, e))
    };
    let ke = if line_protected(b, ps, n) {
        e
    } else {
        rtrim_end(t, a, e)
    };
    assert(kept == t.subrange(a, ke));
    lemma_count_shift(t, 10, a, ke);
    lemma_count_zero(t, 10, a, ke);
    lemma_count_zero(t, 10, a, e);
    assert(newlines(kept) == 0);
    if a <= e < t.len() {
        lemma_strip_from_lines(t, e + 1, n + 1, b, ps);
        let rest = strip_lines(t, e + 1, n + 1, b, ps);
        lemma_count_concat(kept, seq![10u8], 10);
        lemma_count_concat(kept + seq![10u8], rest, 10);
        assert(count_byte(seq![10u8], 10, 0, 1) == 1) by {
            assert(count_byte(seq![10u8], 10, 0, 0) == 0);
        }
        lemma_count_split(t, 10, a, e, t.len() as int);
        lemma_count_split(t, 10, e, e + 1, t.len() as int);
        assert(count_byte(t, 10, e, e) == 0);
        assert(count_byte(t, 10, e, e + 1) == 1);
    } else {
        assert(e == t.len());
    }
}

/// Dropping trailing spaces and tabs never adds or removes a line: the
/// stripped text has exactly as many line breaks as the text.
pub proof fn lemma_strip_keeps_lines(t: Seq<u8>, b: Seq<u8>, ps: Seq<(int, int)>)
    ensures
        newlines(strip_lines(t, 0, 0, b, ps)) == newlines(t),
{
    lemma_strip_from_lines(t, 0, 0, b, ps);
}


// ---------------------------------------------------------------------------
// Formatting keeps every line
// ---------------------------------------------------------------------------

/// The white space around a heading's title holds no line break.
pub open spec fn heading_one_line(b: Seq<u8>, h: Heading) -> bool {
    &&& no_nl(b, h.inner_start as int, h.title_start as int)
    &&& no_nl(b, h.title_end as int, h.inner_end as int)
}

proof fn lemma_no_newline_before(ts: Seq<Token>, j: int)
    requires
        0 <= j,
    ensures
        forall|k: int| j <= k < next_newline(ts, j) && k < ts.len() ==> !((#[trigger] ts[k]).kind is Newline),
    decreases ts.len() - j,
{
    if j < ts.len() && !(ts[j].kind is Newline) {
        lemma_no_newline_before(ts, j + 1);
    }
}

proof fn lemma_last_byte_last(b: Seq<u8>, c: u8, from: int, to: int, q: int)
    requires
        from <= q < to,
        b[q] == c,
    ensures
        last_byte(b, c, from, to) is Some,
        q <= last_byte(b, c, from, to)->0 < to,
        b[last_byte(b, c, from, to)->0] == c,
        forall|x: int| last_byte(b, c, from, to)->0 < x < to ==> b[x] != c,
    decreases to - from,
{
    if b[to - 1] != c {
        lemma_last_byte_last(b, c, from, to - 1, q);
    }
}

/// The token covering position `q`.
proof fn lemma_token_at(ts: Seq<Token>, at: int, len: int, q: int) -> (k: int)
    requires
        tiles_from(ts, at, len),
        at <= q < len,
    ensures
        0 <= k < ts.len(),
        ts[k].span.start <= q < ts[k].span.end,
    decreases ts.len(),
{
    if q < ts[0].span.end {
        0
    } else {
        let k = lemma_token_at(ts.drop_first(), ts[0].span.end as int, len, q);
        assert(ts.drop_first()[k] == ts[k + 1]);
        k + 1
    }
}

/// A token covering a position strictly between tokens `i` and `c` lies
/// strictly between them.
proof fn lemma_token_between(ts: Seq<Token>, len: int, i: int, c: int, k: int, q: int)
    requires
        tiles_from(ts, 0, len),
        0 <= i < c < ts.len(),
        0 <= k < ts.len(),
        ts[k].span.start <= q < ts[k].span.end,
        ts[i].span.end <= q < ts[c].span.start,
    ensures
        i < k < c,
        ts[i].span.end <= ts[k].span.start,
        ts[k].span.end <= ts[c].span.start,
{
    lemma_tiles_index(ts, 0, len);
    if k < i {
        lemma_tiles_order(ts, 0, len, k, i);
    }
    if k > c {
        lemma_tiles_order(ts, 0, len, c, k);
    }
    lemma_tiles_order(ts, 0, len, i, k);
    lemma_tiles_order(ts, 0, len, k, c);
}

/// The markers of a heading line hold no line break in the white space
/// around its title: the line is not broken there.
proof fn lemma_heading_at_one_line(b: Seq<u8>, ts: Seq<Token>, i: int, c: int)
    requires
        tiles_from(ts, 0, b.len() as int),
        nls_ok(b, ts),
        markers_placed(b, ts, true),
        0 <= i < c < ts.len(),
        c < next_newline(ts, i + 1),
        ts[i].kind is HeadingMarker,
        ts[c].kind is HeadingMarker,
    ensures
        heading_one_line(b, heading_at(b, ts, i, c)),
{
    let n = b.len() as int;
    lemma_tiles_order(ts, 0, n, i, c);
    lemma_tiles_index(ts, 0, n);
    lemma_no_newline_before(ts, i + 1);
    let a = ts[i].span.end as int;
    let e = ts[c].span.start as int;
    lemma_skip_ws(b, a, e);
    let t0 = skip_ws(b, a, e);
    lemma_skip_ws_back(b, t0, e);
    let t1 = skip_ws_back(b, t0, e);
    assert(in_heading_tail(b, e)) by {
        if !in_heading_tail(b, e) {
            assert(opens_line(ts, c, true));
            assert(!(ts[c - 1].kind is Newline));
            if c >= 2 {
                assert(!(ts[c - 2].kind is Newline));
            }
        }
    }
    lemma_skip_ws_bytes(b, a, e);
    assert forall|q: int| a <= q < t0 implies b[q] != NL by {
        if b[q] == NL {
            let k = lemma_token_at(ts, 0, n, q);
            lemma_token_between(ts, n, i, c, k, q);
            assert(nl_ok(b, ts[k]));
            assert(ws_byte(b[ts[k].span.start as int]));
            assert(!(ts[k].kind is Newline));
        }
    }
    lemma_skip_ws_back_run(b, t0, e);
    assert forall|q: int| t1 <= q < e implies b[q] != NL by {
        if b[q] == NL {
            lemma_last_byte_last(b, NL, 0, e, q);
            let p = last_byte(b, NL, 0, e)->0;
            if p == e - 1 {
                let k = lemma_token_at(ts, 0, n, p);
                lemma_token_between(ts, n, i, c, k, p);
                assert(nl_ok(b, ts[k]));
                assert(!(ts[k].kind is Newline));
                lemma_line_end(b, e);
                assert(!no_nl(b, ts[k].span.start as int, ts[k].span.end as int));
            } else {
                lemma_ws_run_after_nl(b, t1, e, p);
                lemma_ws_run_skip(b, p + 1, e, e);
                assert(!line_opens_before(b, e));
            }
        }
    }
}

proof fn lemma_heading_list_one_line(b: Seq<u8>, ts: Seq<Token>, i: int)
    requires
        tiles_from(ts, 0, b.len() as int),
        nls_ok(b, ts),
        markers_placed(b, ts, true),
        0 <= i,
    ensures
        forall|k: int| 0 <= k < heading_list(b, ts, i).len() ==> #[trigger] heading_one_line(b, heading_list(b, ts, i)[k]),
    decreases ts.len() - i,
{
    if i < ts.len() {
        if ts[i].kind is HeadingMarker {
            let j = next_newline(ts, i + 1);
            lemma_next_newline(ts, i + 1);
            lemma_last_marker(ts, i + 1, j);
            let h: Seq<Heading> = match last_marker(ts, i + 1, j) {
                Some(c) => seq![heading_at(b, ts, i, c)],
                None => Seq::empty(),
            };
            if let Some(c) = last_marker(ts, i + 1, j) {
                lemma_heading_at_one_line(b, ts, i, c);
            }
            assert forall|k: int| 0 <= k < h.len() implies #[trigger] heading_one_line(b, h[k]) by {}
            if i < j <= ts.len() {
                lemma_heading_list_one_line(b, ts, j);
                let rest = heading_list(b, ts, j);
                assert(heading_list(b, ts, i) == h + rest);
                assert forall|k: int| 0 <= k < (h + rest).len() implies #[trigger] heading_one_line(b, (h + rest)[k]) by {
                    if k < h.len() {
                        assert((h + rest)[k] == h[k]);
                    } else {
                        assert((h + rest)[k] == rest[k - h.len()]);
                    }
                }
            }
        } else {
            lemma_heading_list_one_line(b, ts, i + 1);
            assert(heading_list(b, ts, i) == heading_list(b, ts, i + 1));
        }
    }
}


/// The edit `x` replaces a stretch of `b` by text with as many line breaks.
pub open spec fn edit_keeps_lines(b: Seq<u8>, x: (int, int, Seq<u8>)) -> bool {
    &&& 0 <= x.0 <= x.1 <= b.len()
    &&& newlines(x.2) == count_byte(b, 10, x.0, x.1)
}

pub open spec fn edits_keep_lines(b: Seq<u8>, es: Seq<(int, int, Seq<u8>)>) -> bool {
    forall|k: int| 0 <= k < es.len() ==> edit_keeps_lines(b, #[trigger] es[k])
}

proof fn lemma_apply_edits_lines(b: Seq<u8>, es: Seq<(int, int, Seq<u8>)>, k: int, at: int)
    requires
        0 <= at <= b.len(),
        edits_keep_lines(b, es),
    ensures
        newlines(apply_edits(b, es, k, at)) == count_byte(b, 10, at, b.len() as int),
    decreases es.len() - k,
{
    let n = b.len() as int;
    if k >= es.len() || k < 0 {
        lemma_count_shift(b, 10, at, n);
    } else if es[k].0 < at {
        lemma_apply_edits_lines(b, es, k + 1, at);
    } else {
        let x = es[k];
        assert(edit_keeps_lines(b, x));
        lemma_apply_edits_lines(b, es, k + 1, x.1);
        let pre = b.subrange(at, x.0);
        let rest = apply_edits(b, es, k + 1, x.1);
        lemma_count_concat(pre, x.2, 10);
        lemma_count_concat(pre + x.2, rest, 10);
        lemma_count_shift(b, 10, at, x.0);
        lemma_count_split(b, 10, at, x.0, n);
        lemma_count_split(b, 10, x.0, x.1, n);
    }
}

/// No line break in a run of `=`.
proof fn lemma_eq_run_lines(m: nat)
    ensures
        newlines(eq_run(m)) == 0,
{
    lemma_count_zero(eq_run(m), 10, 0, m as int);
}

/// Rewriting a heading keeps its line breaks: they can only sit in the
/// title, which is kept.
proof fn lemma_heading_text_lines(b: Seq<u8>, h: Heading, spaced: bool)
    requires
        heading_shape(b, h),
        heading_one_line(b, h),
        h.level == h.close_level,
    ensures
        newlines(heading_text(b, h, spaced)) == count_byte(b, 10, h.start as int, h.end as int),
{
    let is = h.inner_start as int;
    let ie = h.inner_end as int;
    let t0 = h.title_start as int;
    let t1 = h.title_end as int;
    lemma_skip_ws(b, is, ie);
    lemma_skip_ws_back(b, t0, ie);
    let t = b.subrange(t0, t1);
    let eq = eq_run(h.level as nat);
    let sp = seq![32u8];
    lemma_eq_run_lines(h.level as nat);
    assert(newlines(sp) == 0) by {
        lemma_count_zero(sp, 10, 0, 1);
    }
    lemma_count_shift(b, 10, t0, t1);
    if spaced {
        lemma_count_concat(eq, sp, 10);
        lemma_count_concat(eq + sp, t, 10);
        lemma_count_concat(eq + sp + t, sp, 10);
        lemma_count_concat(eq + sp + t + sp, eq, 10);
    } else {
        lemma_count_concat(eq, t, 10);
        lemma_count_concat(eq + t, eq, 10);
    }
    let s = h.start as int;
    let e = h.end as int;
    lemma_count_split(b, 10, s, is, e);
    lemma_count_split(b, 10, is, t0, e);
    lemma_count_split(b, 10, t0, t1, e);
    lemma_count_split(b, 10, t1, ie, e);
    lemma_count_zero(b, 10, s, is);
    lemma_count_zero(b, 10, is, t0);
    lemma_count_zero(b, 10, t1, ie);
    lemma_count_zero(b, 10, ie, e);
}

proof fn lemma_heading_edits_lines(b: Seq<u8>, hs: Seq<Heading>, spaced: bool)
    requires
        forall|k: int| 0 <= k < hs.len() ==> #[trigger] heading_shape(b, hs[k]),
        forall|k: int| 0 <= k < hs.len() ==> #[trigger] heading_one_line(b, hs[k]),
    ensures
        edits_keep_lines(b, heading_edits(b, hs, spaced)),
    decreases hs.len(),
{
    if hs.len() > 0 {
        let p = hs.drop_last();
        assert forall|k: int| 0 <= k < p.len() implies #[trigger] heading_shape(b, p[k]) by {
            assert(p[k] == hs[k]);
        }
        assert forall|k: int| 0 <= k < p.len() implies #[trigger] heading_one_line(b, p[k]) by {
            assert(p[k] == hs[k]);
        }
        lemma_heading_edits_lines(b, p, spaced);
        let h = hs.last();
        assert(heading_shape(b, h) && heading_one_line(b, h));
        let rest = heading_edits(b, p, spaced);
        let want = heading_text(b, h, spaced);
        if !(h.level != h.close_level || b.subrange(h.start as int, h.end as int) == want) {
            lemma_heading_text_lines(b, h, spaced);
            let es = rest.push((h.start as int, h.end as int, want));
            assert forall|k: int| 0 <= k < es.len() implies edit_keeps_lines(b, #[trigger] es[k]) by {
                if k < rest.len() {
                    assert(es[k] == rest[k]);
                }
            }
        }
    }
}

/// One pass keeps every line break: heading rewrites only touch the markers
/// and the white space around a title, which holds no line break, and
/// dropping trailing white space stops at each line's end.
proof fn lemma_restyle_keeps_lines(b: Seq<u8>, style: Style)
    requires
        b.len() <= usize::MAX,
    ensures
        newlines(restyle_spec(b, lex_spec(b), style)) == newlines(b),
{
    let ts = lex_spec(b);
    lemma_lex_tiles(b);
    lemma_lex_markers(b);
    lemma_lex_nl(b);
    lemma_lex_placed(b);
    lemma_heading_list_shape(b, ts, 0);
    lemma_heading_list_one_line(b, ts, 0);
    let hs = heading_list(b, ts, 0);
    let es = format_edits(b, ts, style.heading_spacing);
    match target_spacing(style.heading_spacing, hs) {
        Some(spaced) => {
            lemma_heading_edits_lines(b, hs, spaced);
        },
        None => {
            assert(es =~= Seq::<(int, int, Seq<u8>)>::empty());
        },
    }
    lemma_apply_edits_lines(b, es, 0, 0);
    let r = rewrite_headings(b, ts, style.heading_spacing);
    if style.trailing_whitespace {
        lemma_strip_keeps_lines(r, b, protected_spans(ts));
    }
}


/// The number of lines of `s` as `str::lines` counts them: one per line
/// break, plus a last line without one if anything follows the last break.
pub open spec fn line_count(s: Seq<u8>) -> int {
    newlines(s) + if s.len() > 0 && s.last() != 10 {
        1int
    } else {
        0int
    }
}

/// The edit `x` replaces a non-empty stretch of `b` by non-empty text that
/// ends with the same byte.
pub open spec fn edit_keeps_last(b: Seq<u8>, x: (int, int, Seq<u8>)) -> bool {
    &&& 0 <= x.0 < x.1 <= b.len()
    &&& x.2.len() > 0
    &&& x.2.last() == b[x.1 - 1]
}

pub open spec fn edits_keep_last(b: Seq<u8>, es: Seq<(int, int, Seq<u8>)>) -> bool {
    forall|k: int| 0 <= k < es.len() ==> edit_keeps_last(b, #[trigger] es[k])
}

proof fn lemma_apply_edits_last(b: Seq<u8>, es: Seq<(int, int, Seq<u8>)>, k: int, at: int)
    requires
        0 <= at <= b.len(),
        edits_keep_last(b, es),
    ensures
        at < b.len() ==> apply_edits(b, es, k, at).len() > 0 && apply_edits(b, es, k, at).last()
            == b[b.len() - 1],
        at == b.len() ==> apply_edits(b, es, k, at).len() == 0,
    decreases es.len() - k,
{
    let n = b.len() as int;
    if k >= es.len() || k < 0 {
    } else if es[k].0 < at {
        lemma_apply_edits_last(b, es, k + 1, at);
    } else {
        let x = es[k];
        assert(edit_keeps_last(b, x));
        lemma_apply_edits_last(b, es, k + 1, x.1);
        let rest = apply_edits(b, es, k + 1, x.1);
        let r = b.subrange(at, x.0) + x.2 + rest;
        assert(apply_edits(b, es, k, at) == r);
        if x.1 < n {
            assert(r.last() == rest.last());
        } else {
            assert(r.last() == x.2.last());
        }
    }
}

proof fn lemma_heading_edits_last(b: Seq<u8>, hs: Seq<Heading>, spaced: bool)
    requires
        forall|k: int| 0 <= k < hs.len() ==> #[trigger] heading_shape(b, hs[k]),
    ensures
        edits_keep_last(b, heading_edits(b, hs, spaced)),
    decreases hs.len(),
{
    if hs.len() > 0 {
        let p = hs.drop_last();
        assert forall|k: int| 0 <= k < p.len() implies #[trigger] heading_shape(b, p[k]) by {
            assert(p[k] == hs[k]);
        }
        lemma_heading_edits_last(b, p, spaced);
        let h = hs.last();
        assert(heading_shape(b, h));
        let rest = heading_edits(b, p, spaced);
        let want = heading_text(b, h, spaced);
        if !(h.level != h.close_level || b.subrange(h.start as int, h.end as int) == want) {
            let eq = eq_run(h.level as nat);
            assert(want.last() == eq.last());
            assert(b[h.end - 1] == 61);
            let es = rest.push((h.start as int, h.end as int, want));
            assert forall|k: int| 0 <= k < es.len() implies edit_keeps_last(b, #[trigger] es[k]) by {
                if k < rest.len() {
                    assert(es[k] == rest[k]);
                }
            }
        }
    }
}

/// Without stripping, one pass keeps the number of lines as `str::lines`
/// counts them too: the text stays empty or not, and keeps its last byte.
proof fn lemma_restyle_keeps_line_count(b: Seq<u8>, style: Style)
    requires
        b.len() <= usize::MAX,
        !style.trailing_whitespace,
    ensures
        line_count(restyle_spec(b, lex_spec(b), style)) == line_count(b),
{
    let ts = lex_spec(b);
    lemma_restyle_keeps_lines(b, style);
    lemma_lex_tiles(b);
    lemma_lex_markers(b);
    lemma_heading_list_shape(b, ts, 0);
    let hs = heading_list(b, ts, 0);
    let es = format_edits(b, ts, style.heading_spacing);
    match target_spacing(style.heading_spacing, hs) {
        Some(spaced) => {
            lemma_heading_edits_last(b, hs, spaced);
        },
        None => {
            assert(es =~= Seq::<(int, int, Seq<u8>)>::empty());
        },
    }
    lemma_apply_edits_last(b, es, 0, 0);
}


/// Formatting settles: formatting the formatted text again, with its own
/// tokens and the same style, gives it back byte for byte, so "format on
/// save" never keeps changing a file.
pub proof fn lemma_format_idempotent(b: Seq<u8>, style: Style)
    ensures
        format_spec(format_spec(b, lex_spec(b), style), lex_spec(format_spec(b, lex_spec(b), style)), style)
            == format_spec(b, lex_spec(b), style),
{
}

/// Formatting never adds or removes a line: whatever the style, the
/// formatted text has exactly as many line breaks as the input.
pub proof fn lemma_format_keeps_lines(b: Seq<u8>, style: Style)
    requires
        b.len() <= usize::MAX,
    ensures
        newlines(format_spec(b, lex_spec(b), style)) == newlines(b),
{
    lemma_restyle_keeps_lines(b, style);
}

/// Without trailing-white-space stripping, formatting also keeps the number
/// of lines as `str::lines` counts them.
pub proof fn lemma_format_keeps_line_count(b: Seq<u8>, style: Style)
    requires
        b.len() <= usize::MAX,
        !style.trailing_whitespace,
    ensures
        line_count(format_spec(b, lex_spec(b), style)) == line_count(b),
{
    lemma_restyle_keeps_line_count(b, style);
}


/// A tie leaves the text alone: under `PreserveDominant` without stripping,
/// a document with as many spaced headings as others is returned unchanged.
pub proof fn lemma_format_tie_leaves_text(b: Seq<u8>, style: Style)
    requires
        style.heading_spacing == HeadingSpacing::PreserveDominant,
        !style.trailing_whitespace,
        2 * count_spaced(heading_list(b, lex_spec(b), 0)) == heading_list(b, lex_spec(b), 0).len(),
    ensures
        format_spec(b, lex_spec(b), style) == b,
{
    lemma_format_tie_keeps_headings(b, lex_spec(b));
}


// ---------------------------------------------------------------------------
// What SW005 reports
// ---------------------------------------------------------------------------

/// `d` is the SW005 report of the heading `h`: over the whole heading, with
/// an unsafe fix over the same span (the intended level is a guess).
pub open spec fn reports_heading(d: DiagnosticView, h: Heading) -> bool {
    &&& d.code == code_str(5)
    &&& d.start == h.start
    &&& d.end == h.end
    &&& d.fix is Some
    &&& d.fix->0.applicability == Applicability::Unsafe
    &&& d.fix->0.start == h.start
    &&& d.fix->0.end == h.end
}

/// `d` is the SW005 report of a heading marker that nothing closes before
/// the line ends: over the marker, with no fix.
pub open spec fn reports_unclosed(ts: Seq<Token>, d: DiagnosticView) -> bool {
    exists|p: int|
        #![trigger ts[p]]
        0 <= p < ts.len() && ts[p].kind is HeadingMarker && d.code == code_str(5) && d.start
            == ts[p].span.start && d.end == ts[p].span.end && d.fix is None
}

pub open spec fn asymmetric(h: Heading) -> bool {
    h.level != h.close_level
}

/// Every asymmetric heading of `hl` has its report in `sc`.
pub open spec fn covers(hl: Seq<Heading>, sc: Seq<DiagnosticView>) -> bool {
    forall|k: int|
        #![trigger hl[k]]
        0 <= k < hl.len() && asymmetric(hl[k]) ==> exists|j: int|
            #![trigger sc[j]]
            0 <= j < sc.len() && reports_heading(sc[j], hl[k])
}

/// Every report of `sc` is an unclosed marker of `ts` or an asymmetric
/// heading of `hl`.
pub open spec fn explained(ts: Seq<Token>, hl: Seq<Heading>, sc: Seq<DiagnosticView>) -> bool {
    forall|j: int|
        #![trigger sc[j]]
        0 <= j < sc.len() ==> reports_unclosed(ts, sc[j]) || exists|k: int|
            #![trigger hl[k]]
            0 <= k < hl.len() && asymmetric(hl[k]) && reports_heading(sc[j], hl[k])
}

proof fn lemma_covers_concat(ts: Seq<Token>, hh: Seq<Heading>, dd: Seq<DiagnosticView>, hr: Seq<Heading>, dr: Seq<DiagnosticView>)
    requires
        covers(hh, dd),
        covers(hr, dr),
        explained(ts, hh, dd),
        explained(ts, hr, dr),
    ensures
        covers(hh + hr, dd + dr),
        explained(ts, hh + hr, dd + dr),
{
    let hl = hh + hr;
    let sc = dd + dr;
    assert forall|k: int| 0 <= k < hl.len() && asymmetric(#[trigger] hl[k]) implies exists|j: int|
        #![trigger sc[j]]
        0 <= j < sc.len() && reports_heading(sc[j], hl[k]) by {
        if k < hh.len() {
            assert(hl[k] == hh[k]);
            let j = choose|j: int| 0 <= j < dd.len() && reports_heading(#[trigger] dd[j], hh[k]);
            assert(sc[j] == dd[j]);
        } else {
            assert(hl[k] == hr[k - hh.len()]);
            let j = choose|j: int| 0 <= j < dr.len() && reports_heading(#[trigger] dr[j], hr[k - hh.len()]);
            assert(sc[j + dd.len()] == dr[j]);
        }
    }
    assert forall|j: int| 0 <= j < sc.len() implies reports_unclosed(ts, #[trigger] sc[j]) || exists|k: int|
        #![trigger hl[k]]
        0 <= k < hl.len() && asymmetric(hl[k]) && reports_heading(sc[j], hl[k]) by {
        if j < dd.len() {
            assert(sc[j] == dd[j]);
            if !reports_unclosed(ts, dd[j]) {
                let k = choose|k: int| 0 <= k < hh.len() && asymmetric(#[trigger] hh[k]) && reports_heading(dd[j], hh[k]);
                assert(hl[k] == hh[k]);
            }
        } else {
            assert(sc[j] == dr[j - dd.len()]);
            if !reports_unclosed(ts, dr[j - dd.len()]) {
                let k = choose|k: int| 0 <= k < hr.len() && asymmetric(#[trigger] hr[k]) && reports_heading(dr[j - dd.len()], hr[k]);
                assert(hl[k + hh.len()] == hr[k]);
            }
        }
    }
}

/// The heading, if any, of the line opened by marker `i`.
pub open spec fn line_heading(b: Seq<u8>, ts: Seq<Token>, i: int) -> Seq<Heading> {
    match last_marker(ts, i + 1, next_newline(ts, i + 1)) {
        Some(c) => seq![heading_at(b, ts, i, c)],
        None => Seq::empty(),
    }
}

/// What SW005 reports of the line opened by marker `i`.
pub open spec fn line_report(b: Seq<u8>, ts: Seq<Token>, i: int) -> Seq<DiagnosticView> {
    match last_marker(ts, i + 1, next_newline(ts, i + 1)) {
        Some(c) => if level_of(ts[c].kind) != level_of(ts[i].kind) {
            seq![asym_report(b, ts, i, c)]
        } else {
            Seq::empty()
        },
        None => seq![
            dv(
                code_str(5),
                Severity::Error,
                lit("heading has no closing `=`"),
                ts[i].span.start as int,
                ts[i].span.end as int,
                None,
            ),
        ],
    }
}

proof fn lemma_line_report(b: Seq<u8>, ts: Seq<Token>, i: int)
    requires
        0 <= i < ts.len(),
        ts[i].kind is HeadingMarker,
    ensures
        covers(line_heading(b, ts, i), line_report(b, ts, i)),
        explained(ts, line_heading(b, ts, i), line_report(b, ts, i)),
{
    let j0 = next_newline(ts, i + 1);
    lemma_next_newline(ts, i + 1);
    lemma_last_marker(ts, i + 1, j0);
    let hh = line_heading(b, ts, i);
    let dd = line_report(b, ts, i);
    if let Some(c) = last_marker(ts, i + 1, j0) {
        if level_of(ts[c].kind) != level_of(ts[i].kind) {
            assert(reports_heading(dd[0], hh[0]));
        }
        assert forall|k: int| 0 <= k < hh.len() && asymmetric(#[trigger] hh[k]) implies exists|j: int|
            #![trigger dd[j]]
            0 <= j < dd.len() && reports_heading(dd[j], hh[k]) by {
            assert(reports_heading(dd[0], hh[0]));
        }
        assert forall|j: int| 0 <= j < dd.len() implies reports_unclosed(ts, #[trigger] dd[j]) || exists|k: int|
            #![trigger hh[k]]
            0 <= k < hh.len() && asymmetric(hh[k]) && reports_heading(dd[j], hh[k]) by {
            assert(reports_heading(dd[0], hh[0]));
        }
    } else {
        assert forall|j: int| 0 <= j < dd.len() implies reports_unclosed(ts, #[trigger] dd[j]) || exists|k: int|
            #![trigger hh[k]]
            0 <= k < hh.len() && asymmetric(hh[k]) && reports_heading(dd[j], hh[k]) by {
            assert(ts[i].kind is HeadingMarker);
        }
    }
}

/// SW005, stated over the headings the formatter sees: every heading whose
/// opening and closing runs differ is reported over its whole span with an
/// unsafe fix, and every report is either such a heading or a heading
/// marker that nothing closes before its line ends.
pub proof fn lemma_heading_scan_reports(b: Seq<u8>, ts: Seq<Token>, i: int)
    requires
        0 <= i,
    ensures
        covers(heading_list(b, ts, i), heading_scan(b, ts, i)),
        explained(ts, heading_list(b, ts, i), heading_scan(b, ts, i)),
    decreases ts.len() - i,
{
    if i >= ts.len() {
    } else if ts[i].kind is HeadingMarker {
        let j0 = next_newline(ts, i + 1);
        lemma_next_newline(ts, i + 1);
        lemma_line_report(b, ts, i);
        let hh = line_heading(b, ts, i);
        let dd = line_report(b, ts, i);
        if i < j0 <= ts.len() {
            lemma_heading_scan_reports(b, ts, j0);
            lemma_covers_concat(ts, hh, dd, heading_list(b, ts, j0), heading_scan(b, ts, j0));
            assert(heading_list(b, ts, i) == hh + heading_list(b, ts, j0));
            assert(heading_scan(b, ts, i) == dd + heading_scan(b, ts, j0));
        } else {
            assert(heading_list(b, ts, i) == hh);
            assert(heading_scan(b, ts, i) == dd);
        }
    } else {
        lemma_heading_scan_reports(b, ts, i + 1);
        assert(heading_list(b, ts, i) == heading_list(b, ts, i + 1));
        assert(heading_scan(b, ts, i) == heading_scan(b, ts, i + 1));
    }
}


// ---------------------------------------------------------------------------
// Protected lines keep their trailing white space
// ---------------------------------------------------------------------------

/// Line `k` of `s`, counting from the line that starts at `a`.
pub open spec fn line_at(s: Seq<u8>, a: int, k: nat) -> Seq<u8>
    decreases k,
{
    let e = line_end(s, a);
    if k == 0 {
        s.subrange(a, e)
    } else if a <= e < s.len() {
        line_at(s, e + 1, (k - 1) as nat)
    } else {
        Seq::empty()
    }
}

proof fn lemma_line_end_is(s: Seq<u8>, a: int, e: int)
    requires
        0 <= a <= e <= s.len(),
        e < s.len() ==> s[e] == NL,
        forall|q: int| a <= q < e ==> s[q] != NL,
    ensures
        line_end(s, a) == e,
{
    lemma_line_end(s, a);
    let f = line_end(s, a);
    if f < e {
        assert(s[f] == NL);
    }
    if f > e {
        assert(s[e] == NL);
    }
}

proof fn lemma_line_at_shift(p: Seq<u8>, y: Seq<u8>, a: int, k: nat)
    requires
        0 <= a <= y.len(),
    ensures
        line_at(p + y, p.len() + a, k) == line_at(y, a, k),
    decreases k,
{
    let s = p + y;
    lemma_line_end(y, a);
    let e = line_end(y, a);
    assert forall|q: int| p.len() + a <= q < p.len() + e implies s[q] != NL by {
        assert(s[q] == y[q - p.len()]);
    }
    if e < y.len() {
        assert(s[p.len() + e] == y[e]);
    }
    lemma_line_end_is(s, p.len() + a, p.len() + e);
    if k == 0 {
        assert(s.subrange(p.len() + a, p.len() + e) =~= y.subrange(a, e));
    } else if e < y.len() {
        lemma_line_at_shift(p, y, e + 1, (k - 1) as nat);
    }
}

proof fn lemma_strip_keeps_protected_line(t: Seq<u8>, a: int, j: int, n: int, b: Seq<u8>, ps: Seq<(int, int)>)
    requires
        0 <= a <= t.len(),
        0 <= j <= n,
        line_protected(b, ps, n),
    ensures
        line_at(strip_lines(t, a, j, b, ps), 0, (n - j) as nat) == line_at(t, a, (n - j) as nat),
    decreases t.len() - a,
{
    lemma_line_end(t, a);
    let e = line_end(t, a);
    lemma_rtrim_end(t, a, e);
    let kept = if line_protected(b, ps, j) {
        t.subrange(a, e)
    } else {
        t.subrange(a, rtrim_end(t, a, e))
    };
    let s = strip_lines(t, a, j, b, ps);
    assert(forall|q: int| 0 <= q < kept.len() ==> kept[q] != NL);
    if e < t.len() {
        let rest = strip_lines(t, e + 1, j + 1, b, ps);
        assert(s == kept + seq![10u8] + rest);
        lemma_line_end_is(s, 0, kept.len() as int);
        if n == j {
            assert(s.subrange(0, kept.len() as int) =~= kept);
        } else {
            lemma_strip_keeps_protected_line(t, e + 1, j + 1, n, b, ps);
            lemma_line_at_shift(kept + seq![10u8], rest, 0, (n - j - 1) as nat);
            assert(kept + seq![10u8] + rest == (kept + seq![10u8]) + rest);
        }
    } else {
        assert(s == kept);
        lemma_line_end_is(s, 0, kept.len() as int);
        if n == j {
            assert(s.subrange(0, kept.len() as int) =~= kept);
        }
    }
}

proof fn lemma_protected_token_line(b: Seq<u8>, ts: Seq<Token>, m: int, n: int)
    requires
        0 <= m < ts.len(),
        is_protected(ts[m].kind),
        count_byte(b, 10, 0, ts[m].span.start as int) <= n,
        n <= count_byte(
            b,
            10,
            0,
            if ts[m].span.end < b.len() {
                ts[m].span.end as int
            } else {
                b.len() as int
            },
        ),
    ensures
        line_protected(b, protected_spans(ts), n),
    decreases ts.len(),
{
    let p = ts.drop_last();
    if m < ts.len() - 1 {
        assert(p[m] == ts[m]);
        lemma_protected_token_line(b, p, m, n);
        if is_protected(ts.last().kind) {
            assert(protected_spans(ts).drop_last() == protected_spans(p));
        }
    } else {
        assert(protected_spans(ts).last() == (ts[m].span.start as int, ts[m].span.end as int));
    }
}

/// Trailing white space is content inside `<pre>`, `<nowiki>` and
/// space-indented preformatted text: with stripping on, every line of a
/// heading-free document that such a token touches (from the line of its
/// first byte to the line of its end) comes out byte for byte as it was.
pub proof fn lemma_format_keeps_protected_lines(b: Seq<u8>, style: Style, m: int, n: nat)
    requires
        b.len() <= usize::MAX,
        style.trailing_whitespace,
        heading_list(b, lex_spec(b), 0).len() == 0,
        0 <= m < lex_spec(b).len(),
        lex_spec(b)[m].kind == (TokenKind::Opaque { kind: Opaque::Pre }) || lex_spec(b)[m].kind == (
        TokenKind::Opaque { kind: Opaque::Nowiki }) || lex_spec(b)[m].kind == (TokenKind::Opaque {
            kind: Opaque::Preformatted,
        }),
        count_byte(b, 10, 0, lex_spec(b)[m].span.start as int) <= n,
        n <= count_byte(
            b,
            10,
            0,
            if lex_spec(b)[m].span.end < b.len() {
                lex_spec(b)[m].span.end as int
            } else {
                b.len() as int
            },
        ),
    ensures
        line_at(format_spec(b, lex_spec(b), style), 0, n) == line_at(b, 0, n),
{
    let ts = lex_spec(b);
    lemma_protected_token_line(b, ts, m, n as int);
    let es = format_edits(b, ts, style.heading_spacing);
    assert(es =~= Seq::<(int, int, Seq<u8>)>::empty());
    assert(rewrite_headings(b, ts, style.heading_spacing) =~= b);
    lemma_strip_keeps_protected_line(b, 0, 0, n as int, b, protected_spans(ts));
}

} // verus!
